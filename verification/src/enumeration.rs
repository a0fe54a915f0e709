//! What the enumeration holds: every position of the game, each of them once.

use vstd::prelude::*;
use vstd::seq_lib::{lemma_no_dup_in_concat, lemma_seq_concat_contains_all_elements};
use crate::state::{
    all_states, chips_in_play, deals, is_position, is_position_upto, partitions,
    partitions_below, seated, states_of, states_upto, with_first, with_turns, Assign, StateView,
};

verus! {

/// A seat put in front of a deal among the other players makes a deal among
/// all of them.
pub proof fn lemma_first_seat_deals(players: Seq<u8>, chips: nat, head: Assign, tail: Seq<Assign>)
    requires
        players.len() >= 2,
        head.player == players[0],
        head.chips <= chips,
        deals(players.skip(1), (chips - head.chips) as nat, tail),
    ensures
        deals(players, chips, seq![head] + tail),
{
    let whole = seq![head] + tail;
    assert(whole.skip(1) =~= tail);
    assert forall|seat: int| 0 <= seat < players.len() implies (#[trigger] whole[seat]).player
        == players[seat] by {
        if seat > 0 {
            assert(whole[seat] == tail[seat - 1]);
            assert(players.skip(1)[seat - 1] == players[seat]);
        }
    }
}

/// Each layout in which the first of several players holds fewer than `share`
/// chips deals `chips` chips, fewer than `share` of them to the first player.
pub proof fn lemma_partitions_below_sound(players: Seq<u8>, chips: nat, share: nat, i: int)
    requires
        players.len() >= 2,
        share <= chips + 1,
        chips <= u8::MAX,
        0 <= i < partitions_below(players, chips, share).len(),
    ensures
        deals(players, chips, partitions_below(players, chips, share)[i]),
        partitions_below(players, chips, share)[i][0].chips < share,
    decreases players.len(), share,
{
    let held = (share - 1) as nat;
    let earlier = partitions_below(players, chips, held);
    if i < earlier.len() {
        lemma_partitions_below_sound(players, chips, held, i);
    } else {
        let rest = players.skip(1);
        let left = (chips - held) as nat;
        let head = Assign { player: players[0], chips: held as u8 };
        let tails = partitions(rest, left);
        let j = i - earlier.len();
        lemma_partitions_sound(rest, left, j);
        assert(partitions_below(players, chips, share)[i] == with_first(head, tails)[j]);
        lemma_first_seat_deals(players, chips, head, tails[j]);
    }
}

/// Each layout of the enumeration deals `chips` chips to `players`.
pub proof fn lemma_partitions_sound(players: Seq<u8>, chips: nat, i: int)
    requires
        players.len() >= 1,
        chips <= u8::MAX,
        0 <= i < partitions(players, chips).len(),
    ensures
        deals(players, chips, partitions(players, chips)[i]),
    decreases players.len(), chips + 2,
{
    if players.len() == 1 {
        let only = partitions(players, chips)[0];
        assert(chips_in_play(only.skip(1)) == 0);
    } else {
        lemma_partitions_below_sound(players, chips, chips + 1, i);
    }
}

/// A layout found among those with a small first share is found among those
/// with a larger one.
pub proof fn lemma_partitions_below_grows(
    players: Seq<u8>,
    chips: nat,
    low: nat,
    high: nat,
    assigns: Seq<Assign>,
)
    requires
        players.len() >= 2,
        low <= high <= chips + 1,
        partitions_below(players, chips, low).contains(assigns),
    ensures
        partitions_below(players, chips, high).contains(assigns),
    decreases high,
{
    if low < high {
        let held = (high - 1) as nat;
        lemma_partitions_below_grows(players, chips, low, held, assigns);
        let earlier = partitions_below(players, chips, held);
        let i = choose|i: int| 0 <= i < earlier.len() && earlier[i] == assigns;
        assert(partitions_below(players, chips, high)[i] == assigns);
    }
}

/// Every deal of `chips` chips to `players` is a layout of the enumeration.
pub proof fn lemma_partitions_complete(players: Seq<u8>, chips: nat, assigns: Seq<Assign>)
    requires
        players.len() >= 1,
        deals(players, chips, assigns),
    ensures
        partitions(players, chips).contains(assigns),
    decreases players.len(),
{
    if players.len() == 1 {
        assert(chips_in_play(assigns.skip(1)) == 0);
        assert(assigns[0].player == players[0]);
        assert(assigns =~= seq![Assign { player: players[0], chips: chips as u8 }]);
        assert(partitions(players, chips)[0] == assigns);
    } else {
        let head = assigns[0];
        let tail = assigns.skip(1);
        let rest = players.skip(1);
        let held = head.chips as nat;
        let left = (chips - held) as nat;
        assert(seated(rest, tail)) by {
            assert forall|seat: int| 0 <= seat < rest.len() implies (#[trigger] tail[seat]).player
                == rest[seat] by {
                assert(assigns[seat + 1].player == players[seat + 1]);
            }
        }
        lemma_partitions_complete(rest, left, tail);
        let tails = partitions(rest, left);
        let j = choose|j: int| 0 <= j < tails.len() && tails[j] == tail;
        let earlier = partitions_below(players, chips, held);
        let upto = partitions_below(players, chips, held + 1);
        assert(head.player == players[0]);
        assert(upto[earlier.len() + j] == with_first(
            Assign { player: players[0], chips: held as u8 },
            tails,
        )[j]);
        assert(upto[earlier.len() + j] =~= assigns);
        lemma_partitions_below_grows(players, chips, held + 1, chips + 1, assigns);
    }
}

/// The layouts of the enumeration are the deals of `chips` chips to `players`.
pub proof fn lemma_partitions_member(players: Seq<u8>, chips: nat, assigns: Seq<Assign>)
    requires
        players.len() >= 1,
        chips <= u8::MAX,
    ensures
        partitions(players, chips).contains(assigns) <==> deals(players, chips, assigns),
{
    if partitions(players, chips).contains(assigns) {
        let layouts = partitions(players, chips);
        let i = choose|i: int| 0 <= i < layouts.len() && layouts[i] == assigns;
        lemma_partitions_sound(players, chips, i);
    }
    if deals(players, chips, assigns) {
        lemma_partitions_complete(players, chips, assigns);
    }
}

/// No layout stands twice among those with a first share below `share`.
pub proof fn lemma_partitions_below_distinct(players: Seq<u8>, chips: nat, share: nat)
    requires
        players.len() >= 2,
        share <= chips + 1,
        chips <= u8::MAX,
    ensures
        partitions_below(players, chips, share).no_duplicates(),
    decreases players.len(), share,
{
    if share > 0 {
        let held = (share - 1) as nat;
        let earlier = partitions_below(players, chips, held);
        let rest = players.skip(1);
        let left = (chips - held) as nat;
        let head = Assign { player: players[0], chips: held as u8 };
        let tails = partitions(rest, left);
        let added = with_first(head, tails);
        lemma_partitions_below_distinct(players, chips, held);
        lemma_partitions_distinct(rest, left);
        assert forall|i: int, j: int|
            0 <= i < added.len() && 0 <= j < added.len() && i != j implies added[i]
            != added[j] by {
            assert(added[i].skip(1) =~= tails[i]);
            assert(added[j].skip(1) =~= tails[j]);
        }
        assert forall|i: int, j: int|
            0 <= i < earlier.len() && 0 <= j < added.len() implies earlier[i] != added[j] by {
            lemma_partitions_below_sound(players, chips, held, i);
            assert(added[j][0] == head);
        }
        lemma_no_dup_in_concat(earlier, added);
    }
}

/// No layout stands twice in the enumeration.
pub proof fn lemma_partitions_distinct(players: Seq<u8>, chips: nat)
    requires
        players.len() >= 1,
        chips <= u8::MAX,
    ensures
        partitions(players, chips).no_duplicates(),
    decreases players.len(), chips + 2,
{
    if players.len() > 1 {
        lemma_partitions_below_distinct(players, chips, chips + 1);
    }
}

/// The positions made of `layouts` are those with a layout of `layouts` and
/// the turn of a player of `players`.
pub proof fn lemma_states_of_member(
    players: Seq<u8>,
    layouts: Seq<Seq<Assign>>,
    state: StateView,
)
    ensures
        states_of(players, layouts).contains(state) <==> players.contains(state.turn)
            && layouts.contains(state.assigns),
    decreases layouts.len(),
{
    if layouts.len() > 0 {
        let front = layouts.drop_last();
        let earlier = states_of(players, front);
        let added = with_turns(players, layouts.last());
        lemma_states_of_member(players, front, state);
        lemma_seq_concat_contains_all_elements(earlier, added, state);
        assert(layouts =~= front + seq![layouts.last()]);
        lemma_seq_concat_contains_all_elements(front, seq![layouts.last()], state.assigns);
        if added.contains(state) {
            let t = choose|t: int| 0 <= t < added.len() && added[t] == state;
            assert(players[t] == state.turn);
            assert(seq![layouts.last()][0] == state.assigns);
        }
        if players.contains(state.turn) && seq![layouts.last()].contains(state.assigns) {
            let t = choose|t: int| 0 <= t < players.len() && players[t] == state.turn;
            assert(added[t] == state);
        }
    }
}

/// Distinct layouts and distinct players make distinct positions.
pub proof fn lemma_states_of_distinct(players: Seq<u8>, layouts: Seq<Seq<Assign>>)
    requires
        players.no_duplicates(),
        layouts.no_duplicates(),
    ensures
        states_of(players, layouts).no_duplicates(),
    decreases layouts.len(),
{
    if layouts.len() > 0 {
        let front = layouts.drop_last();
        let earlier = states_of(players, front);
        let added = with_turns(players, layouts.last());
        lemma_states_of_distinct(players, front);
        assert forall|i: int, j: int|
            0 <= i < earlier.len() && 0 <= j < added.len() implies earlier[i] != added[j] by {
            lemma_states_of_member(players, front, earlier[i]);
            if earlier[i] == added[j] {
                let k = choose|k: int| 0 <= k < front.len() && front[k] == earlier[i].assigns;
                assert(layouts[k] == layouts[layouts.len() - 1]);
            }
        }
        lemma_no_dup_in_concat(earlier, added);
    }
}

/// The positions up to `chips` chips are those in which it is some player's
/// turn, every player has a seat, and one to `chips` chips are in play.
pub proof fn lemma_states_upto_member(players: Seq<u8>, chips: nat, state: StateView)
    requires
        players.len() >= 1,
        chips <= u8::MAX,
    ensures
        states_upto(players, chips).contains(state) <==> is_position_upto(players, chips, state),
    decreases chips,
{
    if chips > 0 {
        let fewer = (chips - 1) as nat;
        let layouts = partitions(players, chips);
        lemma_states_upto_member(players, fewer, state);
        lemma_states_of_member(players, layouts, state);
        lemma_partitions_member(players, chips, state.assigns);
        lemma_seq_concat_contains_all_elements(states_upto(players, fewer), states_of(players, layouts), state);
    }
}

/// With distinct players, no position stands twice among those up to `chips`
/// chips.
pub proof fn lemma_states_upto_distinct(players: Seq<u8>, chips: nat)
    requires
        players.len() >= 1,
        chips <= u8::MAX,
        players.no_duplicates(),
    ensures
        states_upto(players, chips).no_duplicates(),
    decreases chips,
{
    if chips > 0 {
        let fewer = (chips - 1) as nat;
        let layouts = partitions(players, chips);
        let earlier = states_upto(players, fewer);
        let added = states_of(players, layouts);
        lemma_states_upto_distinct(players, fewer);
        lemma_partitions_distinct(players, chips);
        lemma_states_of_distinct(players, layouts);
        assert forall|i: int, j: int|
            0 <= i < earlier.len() && 0 <= j < added.len() implies earlier[i] != added[j] by {
            lemma_states_upto_member(players, fewer, earlier[i]);
            lemma_states_of_member(players, layouts, added[j]);
            lemma_partitions_member(players, chips, added[j].assigns);
        }
        lemma_no_dup_in_concat(earlier, added);
    }
}

/// The enumeration holds exactly the positions of the game: a state is in it
/// if and only if it is the turn of one of the players, every player has a
/// seat, and between one chip and three chips for each player are in play.
pub proof fn lemma_all_states_member(players: Seq<u8>, state: StateView)
    requires
        players.len() >= 1,
        3 * players.len() <= u8::MAX,
    ensures
        all_states(players).contains(state) <==> is_position(players, state),
{
    lemma_states_upto_member(players, 3 * players.len(), state);
}

/// With distinct players, no two positions of the enumeration agree in turn
/// and in seats.
pub proof fn lemma_all_states_distinct(players: Seq<u8>)
    requires
        players.len() >= 1,
        3 * players.len() <= u8::MAX,
        players.no_duplicates(),
    ensures
        all_states(players).no_duplicates(),
{
    lemma_states_upto_distinct(players, 3 * players.len());
}

} // verus!
