//! Positions of the game and their enumeration.

use vstd::prelude::*;
use crate::counting::{binomial, lemma_all_states_len, lemma_partitions_len, state_count};
use crate::enumeration::{lemma_all_states_distinct, lemma_partitions_distinct};

verus! {

/// The chips held by one player.
#[derive(Debug, Clone, Copy, PartialEq, Eq, Structural)]
pub struct Assign {
    pub player: u8,
    pub chips: u8,
}

/// A position: whose turn it is, and what every seat holds.
#[derive(Debug, Clone, PartialEq, Eq)]
pub struct State {
    pub turn: u8,
    pub assigns: Vec<Assign>,
}

/// The mathematical value of a [`State`].
pub struct StateView {
    pub turn: u8,
    pub assigns: Seq<Assign>,
}

impl View for State {
    type V = StateView;

    open spec fn view(&self) -> StateView {
        StateView { turn: self.turn, assigns: self.assigns@ }
    }
}

/// The chips that the seats of `assigns` hold together.
pub open spec fn chips_in_play(assigns: Seq<Assign>) -> nat
    decreases assigns.len(),
{
    if assigns.len() == 0 {
        0
    } else {
        assigns[0].chips as nat + chips_in_play(assigns.skip(1))
    }
}

/// `assigns` has one seat for each player of `players`, in their order.
pub open spec fn seated(players: Seq<u8>, assigns: Seq<Assign>) -> bool {
    &&& assigns.len() == players.len()
    &&& forall|seat: int|
        0 <= seat < players.len() ==> (#[trigger] assigns[seat]).player == players[seat]
}

/// `assigns` deals exactly `chips` chips to `players`.
pub open spec fn deals(players: Seq<u8>, chips: nat, assigns: Seq<Assign>) -> bool {
    seated(players, assigns) && chips_in_play(assigns) == chips
}

/// `state` is a position of a game among `players` with at least one chip
/// and at most `chips` chips in play: it is some player's turn, and every
/// player has a seat.
pub open spec fn is_position_upto(players: Seq<u8>, chips: nat, state: StateView) -> bool {
    &&& players.contains(state.turn)
    &&& seated(players, state.assigns)
    &&& 1 <= chips_in_play(state.assigns) <= chips
}

/// `state` is a position of a game among `players`, in which at most three
/// chips for each player are in play.
pub open spec fn is_position(players: Seq<u8>, state: StateView) -> bool {
    is_position_upto(players, 3 * players.len(), state)
}

/// The views of a vector of layouts.
pub open spec fn layout_views(layouts: Seq<Vec<Assign>>) -> Seq<Seq<Assign>> {
    layouts.map_values(|layout: Vec<Assign>| layout@)
}

/// Every layout of `tails` with `head` put in front of it.
pub open spec fn with_first(head: Assign, tails: Seq<Seq<Assign>>) -> Seq<Seq<Assign>> {
    tails.map_values(|tail: Seq<Assign>| seq![head] + tail)
}

/// The ways to deal `chips` chips to `players`, seat by seat in the order of
/// `players`: the first player's share grows from 0 to `chips`, and for each
/// share the others divide what is left in the same manner.
pub open spec fn partitions(players: Seq<u8>, chips: nat) -> Seq<Seq<Assign>>
    decreases players.len(), chips + 2,
{
    if players.len() <= 1 {
        seq![seq![Assign { player: players[0], chips: chips as u8 }]]
    } else {
        partitions_below(players, chips, chips + 1)
    }
}

/// The part of `partitions(players, chips)` in which the first player holds
/// fewer than `share` chips.
pub open spec fn partitions_below(players: Seq<u8>, chips: nat, share: nat) -> Seq<Seq<Assign>>
    decreases players.len(), share,
{
    if players.len() <= 1 || share == 0 || share > chips + 1 {
        Seq::empty()
    } else {
        let held = (share - 1) as nat;
        partitions_below(players, chips, held) + with_first(
            Assign { player: players[0], chips: held as u8 },
            partitions(players.skip(1), (chips - held) as nat),
        )
    }
}

/// The views of a vector of positions.
pub open spec fn state_views(states: Seq<State>) -> Seq<StateView> {
    states.map_values(|state: State| state@)
}

/// The layout `assigns` once for each player of `players`, whose turn it is.
pub open spec fn with_turns(players: Seq<u8>, assigns: Seq<Assign>) -> Seq<StateView> {
    players.map_values(|turn: u8| StateView { turn, assigns })
}

/// The positions made of `layouts`, layout by layout, each with every turn.
pub open spec fn states_of(players: Seq<u8>, layouts: Seq<Seq<Assign>>) -> Seq<StateView>
    decreases layouts.len(),
{
    if layouts.len() == 0 {
        Seq::empty()
    } else {
        states_of(players, layouts.drop_last()) + with_turns(players, layouts.last())
    }
}

/// The positions with at least one chip and at most `chips` chips in play,
/// by rising number of chips.
pub open spec fn states_upto(players: Seq<u8>, chips: nat) -> Seq<StateView>
    decreases chips,
{
    if chips == 0 {
        Seq::empty()
    } else {
        states_upto(players, (chips - 1) as nat) + states_of(players, partitions(players, chips))
    }
}

/// Every position of a game among `players`: from one chip in play up to
/// three chips for each player.
pub open spec fn all_states(players: Seq<u8>) -> Seq<StateView> {
    states_upto(players, 3 * players.len())
}

/// All the ways to deal `chips` chips to `players`.
pub fn permute(players: &[u8], chips: u8) -> (layouts: Vec<Vec<Assign>>)
    requires
        players@.len() >= 1,
    ensures
        layout_views(layouts@) == partitions(players@, chips as nat),
        layouts@.len() == binomial(
            (chips + players@.len() - 1) as nat,
            (players@.len() - 1) as nat,
        ),
        layout_views(layouts@).no_duplicates(),
    decreases players@.len(),
{
    proof {
        lemma_partitions_len(players@, chips as nat);
        lemma_partitions_distinct(players@, chips as nat);
    }
    let player = players[0];
    let mut result: Vec<Vec<Assign>> = Vec::new();
    if players.len() == 1 {
        let mut only: Vec<Assign> = Vec::new();
        only.push(Assign { player, chips });
        result.push(only);
        assert(layout_views(result@) =~= partitions(players@, chips as nat));
        return result;
    }
    let rest = &players[1..players.len()];
    assert(rest@ =~= players@.skip(1));
    let mut num_chips: u8 = 0;
    loop
        invariant_except_break
            layout_views(result@) == partitions_below(players@, chips as nat, num_chips as nat),
        invariant
            players@.len() > 1,
            player == players@[0],
            rest@ == players@.skip(1),
            num_chips <= chips,
        ensures
            layout_views(result@) == partitions_below(players@, chips as nat, chips as nat + 1),
        decreases chips - num_chips,
    {
        let head = Assign { player, chips: num_chips };
        let other_permuts = permute(rest, chips - num_chips);
        let ghost tails = partitions(rest@, (chips - num_chips) as nat);
        let ghost done = partitions_below(players@, chips as nat, num_chips as nat);
        let mut next: usize = 0;
        while next < other_permuts.len()
            invariant
                next <= other_permuts.len(),
                layout_views(other_permuts@) == tails,
                layout_views(result@) == done + with_first(head, tails.take(next as int)),
            decreases other_permuts.len() - next,
        {
            let mut permut = other_permuts[next].clone();
            assert(permut@ =~= other_permuts@[next as int]@);
            permut.insert(0, head);
            assert(permut@ =~= seq![head] + tails[next as int]) by {
                assert(layout_views(other_permuts@)[next as int] == other_permuts@[next as int]@);
            }
            let ghost before = result@;
            result.push(permut);
            assert(layout_views(result@) =~= done + with_first(head, tails.take(next + 1))) by {
                assert(tails.take(next + 1) =~= tails.take(next as int).push(tails[next as int]));
                assert(with_first(head, tails.take(next + 1)) =~= with_first(
                    head,
                    tails.take(next as int),
                ).push(seq![head] + tails[next as int]));
                assert(layout_views(result@) =~= layout_views(before).push(permut@));
            }
            next += 1;
        }
        assert(tails.take(next as int) =~= tails);
        if num_chips == chips {
            break;
        }
        num_chips += 1;
    }
    result
}

/// Every position of a game among `players`, by rising number of chips in
/// play; for each number of chips layout by layout as [`permute`] gives them,
/// and for each layout once for every player's turn.
pub fn create_states(players: &[u8]) -> (states: Vec<State>)
    requires
        players@.len() >= 1,
        3 * players@.len() <= u8::MAX,
    ensures
        state_views(states@) == all_states(players@),
        states@.len() == state_count(players@.len()),
        players@.no_duplicates() ==> state_views(states@).no_duplicates(),
{
    let mut states: Vec<State> = Vec::new();
    let chips: usize = 3 * players.len();
    let mut num_chips: usize = 1;
    assert(state_views(states@) =~= states_upto(players@, 0));
    while num_chips <= chips
        invariant
            players@.len() >= 1,
            chips == 3 * players@.len(),
            chips <= u8::MAX,
            1 <= num_chips <= chips + 1,
            state_views(states@) == states_upto(players@, (num_chips - 1) as nat),
        decreases chips + 1 - num_chips,
    {
        let permuts = permute(players, num_chips as u8);
        let ghost fewer = states_upto(players@, (num_chips - 1) as nat);
        let ghost layouts = partitions(players@, num_chips as nat);
        let mut next: usize = 0;
        while next < permuts.len()
            invariant
                next <= permuts.len(),
                layout_views(permuts@) == layouts,
                state_views(states@) == fewer + states_of(players@, layouts.take(next as int)),
            decreases permuts.len() - next,
        {
            let ghost dealt = fewer + states_of(players@, layouts.take(next as int));
            let ghost layout = layouts[next as int];
            assert(layout == permuts@[next as int]@) by {
                assert(layout_views(permuts@)[next as int] == permuts@[next as int]@);
            }
            let mut seat: usize = 0;
            while seat < players.len()
                invariant
                    seat <= players@.len(),
                    next < permuts.len(),
                    layout == permuts@[next as int]@,
                    state_views(states@) == dealt + with_turns(players@, layout).take(seat as int),
                decreases players@.len() - seat,
            {
                let assigns = permuts[next].clone();
                assert(assigns@ =~= layout);
                let ghost before = states@;
                states.push(State { turn: players[seat], assigns });
                assert(state_views(states@) =~= dealt + with_turns(players@, layout).take(
                    seat + 1,
                )) by {
                    assert(state_views(states@) =~= state_views(before).push(
                        StateView { turn: players@[seat as int], assigns: layout },
                    ));
                    assert(with_turns(players@, layout).take(seat + 1) =~= with_turns(
                        players@,
                        layout,
                    ).take(seat as int).push(
                        StateView { turn: players@[seat as int], assigns: layout },
                    ));
                }
                seat += 1;
            }
            assert(state_views(states@) == fewer + states_of(
                players@,
                layouts.take(next + 1),
            )) by {
                assert(with_turns(players@, layout).take(seat as int) =~= with_turns(
                    players@,
                    layout,
                ));
                assert(layouts.take(next + 1).drop_last() =~= layouts.take(next as int));
                assert(layouts.take(next + 1).last() == layout);
                assert(fewer + states_of(players@, layouts.take(next + 1)) =~= dealt + with_turns(
                    players@,
                    layout,
                ));
            }
            next += 1;
        }
        assert(layouts.take(next as int) =~= layouts);
        num_chips += 1;
    }
    proof {
        lemma_all_states_len(players@);
        if players@.no_duplicates() {
            lemma_all_states_distinct(players@);
        }
    }
    states
}

} // verus!
