//! Laws of the transition chance: which transitions have none, and that the
//! chances of all the ways the dice can fall add up to one.

use vstd::prelude::*;
use vstd::arithmetic::div_mod::{lemma_mod_self_0, lemma_small_mod};
use vstd::arithmetic::power::{lemma_pow0, pow};
use crate::markov::{
    bystanders_unchanged, chip_delta, chips_lost, dice_rolled, gain_left, gain_right, left_of,
    lemma_roll_between, lemma_roll_chance, right_of, roll_between, transition_chance,
    within_reach, Roll, MAX_CHIP_DELTA,
};
use crate::markov::seated_players;
use crate::probability::{Ratio, DIE_FACES, DOT_FACES};
use crate::state::{chips_in_play, is_position, Assign, StateView};

verus! {

/// Whatever the positions, the chance of a transition lies between zero and
/// one.
pub proof fn lemma_chance_bounded(before: StateView, after: StateView, players: u8)
    requires
        players > 0,
    ensures
        transition_chance(before, after, players).is_chance(),
{
    match roll_between(before, after, players) {
        Some(roll) => {
            lemma_roll_chance(roll);
        },
        None => {},
    }
}

/// Where the turn does not pass to the seat on the right, the chance is zero,
/// whatever the seats hold.
pub proof fn lemma_turn_must_pass(before: StateView, after: StateView, players: u8)
    requires
        after.turn != right_of(before.turn, players),
    ensures
        transition_chance(before, after, players).is_zero(),
{
}

/// Where the two positions do not have the same number of seats, the chance
/// is zero.
pub proof fn lemma_seats_must_match(before: StateView, after: StateView, players: u8)
    requires
        after.assigns.len() != before.assigns.len(),
    ensures
        transition_chance(before, after, players).is_zero(),
{
}

/// Where four seats hold something else than before, the chance is zero.
pub proof fn lemma_four_changes(
    before: StateView,
    after: StateView,
    players: u8,
    first: int,
    second: int,
    third: int,
    fourth: int,
)
    requires
        0 <= first < second < third < fourth < before.assigns.len(),
        before.assigns[first].chips != after.assigns[first].chips,
        before.assigns[second].chips != after.assigns[second].chips,
        before.assigns[third].chips != after.assigns[third].chips,
        before.assigns[fourth].chips != after.assigns[fourth].chips,
    ensures
        transition_chance(before, after, players).is_zero(),
{
    if bystanders_unchanged(before, after, players) && after.assigns.len()
        == before.assigns.len() {
        assert(chip_delta(before.assigns, after.assigns, first) != 0);
        assert(chip_delta(before.assigns, after.assigns, second) != 0);
        assert(chip_delta(before.assigns, after.assigns, third) != 0);
        assert(chip_delta(before.assigns, after.assigns, fourth) != 0);
        assert(within_reach(first, before.turn, players));
        assert(within_reach(second, before.turn, players));
        assert(within_reach(third, before.turn, players));
        assert(within_reach(fourth, before.turn, players));
    }
}

/// Where a seat gained or lost more than three chips, the chance is zero.
pub proof fn lemma_change_over_limit(before: StateView, after: StateView, players: u8, seat: int)
    requires
        players > 0,
        0 <= seat < before.assigns.len(),
        chip_delta(before.assigns, after.assigns, seat) > MAX_CHIP_DELTA || chip_delta(
            before.assigns,
            after.assigns,
            seat,
        ) < -MAX_CHIP_DELTA,
    ensures
        transition_chance(before, after, players).is_zero(),
{
}

/// Where the seats together hold more than before, the chance is zero: a
/// roll moves chips and takes some away, and brings none.
pub proof fn lemma_no_chip_appears(before: StateView, after: StateView, players: u8)
    requires
        players > 0,
        chips_in_play(after.assigns) > chips_in_play(before.assigns),
    ensures
        transition_chance(before, after, players).is_zero(),
{
    if roll_between(before, after, players) is Some {
        lemma_chips_conserved(before, after, players);
    }
}

/// `before` is a position at a table of `players`, at least two of them: a
/// seat for each player, and the turn of one of them.
pub open spec fn at_table(before: StateView, players: u8) -> bool {
    &&& players >= 2
    &&& before.assigns.len() == players
    &&& before.turn < players
}

/// No seat overflows when it gains as many chips as the roller has dice.
pub open spec fn has_room(before: StateView) -> bool {
    forall|seat: int|
        0 <= seat < before.assigns.len() && seat != before.turn ==> (
        #[trigger] before.assigns[seat]).chips + dice_rolled(before) <= u8::MAX
}

/// What `seat` holds once the roller has passed `left` chips to the left,
/// `right` chips to the right and `center` chips to the center.
pub open spec fn chips_after(
    before: StateView,
    players: u8,
    left: nat,
    right: nat,
    center: nat,
    seat: int,
) -> int {
    before.assigns[seat].chips + (if seat == left_of(before.turn, players) {
        left as int
    } else {
        0
    }) + (if seat == right_of(before.turn, players) {
        right as int
    } else {
        0
    }) - (if seat == before.turn {
        left + right + center
    } else {
        0
    })
}

/// The position that follows `before` when the roller's dice send `left`
/// chips to the left, `right` to the right and `center` to the center.
pub open spec fn after_roll(
    before: StateView,
    players: u8,
    left: nat,
    right: nat,
    center: nat,
) -> StateView {
    StateView {
        turn: right_of(before.turn, players) as u8,
        assigns: Seq::new(
            before.assigns.len(),
            |seat: int|
                Assign {
                    player: before.assigns[seat].player,
                    chips: chips_after(before, players, left, right, center, seat) as u8,
                },
        ),
    }
}

/// At a table of two or more, the position that a roll leads to has the
/// chance of that roll: three to the number of its dots, over six to the
/// number of dice.
pub proof fn lemma_roll_is_found(
    before: StateView,
    players: u8,
    left: nat,
    right: nat,
    center: nat,
    dots: nat,
)
    requires
        at_table(before, players),
        has_room(before),
        left + right + center + dots == dice_rolled(before),
    ensures
        transition_chance(before, after_roll(before, players, left, right, center), players) == (
        Ratio {
            numer: pow(DOT_FACES as int, dots),
            denom: pow(DIE_FACES as int, dice_rolled(before) as nat),
        }),
{
    let after = after_roll(before, players, left, right, center);
    let turn = before.turn as int;
    let to_right = right_of(before.turn, players);
    let to_left = left_of(before.turn, players);
    assert(to_right != turn && 0 <= to_right < players) by {
        if turn + 1 < players {
            lemma_small_mod((turn + 1) as nat, players as nat);
        } else {
            lemma_mod_self_0(players as int);
        }
    }
    assert(to_left != turn && 0 <= to_left < players);
    assert(before.assigns[to_right].chips + dice_rolled(before) <= u8::MAX);
    assert(before.assigns[to_left].chips + dice_rolled(before) <= u8::MAX);
    assert forall|seat: int| 0 <= seat < before.assigns.len() implies #[trigger] chip_delta(
        before.assigns,
        after.assigns,
        seat,
    ) == chips_after(before, players, left, right, center, seat)
        - before.assigns[seat].chips by {
        assert(0 <= chips_after(before, players, left, right, center, seat) <= u8::MAX);
    }
    assert(chip_delta(before.assigns, after.assigns, turn) == -(left + right + center));
    assert(chip_delta(before.assigns, after.assigns, to_right) == right + (if to_left
        == to_right {
        left as int
    } else {
        0
    }));
    assert(chip_delta(before.assigns, after.assigns, to_left) == left + (if to_left == to_right {
        right as int
    } else {
        0
    }));
    assert(bystanders_unchanged(before, after, players));
    lemma_roll_between(before, after, players);
    let roll = roll_between(before, after, players).unwrap();
    assert(roll.dots == dots);
    lemma_roll_chance(roll);
}

/// The numerators of the chances of the positions that follow `before`,
/// added over every way in which `more` dice can fall after dice that sent
/// `left`, `right` and `center` chips away: each die sends a chip to the
/// left, to the right or to the center, or shows a dot.
pub open spec fn row_weight(
    before: StateView,
    players: u8,
    left: nat,
    right: nat,
    center: nat,
    more: nat,
) -> int
    decreases more,
{
    if more == 0 {
        transition_chance(before, after_roll(before, players, left, right, center), players).numer
    } else {
        let fewer = (more - 1) as nat;
        row_weight(before, players, left + 1, right, center, fewer) + row_weight(
            before,
            players,
            left,
            right + 1,
            center,
            fewer,
        ) + row_weight(before, players, left, right, center + 1, fewer) + row_weight(
            before,
            players,
            left,
            right,
            center,
            fewer,
        )
    }
}

/// Once some dice have fallen, the ways in which the others can fall weigh
/// together six for each of them and three for each dot shown so far.
pub proof fn lemma_row_weight(
    before: StateView,
    players: u8,
    left: nat,
    right: nat,
    center: nat,
    dots: nat,
    more: nat,
)
    requires
        at_table(before, players),
        has_room(before),
        left + right + center + dots + more == dice_rolled(before),
    ensures
        row_weight(before, players, left, right, center, more) == pow(DOT_FACES as int, dots)
            * pow(DIE_FACES as int, more),
    decreases more,
{
    reveal(pow);
    if more == 0 {
        lemma_roll_is_found(before, players, left, right, center, dots);
        lemma_pow0(DIE_FACES as int);
    } else {
        let fewer = (more - 1) as nat;
        lemma_row_weight(before, players, left + 1, right, center, dots, fewer);
        lemma_row_weight(before, players, left, right + 1, center, dots, fewer);
        lemma_row_weight(before, players, left, right, center + 1, dots, fewer);
        lemma_row_weight(before, players, left, right, center, dots + 1, fewer);
        let shown = pow(DOT_FACES as int, dots);
        let rest = pow(DIE_FACES as int, fewer);
        assert(pow(DOT_FACES as int, dots + 1) == 3 * shown);
        assert(pow(DIE_FACES as int, more) == 6 * rest);
        assert(shown * rest + shown * rest + shown * rest + (3 * shown) * rest == shown * (6
            * rest)) by (nonlinear_arith);
    }
}

/// At a table of two or more, the chances of the positions that follow a
/// position, taken over every way in which the roller's dice can fall, add up
/// to one: each of them is a number of parts of six to the number of dice
/// ([`lemma_roll_is_found`]), and the parts are as many together.
pub proof fn lemma_row_sums_to_one(before: StateView, players: u8)
    requires
        at_table(before, players),
        has_room(before),
    ensures
        row_weight(before, players, 0, 0, 0, dice_rolled(before) as nat) == pow(
            DIE_FACES as int,
            dice_rolled(before) as nat,
        ),
{
    lemma_row_weight(before, players, 0, 0, 0, 0, dice_rolled(before) as nat);
    lemma_pow0(DOT_FACES as int);
}

/// A position from which the roller has no chip to roll for leads to itself
/// with the turn passed on, and that with certainty.
pub proof fn lemma_no_dice(before: StateView, after: StateView, players: u8)
    requires
        players > 0,
        before.turn < before.assigns.len(),
        before.assigns[before.turn as int].chips == 0,
    ensures
        roll_between(before, after, players) is Some <==> {
            &&& after.turn == right_of(before.turn, players)
            &&& after.assigns.len() == before.assigns.len()
            &&& forall|seat: int|
                0 <= seat < before.assigns.len() ==> (#[trigger] after.assigns[seat]).chips
                    == before.assigns[seat].chips
        },
        roll_between(before, after, players) is Some ==> transition_chance(before, after, players)
            == (Ratio { numer: 1, denom: 1 }),
{
    if roll_between(before, after, players) is Some {
        lemma_roll_between(before, after, players);
        let roll = roll_between(before, after, players).unwrap();
        lemma_roll_chance(roll);
        lemma_pow0(DOT_FACES as int);
        lemma_pow0(DIE_FACES as int);
        assert(roll.dice() == 0);
        assert forall|seat: int| 0 <= seat < before.assigns.len() implies (
        #[trigger] after.assigns[seat]).chips == before.assigns[seat].chips by {
            if !within_reach(seat, before.turn, players) {
                assert(chip_delta(before.assigns, after.assigns, seat) == 0);
            }
        }
    }
    if after.turn == right_of(before.turn, players) && after.assigns.len()
        == before.assigns.len() && (forall|seat: int|
        0 <= seat < before.assigns.len() ==> (#[trigger] after.assigns[seat]).chips
            == before.assigns[seat].chips) {
        assert forall|seat: int| 0 <= seat < before.assigns.len() implies #[trigger] chip_delta(
            before.assigns,
            after.assigns,
            seat,
        ) == 0 by {
            assert(after.assigns[seat].chips == before.assigns[seat].chips);
        }
    }
}

/// The roll between two positions accounts for every seat: the second
/// position holds in each seat what the first held, with the chips that the
/// roll moved.
pub proof fn lemma_roll_explains(before: StateView, after: StateView, players: u8, seat: int)
    requires
        players > 0,
        roll_between(before, after, players) is Some,
        0 <= seat < before.assigns.len(),
    ensures
        after.turn == right_of(before.turn, players),
        after.assigns[seat].chips == chips_after(
            before,
            players,
            roll_between(before, after, players).unwrap().left as nat,
            roll_between(before, after, players).unwrap().right as nat,
            roll_between(before, after, players).unwrap().center as nat,
            seat,
        ),
{
    lemma_roll_between(before, after, players);
    if !within_reach(seat, before.turn, players) {
        assert(chip_delta(before.assigns, after.assigns, seat) == 0);
    }
}

/// From seat `from` on, the seats hold together what they held, with what
/// the roll moved to and from those among them that it reaches.
proof fn lemma_chips_from(before: StateView, after: StateView, players: u8, from: int)
    requires
        players > 0,
        roll_between(before, after, players) is Some,
        0 <= from <= before.assigns.len(),
    ensures
        chips_in_play(after.assigns.skip(from)) - chips_in_play(before.assigns.skip(from)) == (
        if before.turn >= from {
            -chips_lost(before, after)
        } else {
            0
        }) + (if right_of(before.turn, players) >= from {
            gain_right(before, after, players)
        } else {
            0
        }) + (if left_of(before.turn, players) >= from {
            gain_left(before, after, players)
        } else {
            0
        }),
    decreases before.assigns.len() - from,
{
    if from < before.assigns.len() {
        lemma_chips_from(before, after, players, from + 1);
        assert(before.assigns.skip(from).skip(1) =~= before.assigns.skip(from + 1));
        assert(after.assigns.skip(from).skip(1) =~= after.assigns.skip(from + 1));
        assert(before.assigns.skip(from)[0] == before.assigns[from]);
        assert(after.assigns.skip(from)[0] == after.assigns[from]);
        if !within_reach(from, before.turn, players) {
            assert(chip_delta(before.assigns, after.assigns, from) == 0);
        }
    }
}

/// A roll takes from the table the chips that it sends to the center, and
/// no others: what the seats hold together, with what went to the center, is
/// what they held.
pub proof fn lemma_chips_conserved(before: StateView, after: StateView, players: u8)
    requires
        players > 0,
        roll_between(before, after, players) is Some,
    ensures
        chips_in_play(after.assigns) + roll_between(before, after, players).unwrap().center
            == chips_in_play(before.assigns),
{
    lemma_chips_from(before, after, players, 0);
    lemma_roll_between(before, after, players);
    assert(before.assigns.skip(0) =~= before.assigns);
    assert(after.assigns.skip(0) =~= after.assigns);
}

/// A seat holds no more than all the seats together.
pub proof fn lemma_one_seat(assigns: Seq<Assign>, seat: int)
    requires
        0 <= seat < assigns.len(),
    ensures
        assigns[seat].chips <= chips_in_play(assigns),
    decreases assigns.len(),
{
    if seat > 0 {
        lemma_one_seat(assigns.skip(1), seat - 1);
    }
}

/// Two seats hold no more than all the seats together.
pub proof fn lemma_two_seats(assigns: Seq<Assign>, first: int, second: int)
    requires
        0 <= first < second < assigns.len(),
    ensures
        assigns[first].chips + assigns[second].chips <= chips_in_play(assigns),
    decreases assigns.len(),
{
    if first > 0 {
        lemma_two_seats(assigns.skip(1), first - 1, second - 1);
    } else {
        lemma_one_seat(assigns.skip(1), second - 1);
    }
}

/// The positions of a game whose players are numbered by their seats are
/// positions at the table, with room for what a roll can bring to a seat.
pub proof fn lemma_positions_at_table(players: u8, state: StateView)
    requires
        players >= 2,
        3 * players <= u8::MAX,
        is_position(seated_players(players), state),
    ensures
        at_table(state, players),
        has_room(state),
{
    let ids = seated_players(players);
    let turn = choose|seat: int| 0 <= seat < ids.len() && ids[seat] == state.turn;
    assert(state.turn == turn);
    assert forall|seat: int|
        0 <= seat < state.assigns.len() && seat != state.turn implies (
    #[trigger] state.assigns[seat]).chips + dice_rolled(state) <= u8::MAX by {
        if seat < state.turn {
            lemma_two_seats(state.assigns, seat, state.turn as int);
        } else {
            lemma_two_seats(state.assigns, state.turn as int, seat);
        }
    }
}

} // verus!
