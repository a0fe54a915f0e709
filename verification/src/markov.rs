//! The chance that one roll of the dice turns one position into another.

use vstd::prelude::*;
use vstd::arithmetic::power::{lemma1_pow, lemma_pow_adds, lemma_pow_positive, pow};
use crate::probability::{
    center_prob, dot_prob, face_chance, left_prob, lemma_product_fits, right_prob, Probability,
    Ratio, CENTER_FACES,
    DIE_FACES, DOT_FACES, LEFT_FACES, RIGHT_FACES,
};
use crate::counting::state_count;
use crate::matrix::{table_rows, Markov};
use crate::state::{all_states, create_states, state_views, Assign, State, StateView};

verus! {

/// No seat gains or loses more chips than this in one roll.
pub const MAX_CHIP_DELTA: u8 = 3;

/// No more seats than this change in one roll.
pub const MAX_PLAYER_DELTA: u8 = 3;

/// No player rolls more dice than this.
pub const MAX_DICE: u8 = 3;

/// What the dice of one roll showed: how many of them sent a chip to the
/// left, to the right and to the center, and how many showed a dot.
#[derive(Debug, Clone, Copy, PartialEq, Eq, Structural)]
pub struct Roll {
    pub left: u8,
    pub right: u8,
    pub center: u8,
    pub dots: u8,
}

impl Roll {
    /// The number of dice rolled.
    pub open spec fn dice(self) -> nat {
        (self.left + self.right + self.center + self.dots) as nat
    }

    /// No more dice were rolled than a player may roll.
    pub open spec fn wf(self) -> bool {
        self.dice() <= MAX_DICE
    }

    /// The chance that the dice fall this way, one after the other: the
    /// product of the chances of the single dice.
    pub open spec fn chance(self) -> Ratio {
        face_chance(LEFT_FACES).powi(self.left as nat).times(
            face_chance(RIGHT_FACES).powi(self.right as nat),
        ).times(face_chance(CENTER_FACES).powi(self.center as nat)).times(
            face_chance(DOT_FACES).powi(self.dots as nat),
        )
    }

    /// The chance that the dice fall this way, one after the other.
    pub fn probability(&self) -> (p: Probability)
        requires
            self.wf(),
        ensures
            p@ == self.chance(),
            p.wf(),
    {
        proof {
            lemma_small_powers(self.left as nat);
            lemma_small_powers(self.right as nat);
            lemma_small_powers(self.center as nat);
            lemma_small_powers(self.dots as nat);
        }
        let left = left_prob().powi(self.left as u32);
        let right = right_prob().powi(self.right as u32);
        let center = center_prob().powi(self.center as u32);
        let dots = dot_prob().powi(self.dots as u32);
        proof {
            lemma_small_products(
                left.denom as int,
                right.denom as int,
                center.denom as int,
                dots.denom as int,
            );
        }
        left.times(&right).times(&center).times(&dots)
    }
}

/// Up to three dice have at most 216 ways to fall.
proof fn lemma_small_powers(exp: nat)
    requires
        exp <= MAX_DICE,
    ensures
        1 <= pow(DIE_FACES as int, exp) <= 216,
{
    reveal_with_fuel(pow, 4);
}

/// Products of up to four numbers up to 216 stay small.
proof fn lemma_small_products(a: int, b: int, c: int, d: int)
    requires
        1 <= a <= 216,
        1 <= b <= 216,
        1 <= c <= 216,
        1 <= d <= 216,
    ensures
        1 <= a * b <= 46656,
        1 <= a * b * c <= 10077696,
        1 <= a * b * c * d <= 2176782336,
{
    assert(1 <= a * b <= 46656) by (nonlinear_arith)
        requires
            1 <= a <= 216,
            1 <= b <= 216,
    ;
    assert(1 <= a * b * c <= 10077696) by (nonlinear_arith)
        requires
            1 <= a * b <= 46656,
            1 <= c <= 216,
    ;
    assert(1 <= a * b * c * d <= 2176782336) by (nonlinear_arith)
        requires
            1 <= a * b * c <= 10077696,
            1 <= d <= 216,
    ;
}

/// Three to a power is at most six to that power.
pub proof fn lemma_dots_among_faces(exp: nat)
    ensures
        0 < pow(DOT_FACES as int, exp) <= pow(DIE_FACES as int, exp),
    decreases exp,
{
    reveal(pow);
    if exp > 0 {
        lemma_dots_among_faces((exp - 1) as nat);
        let dots = pow(DOT_FACES as int, (exp - 1) as nat);
        let faces = pow(DIE_FACES as int, (exp - 1) as nat);
        assert(0 < 3 * dots <= 6 * faces);
    }
}

/// The chance of a roll is three to the number of its dots, over six to the
/// number of its dice: of all the ways the dice can fall, one for each
/// choice of a dotted face on the dice that showed a dot.
pub proof fn lemma_roll_chance(roll: Roll)
    ensures
        roll.chance() == (Ratio {
            numer: pow(DOT_FACES as int, roll.dots as nat),
            denom: pow(DIE_FACES as int, roll.dice()),
        }),
        roll.chance().is_chance(),
{
    let l = roll.left as nat;
    let r = roll.right as nat;
    let c = roll.center as nat;
    let d = roll.dots as nat;
    lemma1_pow(l);
    lemma1_pow(r);
    lemma1_pow(c);
    lemma_pow_adds(6, l, r);
    lemma_pow_adds(6, l + r, c);
    lemma_pow_adds(6, l + r + c, d);
    lemma_dots_among_faces(d);
    lemma_pow_positive(6, l + r + c);
    let sides = face_chance(LEFT_FACES).powi(l).times(face_chance(RIGHT_FACES).powi(r));
    assert(sides == Ratio { numer: 1, denom: pow(6, l + r) });
    let moved = sides.times(face_chance(CENTER_FACES).powi(c));
    assert(moved == Ratio { numer: 1, denom: pow(6, l + r + c) });
    let all = moved.times(face_chance(DOT_FACES).powi(d));
    assert(all.numer == pow(3, d)) by (nonlinear_arith)
        requires
            all.numer == moved.numer * pow(3, d),
            moved.numer == 1,
    ;
    assert(all.denom == pow(6, l + r + c + d));
    assert(roll.dice() == l + r + c + d);
    assert(pow(6, d) <= pow(6, l + r + c) * pow(6, d)) by (nonlinear_arith)
        requires
            0 < pow(6, l + r + c),
            0 < pow(6, d),
    ;
}

/// The seat to the right of `turn` at a table of `players`: the next seat,
/// and the first one after the last.
pub open spec fn right_of(turn: u8, players: u8) -> int {
    (turn as int + 1) % (players as int)
}

/// The seat to the left of `turn` at a table of `players`: the seat before
/// it, and the last one before the first.
pub open spec fn left_of(turn: u8, players: u8) -> int {
    if turn == 0 {
        players as int - 1
    } else {
        turn as int - 1
    }
}

/// The chips that `seat` holds after, less those it held before.
pub open spec fn chip_delta(before: Seq<Assign>, after: Seq<Assign>, seat: int) -> int {
    after[seat].chips as int - before[seat].chips as int
}

/// The dice that the player whose turn it is rolls: one for each chip held,
/// and no more than three.
pub open spec fn dice_rolled(before: StateView) -> int {
    let held = before.assigns[before.turn as int].chips as int;
    if held < MAX_DICE {
        held
    } else {
        MAX_DICE as int
    }
}

/// The chips that the roller lost.
pub open spec fn chips_lost(before: StateView, after: StateView) -> int {
    -chip_delta(before.assigns, after.assigns, before.turn as int)
}

/// The chips that the seat to the right of the roller gained; none where the
/// roller sits alone.
pub open spec fn gain_right(before: StateView, after: StateView, players: u8) -> int {
    let seat = right_of(before.turn, players);
    if seat != before.turn && seat < before.assigns.len() {
        chip_delta(before.assigns, after.assigns, seat)
    } else {
        0
    }
}

/// The chips that the seat to the left of the roller gained; none where that
/// seat is the roller's own or the one to the right.
pub open spec fn gain_left(before: StateView, after: StateView, players: u8) -> int {
    let seat = left_of(before.turn, players);
    if seat != before.turn && seat != right_of(before.turn, players) && 0 <= seat
        < before.assigns.len() {
        chip_delta(before.assigns, after.assigns, seat)
    } else {
        0
    }
}

/// `seat` is the roller's or one beside it: a seat that the roller's chips
/// can leave or reach.
pub open spec fn within_reach(seat: int, turn: u8, players: u8) -> bool {
    seat == turn || seat == right_of(turn, players) || seat == left_of(turn, players)
}

/// Every seat but the roller's and the two beside it holds what it held.
pub open spec fn bystanders_unchanged(before: StateView, after: StateView, players: u8) -> bool {
    forall|seat: int|
        0 <= seat < before.assigns.len() && !within_reach(seat, before.turn, players)
            ==> #[trigger] chip_delta(before.assigns, after.assigns, seat) == 0
}

/// The roll that turns `before` into `after` at a table of `players`, if
/// there is one.
///
/// The turn passes to the right. The roller rolls [`dice_rolled`] dice; the
/// seats to the left and to the right gain a chip for each die that sent one
/// there, the roller loses these and one more for each die that sent a chip
/// to the center, and the remaining dice showed dots. No other seat changes.
pub open spec fn roll_between(before: StateView, after: StateView, players: u8) -> Option<Roll> {
    if after.turn != right_of(before.turn, players) || after.assigns.len()
        != before.assigns.len() || before.turn >= before.assigns.len() {
        None
    } else {
        let left = gain_left(before, after, players);
        let right = gain_right(before, after, players);
        let center = chips_lost(before, after) - left - right;
        let dots = dice_rolled(before) - chips_lost(before, after);
        if bystanders_unchanged(before, after, players) && left >= 0 && right >= 0 && center >= 0
            && dots >= 0 {
            Some(Roll { left: left as u8, right: right as u8, center: center as u8, dots: dots as u8 })
        } else {
            None
        }
    }
}

/// The chance that one roll turns `before` into `after`: that of the roll
/// between them, and zero where there is none.
pub open spec fn transition_chance(before: StateView, after: StateView, players: u8) -> Ratio {
    match roll_between(before, after, players) {
        Some(roll) => roll.chance(),
        None => Ratio { numer: 0, denom: 1 },
    }
}

/// One seat's gain or loss between two positions.
#[derive(Debug, Clone, Copy)]
struct Change {
    player: usize,
    chips: i16,
}

/// `change` records what its seat gained or lost, which is neither nothing
/// nor more than three chips.
spec fn faithful(change: Change, before: Seq<Assign>, after: Seq<Assign>) -> bool {
    &&& change.player < before.len()
    &&& change.chips == chip_delta(before, after, change.player as int)
    &&& change.chips != 0
    &&& -MAX_CHIP_DELTA <= change.chips <= MAX_CHIP_DELTA
}

/// `changes` has a record for `seat`.
spec fn records(changes: Seq<Change>, seat: int) -> bool {
    exists|k: int| 0 <= k < changes.len() && (#[trigger] changes[k]).player == seat
}

/// `changes` holds, by rising seat, what each of the first `upto` seats
/// gained or lost, where that is anything.
#[verifier::opaque]
spec fn scanned(changes: Seq<Change>, before: Seq<Assign>, after: Seq<Assign>, upto: int) -> bool {
    &&& changes.len() <= MAX_PLAYER_DELTA
    &&& forall|k: int|
        0 <= k < changes.len() ==> faithful(#[trigger] changes[k], before, after)
            && changes[k].player < upto
    &&& forall|j: int, k: int|
        0 <= j < k < changes.len() ==> (#[trigger] changes[j]).player
            < (#[trigger] changes[k]).player
    &&& forall|seat: int|
        #![trigger chip_delta(before, after, seat)]
        0 <= seat < upto && chip_delta(before, after, seat) != 0 ==> records(changes, seat)
}

/// The chips that the seats of `changes` gained, less those they lost.
spec fn net_of(changes: Seq<Change>) -> int
    decreases changes.len(),
{
    if changes.len() == 0 {
        0
    } else {
        net_of(changes.drop_last()) + changes.last().chips
    }
}

/// The record of `changes` for `seat`, if there is one.
spec fn change_at(changes: Seq<Change>, seat: int) -> Option<Change>
    decreases changes.len(),
{
    if changes.len() == 0 {
        None
    } else if changes.last().player == seat {
        Some(changes.last())
    } else {
        change_at(changes.drop_last(), seat)
    }
}

/// Both positions have the same seats, the roller's among them, and the turn
/// passes to the right.
spec fn comparable(before: StateView, after: StateView, players: u8) -> bool {
    &&& players > 0
    &&& after.turn == right_of(before.turn, players)
    &&& after.assigns.len() == before.assigns.len()
    &&& before.turn < before.assigns.len()
}

/// Where four seats changed, no roll did it: a roll reaches three seats.
proof fn lemma_fourth_change(
    before: StateView,
    after: StateView,
    players: u8,
    changes: Seq<Change>,
    seat: int,
)
    requires
        comparable(before, after, players),
        scanned(changes, before.assigns, after.assigns, seat),
        changes.len() == MAX_PLAYER_DELTA,
        0 <= seat < before.assigns.len(),
        chip_delta(before.assigns, after.assigns, seat) != 0,
    ensures
        roll_between(before, after, players) is None,
{
    reveal(scanned);
    assert(faithful(changes[0], before.assigns, after.assigns));
    assert(faithful(changes[1], before.assigns, after.assigns));
    assert(faithful(changes[2], before.assigns, after.assigns));
    assert(changes[0].player < changes[1].player < changes[2].player < seat);
}

/// Where a seat gained or lost more than three chips, no roll did it.
proof fn lemma_large_change(before: StateView, after: StateView, players: u8, seat: int)
    requires
        comparable(before, after, players),
        0 <= seat < before.assigns.len(),
        chip_delta(before.assigns, after.assigns, seat) > MAX_CHIP_DELTA || chip_delta(
            before.assigns,
            after.assigns,
            seat,
        ) < -MAX_CHIP_DELTA,
    ensures
        roll_between(before, after, players) is None,
{
}

/// The record for a seat is one of the records, and it is for that seat.
proof fn lemma_change_at_is_record(changes: Seq<Change>, seat: int)
    ensures
        match change_at(changes, seat) {
            Some(change) => change.player == seat && exists|k: int|
                0 <= k < changes.len() && #[trigger] changes[k] == change,
            None => true,
        },
    decreases changes.len(),
{
    if changes.len() > 0 && changes.last().player != seat {
        lemma_change_at_is_record(changes.drop_last(), seat);
        if change_at(changes, seat) is Some {
            let front = changes.drop_last();
            let k = choose|k: int|
                0 <= k < front.len() && #[trigger] front[k] == change_at(changes, seat).unwrap();
            assert(changes[k] == front[k]);
        }
    } else if changes.len() > 0 {
        assert(changes[changes.len() - 1] == changes.last());
    }
}

/// What `changes` records for `seat` is what the seat gained or lost.
proof fn lemma_change_at(changes: Seq<Change>, before: Seq<Assign>, after: Seq<Assign>, seat: int)
    requires
        before.len() == after.len(),
        scanned(changes, before, after, before.len() as int),
    ensures
        match change_at(changes, seat) {
            Some(change) => change.player == seat && 0 <= seat < before.len() && change.chips
                == chip_delta(before, after, seat) && change.chips != 0,
            None => 0 <= seat < before.len() ==> chip_delta(before, after, seat) == 0,
        },
{
    reveal(scanned);
    reveal_with_fuel(change_at, 4);
    if changes.len() > 0 {
        assert(faithful(changes[0], before, after));
    }
    if changes.len() > 1 {
        assert(faithful(changes[1], before, after));
        assert(changes.drop_last()[0] == changes[0]);
    }
    if changes.len() > 2 {
        assert(faithful(changes[2], before, after));
        assert(changes.drop_last()[1] == changes[1]);
        assert(changes.drop_last().drop_last()[0] == changes[0]);
    }
}

/// Where a roll turns one position into the other, the seats gained together
/// what went to the center, taken negatively.
proof fn lemma_net_movement(before: StateView, after: StateView, players: u8, changes: Seq<Change>)
    requires
        comparable(before, after, players),
        scanned(changes, before.assigns, after.assigns, before.assigns.len() as int),
        bystanders_unchanged(before, after, players),
    ensures
        net_of(changes) == gain_left(before, after, players) + gain_right(before, after, players)
            - chips_lost(before, after),
{
    reveal(scanned);
    reveal_with_fuel(net_of, 4);
    let turn = before.turn as int;
    let right = right_of(before.turn, players);
    let left = left_of(before.turn, players);
    lemma_change_at(changes, before.assigns, after.assigns, turn);
    lemma_change_at(changes, before.assigns, after.assigns, right);
    lemma_change_at(changes, before.assigns, after.assigns, left);
    reveal_with_fuel(change_at, 4);
    if changes.len() > 0 {
        assert(faithful(changes[0], before.assigns, after.assigns));
    }
    if changes.len() > 1 {
        assert(faithful(changes[1], before.assigns, after.assigns));
        assert(changes.drop_last()[0] == changes[0]);
    }
    if changes.len() > 2 {
        assert(faithful(changes[2], before.assigns, after.assigns));
        assert(changes.drop_last()[1] == changes[1]);
        assert(changes.drop_last().drop_last()[0] == changes[0]);
    }
}

/// Where the roller's seat holds what it held and another seat does not, no
/// roll did it: only the roller's chips move.
proof fn lemma_roller_unchanged(before: StateView, after: StateView, players: u8, seat: int)
    requires
        comparable(before, after, players),
        chips_lost(before, after) == 0,
        0 <= seat < before.assigns.len(),
        chip_delta(before.assigns, after.assigns, seat) != 0,
    ensures
        roll_between(before, after, players) is None,
{
}

/// Where every record is for the roller's seat or one beside it, the other
/// seats hold what they held.
proof fn lemma_bystanders(before: StateView, after: StateView, players: u8, changes: Seq<Change>)
    requires
        comparable(before, after, players),
        scanned(changes, before.assigns, after.assigns, before.assigns.len() as int),
        forall|k: int|
            0 <= k < changes.len() ==> within_reach((#[trigger] changes[k]).player as int, before.turn, players),
    ensures
        bystanders_unchanged(before, after, players),
{
    reveal(scanned);
    assert forall|seat: int|
        0 <= seat < before.assigns.len() && !within_reach(
            seat,
            before.turn,
            players,
        ) implies #[trigger] chip_delta(before.assigns, after.assigns, seat) == 0 by {
        if chip_delta(before.assigns, after.assigns, seat) != 0 {
            assert(records(changes, seat));
        }
    }
}

/// The roller's own change and those of the seats beside the roller.
struct Reached {
    player_change: Option<Change>,
    right_change: Option<Change>,
    left_change: Option<Change>,
}

/// There are at most three records, none of more than three chips.
spec fn bounded(changes: Seq<Change>) -> bool {
    &&& changes.len() <= MAX_PLAYER_DELTA
    &&& forall|k: int|
        0 <= k < changes.len() ==> -MAX_CHIP_DELTA <= (#[trigger] changes[k]).chips
            <= MAX_CHIP_DELTA
}

/// Every record is for the roller's seat or one beside it.
spec fn all_reached(changes: Seq<Change>, turn: int, right: int, left: int) -> bool {
    forall|k: int|
        0 <= k < changes.len() ==> (#[trigger] changes[k]).player == turn || changes[k].player
            == right || changes[k].player == left
}

/// What `changes` records for `seat`, and nothing where it has no record.
spec fn chips_at(changes: Seq<Change>, seat: int) -> int {
    match change_at(changes, seat) {
        Some(change) => change.chips as int,
        None => 0,
    }
}

/// The roll that `changes` amount to for a roller at `turn` with `dice` dice,
/// between the seats `left` and `right`, if they amount to one.
spec fn roll_of_changes(changes: Seq<Change>, turn: int, right: int, left: int, dice: int) -> Option<
    Roll,
> {
    if net_of(changes) > MAX_CHIP_DELTA {
        None
    } else if changes.len() == 0 {
        Some(Roll { left: 0, right: 0, center: 0, dots: dice as u8 })
    } else if changes.len() == 1 {
        let lost = -changes[0].chips;
        if changes[0].player != turn || lost > MAX_DICE || lost < 0 || dice - lost < 0 {
            None
        } else {
            Some(Roll { left: 0, right: 0, center: lost as u8, dots: (dice - lost) as u8 })
        }
    } else if !all_reached(changes, turn, right, left) || change_at(changes, turn) is None {
        None
    } else {
        let lost = -chips_at(changes, turn);
        let num_left = if left != turn && left != right {
            chips_at(changes, left)
        } else {
            0
        };
        let num_right = if right != turn {
            chips_at(changes, right)
        } else {
            0
        };
        let num_center = lost - (num_left + num_right);
        let num_dots = dice - (num_left + num_center + num_right);
        if lost < 0 || num_left < 0 || num_right < 0 || num_center < 0 || num_dots < 0 {
            None
        } else {
            Some(
                Roll {
                    left: num_left as u8,
                    right: num_right as u8,
                    center: num_center as u8,
                    dots: num_dots as u8,
                },
            )
        }
    }
}

/// The roll that the records amount to is the roll between the positions.
proof fn lemma_roll_of_changes(
    before: StateView,
    after: StateView,
    players: u8,
    changes: Seq<Change>,
)
    requires
        comparable(before, after, players),
        scanned(changes, before.assigns, after.assigns, before.assigns.len() as int),
    ensures
        roll_of_changes(
            changes,
            before.turn as int,
            right_of(before.turn, players),
            left_of(before.turn, players),
            dice_rolled(before),
        ) == roll_between(before, after, players),
{
    let turn = before.turn as int;
    let right = right_of(before.turn, players);
    let left = left_of(before.turn, players);
    lemma_change_at(changes, before.assigns, after.assigns, turn);
    lemma_change_at(changes, before.assigns, after.assigns, right);
    lemma_change_at(changes, before.assigns, after.assigns, left);
    if bystanders_unchanged(before, after, players) {
        lemma_net_movement(before, after, players, changes);
    }
    if changes.len() >= 1 {
        assert(faithful(changes[0], before.assigns, after.assigns)) by {
            reveal(scanned);
        }
    }
    if changes.len() == 0 {
        lemma_bystanders(before, after, players, changes);
        assert(net_of(changes) == 0);
    } else if changes.len() == 1 {
        reveal_with_fuel(change_at, 2);
        reveal_with_fuel(net_of, 2);
        if changes[0].player != turn {
            lemma_roller_unchanged(before, after, players, changes[0].player as int);
        } else {
            lemma_bystanders(before, after, players, changes);
        }
    } else if !all_reached(changes, turn, right, left) {
        let k = choose|k: int|
            0 <= k < changes.len() && !((#[trigger] changes[k]).player == turn || changes[k].player
                == right || changes[k].player == left);
        assert(faithful(changes[k], before.assigns, after.assigns)) by {
            reveal(scanned);
        }
        assert(!within_reach(changes[k].player as int, before.turn, players));
    } else if change_at(changes, turn) is None {
        lemma_roller_unchanged(before, after, players, changes[0].player as int);
    } else {
        lemma_bystanders(before, after, players, changes);
    }
}

/// What each seat gained or lost between two positions, by rising seat; none
/// where more than three seats changed or one by more than three chips.
fn chip_changes(state1: &State, state2: &State, players: u8) -> (found: Option<Vec<Change>>)
    requires
        comparable(state1@, state2@, players),
    ensures
        match found {
            Some(changes) => bounded(changes@) && scanned(
                changes@,
                state1@.assigns,
                state2@.assigns,
                state1@.assigns.len() as int,
            ),
            None => roll_between(state1@, state2@, players) is None,
        },
{
    let ghost before = state1@;
    let ghost after = state2@;
    let seats = state1.assigns.len();
    let mut changes: Vec<Change> = Vec::with_capacity(MAX_PLAYER_DELTA as usize);
    let mut seat: usize = 0;
    proof {
        reveal(scanned);
    }
    while seat < seats
        invariant
            before == state1@,
            after == state2@,
            comparable(before, after, players),
            seats == before.assigns.len(),
            seat <= seats,
            scanned(changes@, before.assigns, after.assigns, seat as int),
        decreases seats - seat,
    {
        proof {
            reveal(scanned);
        }
        let chips_before = state1.assigns[seat].chips;
        let chips_after = state2.assigns[seat].chips;
        if chips_before != chips_after {
            if changes.len() == MAX_PLAYER_DELTA as usize {
                proof {
                    lemma_fourth_change(before, after, players, changes@, seat as int);
                }
                return None;
            }
            let delta: i16 = chips_after as i16 - chips_before as i16;
            if delta > MAX_CHIP_DELTA as i16 || delta < -(MAX_CHIP_DELTA as i16) {
                proof {
                    lemma_large_change(before, after, players, seat as int);
                }
                return None;
            }
            let ghost earlier = changes@;
            changes.push(Change { player: seat, chips: delta });
            proof {
                assert forall|s: int|
                    #![trigger chip_delta(before.assigns, after.assigns, s)]
                    0 <= s < seat + 1 && chip_delta(before.assigns, after.assigns, s)
                        != 0 implies records(changes@, s) by {
                    if s < seat {
                        assert(records(earlier, s));
                        let k = choose|k: int|
                            0 <= k < earlier.len() && (#[trigger] earlier[k]).player == s;
                        assert(changes@[k].player == s);
                    } else {
                        assert(changes@[earlier.len() as int].player == s);
                    }
                }
            }
        }
        seat += 1;
    }
    proof {
        reveal(scanned);
        assert forall|k: int| 0 <= k < changes@.len() implies -MAX_CHIP_DELTA <= (
        #[trigger] changes@[k]).chips <= MAX_CHIP_DELTA by {
            assert(faithful(changes@[k], before.assigns, after.assigns));
        }
    }
    Some(changes)
}

/// The chips that the seats of `changes` gained, less those they lost.
fn net_movement(changes: &Vec<Change>) -> (net: i16)
    requires
        bounded(changes@),
    ensures
        net == net_of(changes@),
{
    let mut net: i16 = 0;
    let mut next: usize = 0;
    while next < changes.len()
        invariant
            next <= changes@.len() <= 3,
            forall|k: int| 0 <= k < changes@.len() ==> -3 <= (#[trigger] changes@[k]).chips <= 3,
            net == net_of(changes@.take(next as int)),
            -3 * next <= net <= 3 * next,
        decreases changes.len() - next,
    {
        proof {
            assert(changes@.take(next + 1).drop_last() =~= changes@.take(next as int));
        }
        net = net + changes[next].chips;
        next += 1;
    }
    proof {
        assert(changes@.take(next as int) =~= changes@);
    }
    net
}

/// The records of `changes` for the roller's seat and the two beside it;
/// none where a record is for another seat.
fn reached(changes: &Vec<Change>, turn: usize, right: usize, left: usize) -> (found: Option<Reached>)
    ensures
        found is Some <==> all_reached(changes@, turn as int, right as int, left as int),
        match found {
            Some(slots) => {
                &&& slots.player_change == change_at(changes@, turn as int)
                &&& slots.right_change == if right != turn {
                    change_at(changes@, right as int)
                } else {
                    None
                }
                &&& slots.left_change == if left != turn && left != right {
                    change_at(changes@, left as int)
                } else {
                    None
                }
            },
            None => true,
        },
{
    let mut left_change: Option<Change> = None;
    let mut right_change: Option<Change> = None;
    let mut player_change: Option<Change> = None;
    let mut next: usize = 0;
    while next < changes.len()
        invariant
            next <= changes@.len(),
            all_reached(changes@.take(next as int), turn as int, right as int, left as int),
            player_change == change_at(changes@.take(next as int), turn as int),
            right_change == if right != turn {
                change_at(changes@.take(next as int), right as int)
            } else {
                None
            },
            left_change == if left != turn && left != right {
                change_at(changes@.take(next as int), left as int)
            } else {
                None
            },
        decreases changes.len() - next,
    {
        proof {
            assert(changes@.take(next + 1).drop_last() =~= changes@.take(next as int));
        }
        let change = changes[next];
        if change.player == turn {
            player_change = Some(change);
        } else if change.player == right {
            right_change = Some(change);
        } else if change.player == left {
            left_change = Some(change);
        } else {
            return None;
        }
        proof {
            assert forall|k: int| 0 <= k < next + 1 implies (#[trigger] changes@.take(
                next + 1,
            )[k]).player == turn || changes@.take(next + 1)[k].player == right || changes@.take(
                next + 1,
            )[k].player == left by {
                if k < next {
                    assert(changes@.take(next as int)[k] == changes@[k]);
                }
            }
        }
        next += 1;
    }
    proof {
        assert(changes@.take(next as int) =~= changes@);
    }
    Some(Reached { player_change, right_change, left_change })
}

/// The roll that `changes` amount to for a roller at `turn` who rolls
/// `player_initial_amount` dice, if they amount to one.
fn roll_of(
    changes: &Vec<Change>,
    turn: usize,
    right: usize,
    left: usize,
    player_initial_amount: i16,
) -> (roll: Option<Roll>)
    requires
        bounded(changes@),
        0 <= player_initial_amount <= MAX_DICE,
    ensures
        roll == roll_of_changes(
            changes@,
            turn as int,
            right as int,
            left as int,
            player_initial_amount as int,
        ),
{
    if net_movement(changes) > MAX_CHIP_DELTA as i16 {
        return None;
    }
    if changes.len() == 0 {
        // No seat changed: every die showed a dot.
        Some(Roll { left: 0, right: 0, center: 0, dots: player_initial_amount as u8 })
    } else if changes.len() == 1 {
        // One seat changed: it must be the roller's, and what it lost went to
        // the center.
        let change = changes[0];
        if change.player != turn {
            return None;
        }
        let num_centers = -change.chips;
        if num_centers > MAX_DICE as i16 || num_centers < 0 {
            return None;
        }
        let num_dots = player_initial_amount - num_centers;
        if num_dots < 0 {
            return None;
        }
        Some(Roll { left: 0, right: 0, center: num_centers as u8, dots: num_dots as u8 })
    } else {
        let slots = match reached(changes, turn, right, left) {
            Some(slots) => slots,
            None => {
                return None;
            },
        };
        let player_chips = match slots.player_change {
            Some(change) => change.chips,
            None => {
                return None;
            },
        };
        let num_left = match slots.left_change {
            Some(change) => change.chips,
            None => 0,
        };
        let num_right = match slots.right_change {
            Some(change) => change.chips,
            None => 0,
        };
        proof {
            lemma_change_at_is_record(changes@, turn as int);
            lemma_change_at_is_record(changes@, left as int);
            lemma_change_at_is_record(changes@, right as int);
        }
        // The roller gains nothing on their own turn, and the seats beside
        // lose nothing.
        if player_chips > 0 || num_left < 0 || num_right < 0 {
            return None;
        }
        let num_center = -player_chips - (num_left + num_right);
        let num_dots = player_initial_amount - (num_left + num_center + num_right);
        if num_center < 0 || num_dots < 0 {
            return None;
        }
        Some(
            Roll {
                left: num_left as u8,
                right: num_right as u8,
                center: num_center as u8,
                dots: num_dots as u8,
            },
        )
    }
}

/// The roll that turns `state1` into `state2` at a table of `players`, if
/// there is one.
///
/// The turn must pass to the right, and both positions must have the same
/// seats, the roller's among them. No more than three seats may differ, none
/// by more than three chips, and together they may not gain more than three.
/// Where no seat differs, every die showed a dot. Where one does, it is the
/// roller's, and what it lost went to the center. Where two or three do, they
/// are the roller's and those beside it: the seats beside gained what the
/// dice sent them, and what the roller lost beyond that went to the center.
pub fn transition_roll(state1: &State, state2: &State, players: u8) -> (roll: Option<Roll>)
    requires
        players > 0,
    ensures
        roll == roll_between(state1@, state2@, players),
{
    let turn = state1.turn as usize;
    let right = (turn + 1) % (players as usize);
    if right != state2.turn as usize {
        return None;
    }
    let seats = state1.assigns.len();
    if seats != state2.assigns.len() {
        return None;
    }
    if turn >= seats {
        return None;
    }
    let left: usize = if turn == 0 {
        players as usize - 1
    } else {
        turn - 1
    };
    let held = state1.assigns[turn].chips;
    let player_initial_amount: i16 = if held < MAX_DICE {
        held as i16
    } else {
        MAX_DICE as i16
    };
    match chip_changes(state1, state2, players) {
        Some(changes) => {
            proof {
                lemma_roll_of_changes(state1@, state2@, players, changes@);
            }
            roll_of(&changes, turn, right, left, player_initial_amount)
        },
        None => None,
    }
}

/// The dice of the roll between two positions are those that the roller
/// rolls, and they show what the seats gained and lost.
pub proof fn lemma_roll_between(before: StateView, after: StateView, players: u8)
    requires
        players > 0,
    ensures
        match roll_between(before, after, players) {
            Some(roll) => {
                &&& roll.left == gain_left(before, after, players)
                &&& roll.right == gain_right(before, after, players)
                &&& roll.left + roll.right + roll.center == chips_lost(before, after)
                &&& roll.dice() == dice_rolled(before)
                &&& roll.wf()
            },
            None => true,
        },
{
}

/// The chance that one roll of the dice turns `state1` into `state2` at a
/// table of `players`; zero where no roll does.
///
/// The result is a function of the two positions and the number of players
/// alone, and of the positions only the turn and the chips of each seat count.
pub fn transition_prob(state1: &State, state2: &State, players: u8) -> (p: Probability)
    requires
        players > 0,
    ensures
        p@ == transition_chance(state1@, state2@, players),
        p.wf(),
{
    match transition_roll(state1, state2, players) {
        Some(roll) => {
            proof {
                lemma_roll_between(state1@, state2@, players);
                lemma_roll_chance(roll);
            }
            roll.probability()
        },
        None => Probability::zero(),
    }
}

/// The players of a table of `players`, by their seats.
pub open spec fn seated_players(players: u8) -> Seq<u8> {
    Seq::new(players as nat, |seat: int| seat as u8)
}

/// `rows` holds, for each pair of positions of `states`, the chance that one
/// roll turns the first into the second.
pub open spec fn is_transition_table(
    rows: Seq<Seq<Probability>>,
    states: Seq<StateView>,
    players: u8,
) -> bool {
    &&& rows.len() == states.len()
    &&& forall|row: int| 0 <= row < rows.len() ==> (#[trigger] rows[row]).len() == states.len()
    &&& forall|row: int, column: int|
        0 <= row < states.len() && 0 <= column < states.len() ==> (#[trigger] rows[row][column])@
            == transition_chance(states[row], states[column], players)
}

/// The most cells that a table can hold: as many as fit in a vector, at
/// sixteen bytes each.
pub open spec fn max_cells() -> int {
    isize::MAX as int / 16
}

/// The chain of a game of `num_players`: for every two positions of the
/// game, in the order of [`create_states`], the chance that one roll turns
/// the first into the second. None where a player's chips do not fit in a
/// seat, or the cells do not fit in a table.
pub fn new_markov(num_players: u8) -> (markov: Option<Markov>)
    ensures
        markov is Some <==> 3 * num_players <= u8::MAX && state_count(num_players as nat)
            * state_count(num_players as nat) <= max_cells(),
        match markov {
            Some(table) => is_transition_table(
                table_rows(table),
                all_states(seated_players(num_players)),
                num_players,
            ),
            None => true,
        },
{
    if num_players > u8::MAX / 3 {
        return None;
    }
    let mut players: Vec<u8> = Vec::with_capacity(num_players as usize);
    let mut seat: u8 = 0;
    while seat < num_players
        invariant
            seat <= num_players,
            players@ == seated_players(seat),
        decreases num_players - seat,
    {
        players.push(seat);
        assert(players@ =~= seated_players((seat + 1) as u8));
        seat += 1;
    }

    let states = if num_players == 0 {
        Vec::new()
    } else {
        create_states(players.as_slice())
    };
    let ghost positions = all_states(seated_players(num_players));
    proof {
        if num_players == 0 {
            assert(state_views(states@) =~= positions);
            assert(state_count(0) == 0);
        }
    }
    let size = states.len();
    proof {
        lemma_product_fits(size as u64, size as u64);
    }
    if size as u128 * size as u128 > isize::MAX as u128 / 16 {
        return None;
    }
    let mut markov = Markov::filled(size, Probability::zero());

    let mut first_index: usize = 0;
    while first_index < size
        invariant
            size == states@.len(),
            size > 0 ==> num_players >= 1,
            state_views(states@) == positions,
            first_index <= size,
            table_rows(markov).len() == size,
            forall|row: int|
                0 <= row < size ==> (#[trigger] table_rows(markov)[row]).len() == size,
            forall|row: int, column: int|
                0 <= row < first_index && 0 <= column < size ==> (#[trigger] table_rows(
                    markov,
                )[row][column])@ == transition_chance(positions[row], positions[column], num_players),
        decreases size - first_index,
    {
        let mut second_index: usize = 0;
        while second_index < size
            invariant
                num_players >= 1,
                size == states@.len(),
                state_views(states@) == positions,
                first_index < size,
                second_index <= size,
                table_rows(markov).len() == size,
                forall|row: int|
                    0 <= row < size ==> (#[trigger] table_rows(markov)[row]).len() == size,
                forall|row: int, column: int|
                    0 <= row < first_index && 0 <= column < size ==> (#[trigger] table_rows(
                        markov,
                    )[row][column])@ == transition_chance(
                        positions[row],
                        positions[column],
                        num_players,
                    ),
                forall|column: int|
                    0 <= column < second_index ==> (#[trigger] table_rows(
                        markov,
                    )[first_index as int][column])@ == transition_chance(
                        positions[first_index as int],
                        positions[column],
                        num_players,
                    ),
            decreases size - second_index,
        {
            let chance = transition_prob(&states[first_index], &states[second_index], num_players);
            proof {
                assert(state_views(states@)[first_index as int] == states@[first_index as int]@);
                assert(state_views(states@)[second_index as int] == states@[second_index as int]@);
            }
            markov.put(first_index, second_index, chance);
            second_index += 1;
        }
        first_index += 1;
    }
    Some(markov)
}

} // verus!
