//! How many positions the enumeration holds.

use vstd::prelude::*;
use crate::state::{all_states, partitions, partitions_below, states_of, states_upto, Assign};

verus! {

/// The binomial coefficient: the number of ways to pick `k` things out of `n`.
pub open spec fn binomial(n: nat, k: nat) -> nat
    decreases n,
{
    if k == 0 {
        1
    } else if n == 0 {
        0
    } else {
        binomial((n - 1) as nat, (k - 1) as nat) + binomial((n - 1) as nat, k)
    }
}

/// The number of layouts of `seats` seats that hold at least one chip and at
/// most `chips` chips: the sum, for `c` from 1 to `chips`, of the number
/// `binomial(c + seats - 1, seats - 1)` of ways to deal `c` chips to `seats`
/// seats.
pub open spec fn layouts_upto(seats: nat, chips: nat) -> nat
    decreases chips,
{
    if chips == 0 {
        0
    } else {
        layouts_upto(seats, (chips - 1) as nat) + binomial(
            (chips + seats - 1) as nat,
            (seats - 1) as nat,
        )
    }
}

/// The number of positions of a game of `seats` players: every layout of one
/// to `3 * seats` chips, once for each player's turn.
pub open spec fn state_count(seats: nat) -> nat {
    seats * layouts_upto(seats, 3 * seats)
}

/// Nothing can be picked in more ways than none when more is asked than there is.
pub proof fn lemma_binomial_beyond(n: nat, k: nat)
    requires
        n < k,
    ensures
        binomial(n, k) == 0,
    decreases n,
{
    if n > 0 {
        lemma_binomial_beyond((n - 1) as nat, (k - 1) as nat);
        lemma_binomial_beyond((n - 1) as nat, k);
    }
}

/// `chips` chips can be dealt to the players of `players` in
/// `binomial(chips + n - 1, n - 1)` ways, `n` being their number.
pub proof fn lemma_partitions_len(players: Seq<u8>, chips: nat)
    requires
        players.len() >= 1,
    ensures
        partitions(players, chips).len() == binomial(
            (chips + players.len() - 1) as nat,
            (players.len() - 1) as nat,
        ),
    decreases players.len(), chips + 2,
{
    if players.len() > 1 {
        lemma_partitions_below_len(players, chips, chips + 1);
        lemma_binomial_beyond((players.len() - 2) as nat, (players.len() - 1) as nat);
    }
}

/// The layouts in which the first of several players holds fewer than `share`
/// chips are those of all shares but for those of the shares from `share` on.
pub proof fn lemma_partitions_below_len(players: Seq<u8>, chips: nat, share: nat)
    requires
        players.len() >= 2,
        share <= chips + 1,
    ensures
        partitions_below(players, chips, share).len() + binomial(
            (chips + players.len() - 1 - share) as nat,
            (players.len() - 1) as nat,
        ) == binomial((chips + players.len() - 1) as nat, (players.len() - 1) as nat),
    decreases players.len(), share,
{
    if share > 0 {
        let held = (share - 1) as nat;
        lemma_partitions_below_len(players, chips, held);
        lemma_partitions_len(players.skip(1), (chips - held) as nat);
    }
}

/// A sequence of layouts gives one position for each layout and turn.
pub proof fn lemma_states_of_len(players: Seq<u8>, layouts: Seq<Seq<Assign>>)
    ensures
        states_of(players, layouts).len() == layouts.len() * players.len(),
    decreases layouts.len(),
{
    if layouts.len() > 0 {
        lemma_states_of_len(players, layouts.drop_last());
        assert((layouts.len() - 1) * players.len() + players.len() == layouts.len()
            * players.len()) by (nonlinear_arith);
    }
}

/// The positions with at most `chips` chips in play are as many as the
/// players times the layouts.
pub proof fn lemma_states_upto_len(players: Seq<u8>, chips: nat)
    requires
        players.len() >= 1,
    ensures
        states_upto(players, chips).len() == players.len() * layouts_upto(players.len(), chips),
    decreases chips,
{
    let n = players.len();
    if chips > 0 {
        let fewer = (chips - 1) as nat;
        lemma_states_upto_len(players, fewer);
        lemma_partitions_len(players, chips);
        lemma_states_of_len(players, partitions(players, chips));
        let ways = partitions(players, chips).len();
        assert(layouts_upto(n, chips) == layouts_upto(n, fewer) + ways);
        assert(states_upto(players, chips).len() == n * layouts_upto(n, fewer) + ways * n);
        assert(n * layouts_upto(n, fewer) + ways * n == n * (layouts_upto(n, fewer) + ways))
            by (nonlinear_arith);
    } else {
        assert(layouts_upto(n, chips) == 0);
        assert(n * 0 == 0);
    }
}

/// The enumeration of a game of `n` players holds `n` times the sum, for `c`
/// from 1 to `3 * n`, of `binomial(c + n - 1, n - 1)` positions.
pub proof fn lemma_all_states_len(players: Seq<u8>)
    requires
        players.len() >= 1,
    ensures
        all_states(players).len() == state_count(players.len()),
{
    lemma_states_upto_len(players, 3 * players.len());
}

/// The layouts of one to `chips` chips are one fewer than the ways to pick
/// `seats` things out of `chips + seats`.
pub proof fn lemma_layouts_upto_closed(seats: nat, chips: nat)
    requires
        seats >= 1,
    ensures
        layouts_upto(seats, chips) + 1 == binomial(chips + seats, seats),
    decreases chips,
{
    if chips == 0 {
        lemma_binomial_diagonal(seats);
    } else {
        lemma_layouts_upto_closed(seats, (chips - 1) as nat);
    }
}

/// All of `n` things can be picked in one way.
pub proof fn lemma_binomial_diagonal(n: nat)
    ensures
        binomial(n, n) == 1,
    decreases n,
{
    if n > 0 {
        lemma_binomial_diagonal((n - 1) as nat);
        lemma_binomial_beyond((n - 1) as nat, n);
    }
}

/// A game of `seats` players has `seats * (binomial(4 * seats, seats) - 1)`
/// positions.
pub proof fn lemma_state_count_closed(seats: nat)
    requires
        seats >= 1,
    ensures
        state_count(seats) == seats * (binomial(4 * seats, seats) - 1),
{
    lemma_layouts_upto_closed(seats, 3 * seats);
}

} // verus!
