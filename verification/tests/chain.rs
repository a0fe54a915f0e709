use lcr_markov::markov::{new_markov, transition_prob};
use lcr_markov::probability::Probability;
use lcr_markov::state::create_states;

#[test]
fn chain_of_one_player() {
    let chain = new_markov(1).unwrap();
    assert_eq!(chain.size(), 3);
    let expected = [
        [(1, 2), (0, 1), (0, 1)],
        [(1, 12), (1, 4), (0, 1)],
        [(1, 72), (1, 24), (1, 8)],
    ];
    for row in 0..3 {
        for column in 0..3 {
            let (numer, denom) = expected[row][column];
            assert_eq!(chain.chance(row, column), Some(Probability { numer, denom }));
        }
    }
}

#[test]
fn chain_holds_the_chance_of_every_pair() {
    let states = create_states(&[0, 1]);
    let chain = new_markov(2).unwrap();
    assert_eq!(chain.size(), 54);
    let mut possible = 0;
    for row in 0..states.len() {
        for column in 0..states.len() {
            let chance = transition_prob(&states[row], &states[column], 2);
            let held = chain.chance(row, column).unwrap();
            assert_eq!(held.numer, chance.numer);
            assert_eq!(held.denom, chance.denom);
            if chance.numer != 0 {
                possible += 1;
            }
        }
    }
    assert!(possible > 0);
    assert!(possible < 54 * 54);
}

#[test]
fn chain_rows_and_columns_are_not_swapped() {
    let chain = new_markov(1).unwrap();
    assert_eq!(chain.chance(2, 0), Some(Probability { numer: 1, denom: 72 }));
    assert_eq!(chain.chance(0, 2), Some(Probability::zero()));
}

#[test]
fn chain_has_nothing_outside_the_table() {
    let chain = new_markov(1).unwrap();
    assert_eq!(chain.chance(3, 0), None);
    assert_eq!(chain.chance(0, 3), None);
    assert_eq!(chain.chance(usize::MAX, usize::MAX), None);
}

#[test]
fn chain_of_no_player_is_empty() {
    let chain = new_markov(0).unwrap();
    assert_eq!(chain.size(), 0);
    assert_eq!(chain.chance(0, 0), None);
}

#[test]
fn chain_of_too_many_players() {
    assert!(new_markov(86).is_none());
    assert!(new_markov(255).is_none());
}
