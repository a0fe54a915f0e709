use lcr_markov::markov::{
    transition_prob, transition_roll, MAX_CHIP_DELTA, MAX_DICE, MAX_PLAYER_DELTA,
};
use lcr_markov::probability::{center_prob, dot_prob, left_prob, right_prob, Probability};
use lcr_markov::state::{create_states, Assign, State};

fn state(turn: u8, seats: &[(u8, u8)]) -> State {
    let mut assigns = Vec::new();
    for &(player, chips) in seats {
        assigns.push(Assign { player, chips });
    }
    State { turn, assigns }
}

fn table(turn: u8, chips: &[u8]) -> State {
    let mut assigns = Vec::new();
    for (seat, &held) in chips.iter().enumerate() {
        assigns.push(Assign { player: seat as u8, chips: held });
    }
    State { turn, assigns }
}

fn ratio(numer: u64, denom: u64) -> Probability {
    Probability { numer, denom }
}

#[derive(Clone, Debug)]
enum Roll {
    Left,
    Center,
    Right,
    Dot,
}

// Some combinations are tried twice, which does no harm.
fn roll(state: &State) {
    let mut rolls = Vec::new();
    let initial = vec![Roll::Left, Roll::Right, Roll::Center, Roll::Dot];

    for roll1 in initial.iter() {
        for roll2 in initial.iter() {
            for roll3 in initial.iter() {
                rolls.push(vec![roll1.clone(), roll2.clone(), roll3.clone()]);
            }
        }
    }

    for outcome in rolls {
        let old_state = state.clone();
        let mut new_state = old_state.clone();
        new_state.turn += 1;

        let player = state.turn as usize;
        let num_players = state.assigns.len();

        let left_player = if player == 0 { num_players - 1 } else { player - 1 };
        let right_player = if player == num_players - 1 { 0 } else { player + 1 };

        let mut prob = Probability::one();
        for roll in outcome {
            match roll {
                Roll::Left => {
                    new_state.assigns[player].chips -= 1;
                    new_state.assigns[left_player].chips += 1;
                    prob = prob.times(&left_prob());
                }
                Roll::Right => {
                    new_state.assigns[player].chips -= 1;
                    new_state.assigns[right_player].chips += 1;
                    prob = prob.times(&right_prob());
                }
                Roll::Center => {
                    new_state.assigns[player].chips -= 1;
                    prob = prob.times(&center_prob());
                }
                Roll::Dot => prob = prob.times(&dot_prob()),
            }
        }

        println!("Calcing prob:");
        println!("{:?}", old_state);
        println!("{:?}", new_state);

        let computed_prob = transition_prob(&old_state, &new_state, num_players as u8);
        assert_eq!(computed_prob, prob);
    }
}

#[test]
fn test_() {
    let state1 = state(0, &[(0, 3), (1, 4), (2, 5)]);
    let state2 = state(1, &[(0, 1), (1, 5), (2, 5)]);

    assert_eq!(
        transition_prob(&state1, &state2, 2),
        center_prob().times(&right_prob()).times(&dot_prob())
    );

    println!("Starting roll");
    roll(&state1);
}

#[test]
fn limits_are_three() {
    assert_eq!(MAX_CHIP_DELTA, 3);
    assert_eq!(MAX_PLAYER_DELTA, 3);
    assert_eq!(MAX_DICE, 3);
}

#[test]
fn center_right_dot_among_three() {
    let before = state(0, &[(0, 3), (1, 4), (2, 5)]);
    let after = state(1, &[(0, 1), (1, 5), (2, 5)]);
    let chance = transition_prob(&before, &after, 3);
    assert_eq!(chance, ratio(1, 72));
    assert_eq!(chance.numer, 3);
    assert_eq!(chance.denom, 216);
    let dice = transition_roll(&before, &after, 3).unwrap();
    assert_eq!((dice.left, dice.right, dice.center, dice.dots), (0, 1, 1, 1));
}

#[test]
fn roller_without_chips_passes_the_turn() {
    let before = table(1, &[2, 0, 4]);
    let same = table(2, &[2, 0, 4]);
    let chance = transition_prob(&before, &same, 3);
    assert_eq!(chance, Probability::one());
    assert_eq!(chance.numer, 1);
    assert_eq!(chance.denom, 1);
    assert_eq!(transition_prob(&before, &table(2, &[3, 0, 4]), 3), Probability::zero());
    assert_eq!(transition_prob(&before, &table(2, &[2, 0, 3]), 3), Probability::zero());
    assert_eq!(transition_prob(&before, &table(2, &[1, 1, 4]), 3), Probability::zero());
}

#[test]
fn wrong_turn_has_no_chance() {
    let before = table(0, &[3, 4, 5]);
    for turn in [0u8, 2, 3, 200, 255] {
        assert_eq!(transition_prob(&before, &table(turn, &[3, 4, 5]), 3), Probability::zero());
        assert_eq!(transition_prob(&before, &table(turn, &[1, 5, 5]), 3), Probability::zero());
        assert_eq!(transition_roll(&before, &table(turn, &[1, 5, 5]), 3), None);
    }
    let last = table(2, &[3, 4, 5]);
    assert_eq!(transition_prob(&last, &table(3, &[3, 4, 5]), 3), Probability::zero());
    assert_eq!(transition_prob(&last, &table(0, &[3, 4, 5]), 3), ratio(1, 8));
}

#[test]
fn turn_wraps_from_the_widest_seat() {
    let mut chips = vec![0u8; 255];
    chips[254] = 1;
    let before = table(254, &chips);
    let mut moved = vec![0u8; 255];
    moved[0] = 1;
    assert_eq!(transition_prob(&before, &table(0, &moved), 255), ratio(1, 6));
    assert_eq!(transition_prob(&before, &table(0, &chips), 255), ratio(1, 2));
    let lone = table(255, &[1]);
    assert_eq!(transition_prob(&lone, &table(0, &[1]), 1), Probability::zero());
}

#[test]
fn four_changed_seats_have_no_chance() {
    let before = table(1, &[2, 3, 2, 2, 2]);
    let after = table(2, &[3, 0, 3, 3, 2]);
    assert_eq!(transition_prob(&before, &after, 5), Probability::zero());
    let after = table(2, &[3, 1, 3, 2, 1]);
    assert_eq!(transition_prob(&before, &after, 5), Probability::zero());
    let after = table(2, &[1, 1, 1, 1, 1]);
    assert_eq!(transition_prob(&before, &after, 5), Probability::zero());
}

#[test]
fn mismatched_seats_have_no_chance() {
    let before = table(0, &[3, 4, 5]);
    assert_eq!(transition_prob(&before, &table(1, &[3, 4]), 3), Probability::zero());
    assert_eq!(transition_prob(&before, &table(1, &[3, 4, 5, 0]), 3), Probability::zero());
    assert_eq!(transition_prob(&table(0, &[]), &table(0, &[]), 1), Probability::zero());
}

#[test]
fn turn_without_a_seat_has_no_chance() {
    let before = table(3, &[3, 4, 5]);
    assert_eq!(transition_prob(&before, &table(4, &[3, 4, 5]), 5), Probability::zero());
    assert_eq!(transition_prob(&before, &table(0, &[3, 4, 5]), 4), Probability::zero());
}

#[test]
fn all_dots() {
    assert_eq!(
        transition_prob(&table(0, &[3, 4, 5]), &table(1, &[3, 4, 5]), 3),
        dot_prob().powi(3)
    );
    assert_eq!(transition_prob(&table(0, &[9, 4, 5]), &table(1, &[9, 4, 5]), 3), ratio(1, 8));
    assert_eq!(transition_prob(&table(0, &[2, 4, 5]), &table(1, &[2, 4, 5]), 3), ratio(1, 4));
    assert_eq!(transition_prob(&table(0, &[1, 4, 5]), &table(1, &[1, 4, 5]), 3), ratio(1, 2));
    let dice = transition_roll(&table(0, &[2, 4, 5]), &table(1, &[2, 4, 5]), 3).unwrap();
    assert_eq!((dice.left, dice.right, dice.center, dice.dots), (0, 0, 0, 2));
}

#[test]
fn only_the_center_gains() {
    let before = table(0, &[3, 4, 5]);
    assert_eq!(transition_prob(&before, &table(1, &[2, 4, 5]), 3), ratio(1, 24));
    assert_eq!(transition_prob(&before, &table(1, &[1, 4, 5]), 3), ratio(1, 72));
    assert_eq!(transition_prob(&before, &table(1, &[0, 4, 5]), 3), ratio(1, 216));
    assert_eq!(
        transition_prob(&before, &table(1, &[1, 4, 5]), 3),
        center_prob().powi(2).times(&dot_prob().powi(1))
    );
    let dice = transition_roll(&before, &table(1, &[1, 4, 5]), 3).unwrap();
    assert_eq!((dice.left, dice.right, dice.center, dice.dots), (0, 0, 2, 1));
    let rich = table(0, &[7, 4, 5]);
    assert_eq!(transition_prob(&rich, &table(1, &[4, 4, 5]), 3), ratio(1, 216));
    assert_eq!(transition_prob(&rich, &table(1, &[3, 4, 5]), 3), Probability::zero());
    let poor = table(0, &[2, 4, 5]);
    assert_eq!(transition_prob(&poor, &table(1, &[0, 4, 5]), 3), ratio(1, 36));
    assert_eq!(transition_prob(&poor, &table(1, &[1, 4, 5]), 3), ratio(1, 12));
}

#[test]
fn lone_change_away_from_the_roller_has_no_chance() {
    let before = table(0, &[3, 4, 5]);
    assert_eq!(transition_prob(&before, &table(1, &[3, 5, 5]), 3), Probability::zero());
    assert_eq!(transition_prob(&before, &table(1, &[3, 4, 4]), 3), Probability::zero());
    assert_eq!(transition_prob(&before, &table(1, &[4, 4, 5]), 3), Probability::zero());
}

#[test]
fn chips_to_both_sides() {
    let before = table(1, &[0, 3, 0, 0]);
    let after = table(2, &[1, 0, 2, 0]);
    let dice = transition_roll(&before, &after, 4).unwrap();
    assert_eq!((dice.left, dice.right, dice.center, dice.dots), (1, 2, 0, 0));
    assert_eq!(transition_prob(&before, &after, 4), ratio(1, 216));
    let after = table(2, &[1, 1, 1, 0]);
    let dice = transition_roll(&before, &after, 4).unwrap();
    assert_eq!((dice.left, dice.right, dice.center, dice.dots), (1, 1, 0, 1));
    assert_eq!(transition_prob(&before, &after, 4), ratio(1, 72));
    assert_eq!(
        transition_prob(&before, &after, 4),
        left_prob().times(&right_prob()).times(&dot_prob())
    );
}

#[test]
fn left_of_the_first_seat_is_the_last() {
    let before = table(0, &[3, 0, 0, 0]);
    let after = table(1, &[2, 0, 0, 1]);
    let dice = transition_roll(&before, &after, 4).unwrap();
    assert_eq!((dice.left, dice.right, dice.center, dice.dots), (1, 0, 0, 2));
    assert_eq!(transition_prob(&before, &after, 4), ratio(1, 24));
}

#[test]
fn right_of_the_last_seat_is_the_first() {
    let before = table(3, &[0, 0, 0, 3]);
    let after = table(0, &[2, 0, 0, 1]);
    let dice = transition_roll(&before, &after, 4).unwrap();
    assert_eq!((dice.left, dice.right, dice.center, dice.dots), (0, 2, 0, 1));
    assert_eq!(transition_prob(&before, &after, 4), ratio(1, 72));
}

#[test]
fn change_beyond_the_neighbours_has_no_chance() {
    let before = table(0, &[3, 1, 1, 1, 1]);
    assert_eq!(transition_prob(&before, &table(1, &[2, 1, 2, 1, 1]), 5), Probability::zero());
    assert_eq!(transition_prob(&before, &table(1, &[1, 2, 2, 1, 1]), 5), Probability::zero());
    assert_eq!(transition_prob(&before, &table(1, &[1, 2, 1, 2, 1]), 5), Probability::zero());
    assert_eq!(transition_prob(&before, &table(1, &[1, 2, 1, 1, 2]), 5), ratio(1, 72));
}

#[test]
fn neighbour_cannot_lose_nor_roller_gain() {
    let before = table(1, &[2, 3, 2]);
    assert_eq!(transition_prob(&before, &table(2, &[1, 3, 3]), 3), Probability::zero());
    assert_eq!(transition_prob(&before, &table(2, &[1, 2, 2]), 3), Probability::zero());
    assert_eq!(transition_prob(&before, &table(2, &[1, 4, 2]), 3), Probability::zero());
    assert_eq!(transition_prob(&before, &table(2, &[3, 4, 2]), 3), Probability::zero());
    assert_eq!(transition_prob(&before, &table(2, &[1, 4, 1]), 3), Probability::zero());
}

#[test]
fn chips_cannot_appear() {
    let before = table(1, &[2, 3, 2]);
    assert_eq!(transition_prob(&before, &table(2, &[4, 2, 3]), 3), Probability::zero());
    assert_eq!(transition_prob(&before, &table(2, &[5, 3, 4]), 3), Probability::zero());
    assert_eq!(transition_prob(&before, &table(2, &[3, 3, 2]), 3), Probability::zero());
    assert_eq!(transition_prob(&before, &table(2, &[4, 1, 3]), 3), Probability::zero());
}

#[test]
fn more_than_three_chips_cannot_move() {
    let before = table(0, &[8, 1, 1]);
    assert_eq!(transition_prob(&before, &table(1, &[4, 1, 1]), 3), Probability::zero());
    assert_eq!(transition_prob(&before, &table(1, &[4, 5, 1]), 3), Probability::zero());
    assert_eq!(transition_prob(&before, &table(1, &[4, 3, 3]), 3), Probability::zero());
    assert_eq!(transition_prob(&before, &table(1, &[5, 4, 1]), 3), ratio(1, 216));
    assert_eq!(transition_prob(&before, &table(1, &[12, 1, 1]), 3), Probability::zero());
}

#[test]
fn no_more_dice_than_chips() {
    let before = table(0, &[1, 4, 5]);
    assert_eq!(transition_prob(&before, &table(1, &[0, 5, 5]), 3), ratio(1, 6));
    assert_eq!(transition_prob(&before, &table(1, &[0, 4, 6]), 3), ratio(1, 6));
    assert_eq!(transition_prob(&before, &table(1, &[0, 4, 5]), 3), ratio(1, 6));
    let before = table(0, &[2, 4, 5]);
    assert_eq!(transition_prob(&before, &table(1, &[0, 5, 6]), 3), ratio(1, 36));
    assert_eq!(transition_prob(&before, &table(1, &[1, 5, 5]), 3), ratio(1, 12));
    let dice = transition_roll(&before, &table(1, &[1, 5, 5]), 3).unwrap();
    assert_eq!((dice.left, dice.right, dice.center, dice.dots), (0, 1, 0, 1));
}

#[test]
fn two_players_share_one_neighbour() {
    let before = table(0, &[3, 1]);
    let after = table(1, &[1, 3]);
    let dice = transition_roll(&before, &after, 2).unwrap();
    assert_eq!((dice.left, dice.right, dice.center, dice.dots), (0, 2, 0, 1));
    assert_eq!(transition_prob(&before, &after, 2), ratio(1, 72));
    let back = table(0, &[2, 2]);
    assert_eq!(transition_prob(&after, &back, 2), ratio(1, 24));
}

#[test]
fn seats_outside_the_table_cannot_change() {
    let before = table(0, &[3, 1, 1, 1]);
    assert_eq!(transition_prob(&before, &table(1, &[2, 2, 1, 1]), 2), ratio(1, 24));
    assert_eq!(transition_prob(&before, &table(1, &[2, 1, 1, 2]), 2), Probability::zero());
    assert_eq!(transition_prob(&before, &table(1, &[2, 1, 2, 1]), 2), Probability::zero());
}

#[test]
fn labels_of_the_seats_do_not_count() {
    let before = state(0, &[(9, 3), (9, 4), (9, 5)]);
    let after = state(1, &[(4, 1), (5, 5), (6, 5)]);
    assert_eq!(transition_prob(&before, &after, 3), ratio(1, 72));
}

#[test]
fn chances_lie_between_zero_and_one() {
    let states = create_states(&[0, 1]);
    for before in &states {
        for after in &states {
            let chance = transition_prob(before, after, 2);
            assert!(chance.denom > 0);
            assert!(chance.numer <= chance.denom);
        }
    }
}

#[test]
fn wrong_turn_among_all_positions() {
    let states = create_states(&[0, 1, 2]);
    for before in states.iter().step_by(7) {
        for after in states.iter().step_by(5) {
            if after.turn != (before.turn + 1) % 3 {
                assert_eq!(transition_prob(before, after, 3).numer, 0);
            }
        }
    }
}

#[test]
fn repeated_calls_agree() {
    let states = create_states(&[0, 1, 2]);
    for before in states.iter().step_by(11) {
        for after in states.iter().step_by(13) {
            let first = transition_prob(before, after, 3);
            let second = transition_prob(before, after, 3);
            assert_eq!(first.numer, second.numer);
            assert_eq!(first.denom, second.denom);
        }
    }
}

fn row_total(before: &State, players: u8) -> (u64, u64) {
    let turn = before.turn as usize;
    let seats = before.assigns.len();
    let left = if turn == 0 { seats - 1 } else { turn - 1 };
    let right = if turn == seats - 1 { 0 } else { turn + 1 };
    let dice = before.assigns[turn].chips.min(3) as u32;
    let mut parts = 0;
    let mut whole = 1;
    for _ in 0..dice {
        whole *= 6;
    }
    for fall in 0..4u32.pow(dice) {
        let mut after = before.clone();
        after.turn = (before.turn + 1) % players;
        let mut rest = fall;
        for _ in 0..dice {
            match rest % 4 {
                0 => {
                    after.assigns[turn].chips -= 1;
                    after.assigns[left].chips += 1;
                }
                1 => {
                    after.assigns[turn].chips -= 1;
                    after.assigns[right].chips += 1;
                }
                2 => after.assigns[turn].chips -= 1,
                _ => {}
            }
            rest /= 4;
        }
        let chance = transition_prob(before, &after, players);
        assert_eq!(chance.denom, whole);
        parts += chance.numer;
    }
    (parts, whole)
}

#[test]
fn rows_add_up_to_one() {
    assert_eq!(row_total(&table(1, &[2, 3, 0, 1]), 4), (216, 216));
    assert_eq!(row_total(&table(0, &[2, 3, 1]), 3), (36, 36));
    assert_eq!(row_total(&table(2, &[2, 3, 1]), 3), (6, 6));
    assert_eq!(row_total(&table(2, &[2, 3, 0]), 3), (1, 1));
    assert_eq!(row_total(&table(1, &[2, 7]), 2), (216, 216));
    for before in create_states(&[0, 1, 2]) {
        let (parts, whole) = row_total(&before, 3);
        assert_eq!(parts, whole);
    }
}
