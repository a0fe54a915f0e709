use lcr_markov::state::{create_states, permute, Assign, State};

fn chips_of(layout: &[Assign]) -> Vec<u8> {
    layout.iter().map(|assign| assign.chips).collect()
}

fn total(layout: &[Assign]) -> usize {
    layout.iter().map(|assign| assign.chips as usize).sum()
}

fn binomial(n: usize, k: usize) -> usize {
    if k == 0 {
        1
    } else if n == 0 {
        0
    } else {
        binomial(n - 1, k - 1) + binomial(n - 1, k)
    }
}

#[test]
fn permute_single_player_holds_everything() {
    let layouts = permute(&[7], 5);
    assert_eq!(layouts, vec![vec![Assign { player: 7, chips: 5 }]]);
}

#[test]
fn permute_two_players_in_order_of_first_share() {
    let layouts = permute(&[0, 1], 2);
    assert_eq!(
        layouts,
        vec![
            vec![Assign { player: 0, chips: 0 }, Assign { player: 1, chips: 2 }],
            vec![Assign { player: 0, chips: 1 }, Assign { player: 1, chips: 1 }],
            vec![Assign { player: 0, chips: 2 }, Assign { player: 1, chips: 0 }],
        ]
    );
}

#[test]
fn permute_three_players_two_chips() {
    let layouts = permute(&[0, 1, 2], 2);
    let chips: Vec<Vec<u8>> = layouts.iter().map(|layout| chips_of(layout)).collect();
    assert_eq!(
        chips,
        vec![
            vec![0, 0, 2],
            vec![0, 1, 1],
            vec![0, 2, 0],
            vec![1, 0, 1],
            vec![1, 1, 0],
            vec![2, 0, 0],
        ]
    );
}

#[test]
fn permute_zero_chips_has_one_layout() {
    let layouts = permute(&[3, 4, 5], 0);
    assert_eq!(layouts.len(), 1);
    assert_eq!(chips_of(&layouts[0]), vec![0, 0, 0]);
}

#[test]
fn permute_seats_follow_the_players() {
    for layout in permute(&[4, 9, 2], 3) {
        assert_eq!(layout.len(), 3);
        assert_eq!(layout[0].player, 4);
        assert_eq!(layout[1].player, 9);
        assert_eq!(layout[2].player, 2);
        assert_eq!(total(&layout), 3);
    }
}

#[test]
fn permute_counts_are_binomial() {
    for players in 1..=4usize {
        let ids: Vec<u8> = (0..players as u8).collect();
        for chips in 0..=9usize {
            let layouts = permute(&ids, chips as u8);
            assert_eq!(layouts.len(), binomial(chips + players - 1, players - 1));
        }
    }
    assert_eq!(permute(&[0, 1, 2], 4).len(), 15);
    assert_eq!(permute(&[0, 1], 255).len(), 256);
}

#[test]
fn permute_has_no_duplicates() {
    let layouts = permute(&[0, 1, 2, 3], 6);
    for i in 0..layouts.len() {
        for j in 0..i {
            assert_ne!(layouts[i], layouts[j]);
        }
    }
}

#[test]
fn permute_holds_every_deal() {
    let layouts = permute(&[0, 1, 2], 5);
    for a in 0..=5u8 {
        for b in 0..=(5 - a) {
            let c = 5 - a - b;
            let wanted = vec![
                Assign { player: 0, chips: a },
                Assign { player: 1, chips: b },
                Assign { player: 2, chips: c },
            ];
            assert!(layouts.contains(&wanted));
        }
    }
}

#[test]
fn create_states_counts() {
    assert_eq!(create_states(&[0]).len(), 3);
    assert_eq!(create_states(&[0, 1]).len(), 54);
    assert_eq!(create_states(&[0, 1, 2]).len(), 657);
    assert_eq!(create_states(&[0, 1, 2, 3]).len(), 4 * (binomial(16, 4) - 1));
}

#[test]
fn create_states_count_is_the_sum_of_binomials() {
    for players in 1..=4usize {
        let ids: Vec<u8> = (0..players as u8).collect();
        let mut layouts = 0;
        for chips in 1..=3 * players {
            layouts += binomial(chips + players - 1, players - 1);
        }
        assert_eq!(create_states(&ids).len(), players * layouts);
    }
}

#[test]
fn create_states_single_player() {
    let states = create_states(&[0]);
    assert_eq!(
        states,
        vec![
            State { turn: 0, assigns: vec![Assign { player: 0, chips: 1 }] },
            State { turn: 0, assigns: vec![Assign { player: 0, chips: 2 }] },
            State { turn: 0, assigns: vec![Assign { player: 0, chips: 3 }] },
        ]
    );
}

#[test]
fn create_states_order_of_chips_layouts_and_turns() {
    let states = create_states(&[0, 1]);
    let first: Vec<(u8, Vec<u8>)> =
        states.iter().take(6).map(|state| (state.turn, chips_of(&state.assigns))).collect();
    assert_eq!(
        first,
        vec![
            (0, vec![0, 1]),
            (1, vec![0, 1]),
            (0, vec![1, 0]),
            (1, vec![1, 0]),
            (0, vec![0, 2]),
            (1, vec![0, 2]),
        ]
    );
    let last = &states[states.len() - 1];
    assert_eq!(last.turn, 1);
    assert_eq!(chips_of(&last.assigns), vec![6, 0]);
}

#[test]
fn create_states_has_no_duplicates() {
    let states = create_states(&[0, 1, 2]);
    for i in 0..states.len() {
        for j in 0..i {
            assert!(states[i].turn != states[j].turn || states[i].assigns != states[j].assigns);
        }
    }
}

#[test]
fn create_states_holds_exactly_the_positions() {
    let states = create_states(&[0, 1, 2]);
    for state in &states {
        assert!(state.turn < 3);
        assert_eq!(state.assigns.len(), 3);
        for (seat, assign) in state.assigns.iter().enumerate() {
            assert_eq!(assign.player as usize, seat);
        }
        let chips = total(&state.assigns);
        assert!(1 <= chips && chips <= 9);
    }
    for turn in 0..3u8 {
        for a in 0..=9u8 {
            for b in 0..=(9 - a) {
                for c in 0..=(9 - a - b) {
                    if a + b + c == 0 {
                        continue;
                    }
                    let wanted = State {
                        turn,
                        assigns: vec![
                            Assign { player: 0, chips: a },
                            Assign { player: 1, chips: b },
                            Assign { player: 2, chips: c },
                        ],
                    };
                    assert!(states.contains(&wanted));
                }
            }
        }
    }
}

#[test]
fn create_states_is_repeatable() {
    assert_eq!(create_states(&[0, 1, 2]), create_states(&[0, 1, 2]));
}

#[test]
fn create_states_widest_table() {
    let ids: Vec<u8> = (0..2u8).collect();
    let states = create_states(&ids);
    let most = states.iter().map(|state| total(&state.assigns)).max();
    assert_eq!(most, Some(6));
}
