use lcr_markov::probability::{
    center_prob, dot_prob, left_prob, right_prob, Probability, CENTER_FACES, DIE_FACES, DOT_FACES,
    LEFT_FACES, RIGHT_FACES,
};

#[test]
fn die_faces_make_a_die() {
    assert_eq!(DIE_FACES, 6);
    assert_eq!(DOT_FACES + LEFT_FACES + RIGHT_FACES + CENTER_FACES, DIE_FACES);
}

#[test]
fn face_chances() {
    assert_eq!(dot_prob(), Probability { numer: 1, denom: 2 });
    assert_eq!(left_prob(), Probability { numer: 1, denom: 6 });
    assert_eq!(right_prob(), Probability { numer: 1, denom: 6 });
    assert_eq!(center_prob(), Probability { numer: 1, denom: 6 });
    assert_eq!(dot_prob().numer, 3);
    assert_eq!(dot_prob().denom, 6);
}

#[test]
fn equality_is_by_value() {
    assert_eq!(Probability { numer: 3, denom: 6 }, Probability { numer: 1, denom: 2 });
    assert_eq!(Probability { numer: 0, denom: 1 }, Probability { numer: 0, denom: 216 });
    assert_ne!(Probability { numer: 1, denom: 6 }, Probability { numer: 1, denom: 2 });
    assert_ne!(Probability::zero(), Probability::one());
    assert_eq!(
        Probability { numer: u64::MAX, denom: u64::MAX },
        Probability { numer: 1, denom: 1 }
    );
}

#[test]
fn zero_and_one() {
    assert_eq!(Probability::zero().numer, 0);
    assert_eq!(Probability::zero().denom, 1);
    assert_eq!(Probability::one().numer, 1);
    assert_eq!(Probability::one().denom, 1);
}

#[test]
fn times_multiplies_without_reducing() {
    let product = dot_prob().times(&center_prob());
    assert_eq!(product.numer, 3);
    assert_eq!(product.denom, 36);
    assert_eq!(product, Probability { numer: 1, denom: 12 });
    assert_eq!(Probability::one().times(&left_prob()), left_prob());
    assert_eq!(Probability::zero().times(&left_prob()), Probability::zero());
}

#[test]
fn powi_multiplies_repeatedly() {
    let cube = dot_prob().powi(3);
    assert_eq!(cube.numer, 27);
    assert_eq!(cube.denom, 216);
    assert_eq!(cube, Probability { numer: 1, denom: 8 });
    let none = center_prob().powi(0);
    assert_eq!(none.numer, 1);
    assert_eq!(none.denom, 1);
    assert_eq!(center_prob().powi(1), center_prob());
    assert_eq!(center_prob().powi(2), Probability { numer: 1, denom: 36 });
    assert_eq!(Probability { numer: 1, denom: 2 }.powi(63).denom, 1u64 << 63);
}
