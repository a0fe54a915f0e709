//! Exact chances: ratios of whole numbers between zero and one.

use vstd::prelude::*;
use vstd::arithmetic::power::{lemma_pow0, lemma_pow_increases, lemma_pow_positive, pow};
use vstd::std_specs::cmp::PartialEqSpecImpl;

verus! {

/// A ratio of two whole numbers.
pub struct Ratio {
    pub numer: int,
    pub denom: int,
}

impl Ratio {
    /// The ratio is a value between zero and one.
    pub open spec fn is_chance(self) -> bool {
        0 <= self.numer <= self.denom && 0 < self.denom
    }

    /// The ratio is zero.
    pub open spec fn is_zero(self) -> bool {
        self.numer == 0 && self.denom != 0
    }

    /// The two ratios are the same number.
    pub open spec fn same(self, other: Ratio) -> bool {
        self.numer * other.denom == other.numer * self.denom
    }

    /// The product of the two ratios, not reduced.
    pub open spec fn times(self, other: Ratio) -> Ratio {
        Ratio { numer: self.numer * other.numer, denom: self.denom * other.denom }
    }

    /// The ratio multiplied `exp` times with itself, not reduced.
    pub open spec fn powi(self, exp: nat) -> Ratio {
        Ratio { numer: pow(self.numer, exp), denom: pow(self.denom, exp) }
    }
}

/// The chance of an event, as an exact ratio.
#[derive(Debug, Clone, Copy)]
pub struct Probability {
    pub numer: u64,
    pub denom: u64,
}

impl View for Probability {
    type V = Ratio;

    open spec fn view(&self) -> Ratio {
        Ratio { numer: self.numer as int, denom: self.denom as int }
    }
}

impl PartialEq for Probability {
    /// Two chances are equal when they are the same number, whatever their
    /// numerators and denominators.
    fn eq(&self, other: &Probability) -> (same: bool) {
        proof {
            lemma_product_fits(self.numer, other.denom);
            lemma_product_fits(other.numer, self.denom);
        }
        self.numer as u128 * other.denom as u128 == other.numer as u128 * self.denom as u128
    }
}

impl PartialEqSpecImpl for Probability {
    open spec fn obeys_eq_spec() -> bool {
        true
    }

    open spec fn eq_spec(&self, other: &Probability) -> bool {
        self@.same(other@)
    }
}

/// The product of two 64-bit numbers fits in 128 bits.
pub proof fn lemma_product_fits(a: u64, b: u64)
    ensures
        a * b <= u128::MAX,
{
    assert(a * b <= 0xffff_ffff_ffff_ffff * 0xffff_ffff_ffff_ffff) by (nonlinear_arith)
        requires
            0 <= a <= 0xffff_ffff_ffff_ffff,
            0 <= b <= 0xffff_ffff_ffff_ffff,
    ;
}

/// The faces of a die.
pub const DIE_FACES: u64 = 6;

/// The faces of a die that show a dot.
pub const DOT_FACES: u64 = 3;

/// The faces of a die that send a chip to the left.
pub const LEFT_FACES: u64 = 1;

/// The faces of a die that send a chip to the right.
pub const RIGHT_FACES: u64 = 1;

/// The faces of a die that send a chip to the center.
pub const CENTER_FACES: u64 = 1;

/// The chance that a die shows one of `faces` of its faces.
pub open spec fn face_chance(faces: u64) -> Ratio {
    Ratio { numer: faces as int, denom: DIE_FACES as int }
}

/// The chance that a die shows a dot: three faces of six.
pub fn dot_prob() -> (p: Probability)
    ensures
        p@ == face_chance(DOT_FACES),
{
    Probability { numer: DOT_FACES, denom: DIE_FACES }
}

/// The chance that a die sends a chip to the left: one face of six.
pub fn left_prob() -> (p: Probability)
    ensures
        p@ == face_chance(LEFT_FACES),
{
    Probability { numer: LEFT_FACES, denom: DIE_FACES }
}

/// The chance that a die sends a chip to the right: one face of six.
pub fn right_prob() -> (p: Probability)
    ensures
        p@ == face_chance(RIGHT_FACES),
{
    Probability { numer: RIGHT_FACES, denom: DIE_FACES }
}

/// The chance that a die sends a chip to the center: one face of six.
pub fn center_prob() -> (p: Probability)
    ensures
        p@ == face_chance(CENTER_FACES),
{
    Probability { numer: CENTER_FACES, denom: DIE_FACES }
}

impl Probability {
    /// The value lies between zero and one.
    pub open spec fn wf(&self) -> bool {
        self@.is_chance()
    }

    /// The chance of what cannot happen.
    pub fn zero() -> (p: Probability)
        ensures
            p@ == (Ratio { numer: 0, denom: 1 }),
    {
        Probability { numer: 0, denom: 1 }
    }

    /// The chance of what is certain.
    pub fn one() -> (p: Probability)
        ensures
            p@ == (Ratio { numer: 1, denom: 1 }),
    {
        Probability { numer: 1, denom: 1 }
    }

    /// The chance that two independent events both happen.
    pub fn times(&self, other: &Probability) -> (product: Probability)
        requires
            self.wf(),
            other.wf(),
            self.denom * other.denom <= u64::MAX,
        ensures
            product@ == self@.times(other@),
            product.wf(),
    {
        assert(self.numer * other.numer <= self.denom * other.denom) by (nonlinear_arith)
            requires
                self.numer <= self.denom,
                other.numer <= other.denom,
        ;
        assert(0 < self.denom * other.denom) by (nonlinear_arith)
            requires
                0 < self.denom,
                0 < other.denom,
        ;
        Probability { numer: self.numer * other.numer, denom: self.denom * other.denom }
    }

    /// The chance that an event happens `exp` times out of `exp` independent
    /// trials.
    pub fn powi(&self, exp: u32) -> (power: Probability)
        requires
            self.wf(),
            pow(self.denom as int, exp as nat) <= u64::MAX,
        ensures
            power@ == self@.powi(exp as nat),
            power.wf(),
    {
        let mut power = Probability { numer: 1, denom: 1 };
        let mut done: u32 = 0;
        proof {
            lemma_pow0(self.numer as int);
            lemma_pow0(self.denom as int);
        }
        while done < exp
            invariant
                done <= exp,
                self.wf(),
                pow(self.denom as int, exp as nat) <= u64::MAX,
                power@ == self@.powi(done as nat),
                power.wf(),
            decreases exp - done,
        {
            proof {
                let n = self.numer as int;
                let d = self.denom as int;
                let pn = power.numer as int;
                let pd = power.denom as int;
                reveal(pow);
                assert(pow(n, (done + 1) as nat) == n * pn);
                assert(pow(d, (done + 1) as nat) == d * pd);
                lemma_pow_increases(d as nat, (done + 1) as nat, exp as nat);
                lemma_pow_positive(d, (done + 1) as nat);
                assert(n * pn <= d * pd) by (nonlinear_arith)
                    requires
                        0 <= n <= d,
                        0 <= pn <= pd,
                ;
                assert(n * pn == pn * n && d * pd == pd * d) by (nonlinear_arith);
            }
            power = Probability { numer: power.numer * self.numer, denom: power.denom * self.denom };
            done += 1;
        }
        power
    }
}

} // verus!
