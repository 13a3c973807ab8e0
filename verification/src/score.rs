//! Scores: exact fractions whose parts may be of any size.

use vstd::prelude::*;
use crate::ratio::{frac, lemma_fraction_order, Ratio};
use crate::wide::{total, Nat};

verus! {

/// A similarity or a distance as an exact fraction.
///
/// The numerator is held as what was gained less what was lost, each a natural number of
/// any size, so that no text is too long and no weight too fine for its score to be exact.
/// A score is not reduced to lowest terms; two scores are compared as the numbers that they
/// stand for.
pub struct Score {
    gain: Nat,
    loss: Nat,
    den: Nat,
}

impl Score {
    /// The numerator.
    pub closed spec fn num(self) -> int {
        self.gain.value() - self.loss.value()
    }

    /// The denominator.
    pub closed spec fn den(self) -> int {
        self.den.value() as int
    }

    /// What holds of every score that executable code can hold: the denominator is positive.
    #[verifier::type_invariant]
    pub closed spec fn wf(self) -> bool {
        self.den.value() > 0
    }

    /// The number that the score stands for.
    pub open spec fn value(self) -> real {
        frac(self.num(), self.den())
    }

    /// The score `(gain - loss) / den`.
    pub(crate) fn from_parts(gain: Nat, loss: Nat, den: Nat) -> (r: Score)
        requires
            den.value() > 0,
        ensures
            r.num() == gain.value() - loss.value(),
            r.den() == den.value(),
            r.den() > 0,
    {
        Score { gain, loss, den }
    }

    /// The score that stands for the same number as `r`, with the same parts.
    pub fn from_ratio(r: &Ratio) -> (s: Score)
        ensures
            s.num() == r.num(),
            s.den() == r.den(),
            s.value() == r.value(),
    {
        let num: i128 = r.numerator();
        let den: i128 = r.denominator();
        let gain: Nat = if num >= 0 {
            Nat::from_u128(num as u128)
        } else {
            Nat::from_u128(0)
        };
        let loss: Nat = if num >= 0 {
            Nat::from_u128(0)
        } else {
            Nat::from_u128((-num) as u128)
        };
        Score { gain, loss, den: Nat::from_u128(den as u128) }
    }

    /// A copy of the score.
    pub fn copy(&self) -> (r: Score)
        ensures
            r.num() == self.num(),
            r.den() == self.den(),
            r.value() == self.value(),
    {
        proof {
            use_type_invariant(self);
        }
        Score { gain: self.gain.copy(), loss: self.loss.copy(), den: self.den.copy() }
    }

    /// The parts of the score as limbs of 32 bits, the least significant first: what the
    /// numerator gained, what it lost, and the denominator.
    pub fn parts(&self) -> (r: (Vec<u32>, Vec<u32>, Vec<u32>))
        ensures
            total(r.0@) - total(r.1@) == self.num(),
            total(r.2@) == self.den(),
            self.den() > 0,
    {
        proof {
            use_type_invariant(self);
        }
        (self.gain.limbs(), self.loss.limbs(), self.den.limbs())
    }

    /// Whether `self <= other` as numbers.
    pub fn is_le(&self, other: &Score) -> (b: bool)
        ensures
            b == (self.value() <= other.value()),
    {
        proof {
            use_type_invariant(self);
            use_type_invariant(other);
        }
        let left: Nat = self.gain.times(&other.den).plus(&other.loss.times(&self.den));
        let right: Nat = other.gain.times(&self.den).plus(&self.loss.times(&other.den));
        proof {
            let (g1, l1, d1) = (
                self.gain.value() as int,
                self.loss.value() as int,
                self.den.value() as int,
            );
            let (g2, l2, d2) = (
                other.gain.value() as int,
                other.loss.value() as int,
                other.den.value() as int,
            );
            assert((g1 * d2 + l2 * d1 <= g2 * d1 + l1 * d2) <==> ((g1 - l1) * d2 <= (g2 - l2) * d1))
                by (nonlinear_arith);
            lemma_fraction_order(g1 - l1, d1, g2 - l2, d2);
        }
        left.at_most(&right)
    }

    /// Whether `self < other` as numbers.
    pub fn is_lt(&self, other: &Score) -> (b: bool)
        ensures
            b == (self.value() < other.value()),
    {
        !other.is_le(self)
    }
}

} // verus!
