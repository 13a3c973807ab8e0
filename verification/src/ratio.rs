//! Exact fractions of machine words: thresholds, weights and Levenshtein similarities.

use vstd::prelude::*;
use vstd::arithmetic::div_mod::lemma_fundamental_div_mod;

verus! {

/// A rational number `num / den` with a positive denominator.
///
/// Thresholds, weights and Levenshtein similarities are kept as exact fractions, so that
/// comparing two of them never depends on rounding. A value is not reduced to lowest terms:
/// `1/2` and `2/4` are different values of this type that stand for the same number.
#[derive(Clone, Copy, Debug, PartialEq, Eq)]
pub struct Ratio {
    num: i128,
    den: i128,
}

/// Whether `a / b <= c / d`, for fractions without a sign.
///
/// Parts of 64 bits are multiplied crosswise. Larger parts are never multiplied: their
/// whole parts are compared first and, where those agree, the question is handed on to the
/// reciprocals of the two remainders, whose denominators are smaller.
fn fraction_le(a: u128, b: u128, c: u128, d: u128) -> (r: bool)
    requires
        b > 0,
        d > 0,
    ensures
        r == (a * d <= c * b),
    decreases b + d,
{
    if a <= u64::MAX as u128 && b <= u64::MAX as u128 && c <= u64::MAX as u128 && d
        <= u64::MAX as u128 {
        proof {
            assert(a * d <= 0xffff_ffff_ffff_ffff * 0xffff_ffff_ffff_ffff) by (nonlinear_arith)
                requires
                    0 <= a <= 0xffff_ffff_ffff_ffff,
                    0 <= d <= 0xffff_ffff_ffff_ffff,
            ;
            assert(c * b <= 0xffff_ffff_ffff_ffff * 0xffff_ffff_ffff_ffff) by (nonlinear_arith)
                requires
                    0 <= c <= 0xffff_ffff_ffff_ffff,
                    0 <= b <= 0xffff_ffff_ffff_ffff,
            ;
        }
        return a * d <= c * b;
    }
    let q1: u128 = a / b;
    let r1: u128 = a % b;
    let q2: u128 = c / d;
    let r2: u128 = c % d;
    proof {
        lemma_fundamental_div_mod(a as int, b as int);
        lemma_fundamental_div_mod(c as int, d as int);
        assert(a * d - c * b == (q1 - q2) * (b * d) + (r1 * d - r2 * b)) by (nonlinear_arith)
            requires
                a == b * q1 + r1,
                c == d * q2 + r2,
        ;
        assert(-(b * d) < r1 * d - r2 * b < b * d) by (nonlinear_arith)
            requires
                0 <= r1 < b,
                0 <= r2 < d,
        ;
        assert(q1 < q2 ==> (q1 - q2) * (b * d) <= -(b * d)) by (nonlinear_arith)
            requires
                b > 0,
                d > 0,
        ;
        assert(q1 > q2 ==> (q1 - q2) * (b * d) >= b * d) by (nonlinear_arith)
            requires
                b > 0,
                d > 0,
        ;
        assert(r1 == 0 ==> r1 * d - r2 * b <= 0) by (nonlinear_arith)
            requires
                r2 >= 0,
                b > 0,
        ;
        assert(r2 == 0 && r1 > 0 ==> r1 * d - r2 * b > 0) by (nonlinear_arith)
            requires
                d > 0,
        ;
    }
    if q1 != q2 {
        q1 < q2
    } else if r1 == 0 {
        true
    } else if r2 == 0 {
        false
    } else {
        proof {
            assert(d * r1 == r1 * d && b * r2 == r2 * b) by (nonlinear_arith);
        }
        fraction_le(d, r2, b, r1)
    }
}

/// A product of whole numbers is the same number whether it is taken before or after the
/// factors are read as real numbers.
pub proof fn lemma_real_product(x: int, y: int)
    ensures
        (x * y) as real == (x as real) * (y as real),
{
    assert((x * y) as real == (x as real) * (y as real)) by (nonlinear_arith);
}

/// A quotient of real numbers is what gives the numerator when multiplied by the denominator.
pub proof fn lemma_real_quotient(n: real, d: real, v: real)
    by (nonlinear_arith)
    requires
        d != 0real,
        n == v * d,
    ensures
        n / d == v,
{
}

/// The number `num / den`.
pub open spec fn frac(num: int, den: int) -> real {
    (num as real) / (den as real)
}

/// Two fractions with positive denominators are ordered as their parts are, multiplied
/// crosswise.
pub proof fn lemma_fraction_order(an: int, ad: int, bn: int, bd: int)
    requires
        ad > 0,
        bd > 0,
    ensures
        an * bd <= bn * ad <==> frac(an, ad) <= frac(bn, bd),
        an * bd < bn * ad <==> frac(an, ad) < frac(bn, bd),
        an * bd == bn * ad <==> frac(an, ad) == frac(bn, bd),
{
    let (ran, rad, rbn, rbd) = (an as real, ad as real, bn as real, bd as real);
    lemma_real_product(an, bd);
    lemma_real_product(bn, ad);
    assert((ran * rbd <= rbn * rad <==> ran / rad <= rbn / rbd) && (ran * rbd < rbn * rad <==> ran
        / rad < rbn / rbd) && (ran * rbd == rbn * rad <==> ran / rad == rbn / rbd))
        by (nonlinear_arith)
        requires
            rad > 0real,
            rbd > 0real,
    ;
}

impl Ratio {
    /// The numerator.
    pub closed spec fn num(self) -> int {
        self.num as int
    }

    /// The denominator.
    pub closed spec fn den(self) -> int {
        self.den as int
    }

    /// The value with the given numerator and denominator.
    pub closed spec fn of(num: int, den: int) -> Ratio {
        Ratio { num: num as i128, den: den as i128 }
    }

    /// Whether a numerator and a denominator can be stored: the denominator is positive,
    /// and both fit in 128 bits with their negations.
    pub open spec fn fits(num: int, den: int) -> bool {
        0 < den <= i128::MAX && -i128::MAX <= num <= i128::MAX
    }

    /// What holds of every value that executable code can hold.
    #[verifier::type_invariant]
    pub open spec fn wf(self) -> bool {
        Self::fits(self.num(), self.den())
    }

    /// The number that the value stands for.
    pub open spec fn value(self) -> real {
        frac(self.num(), self.den())
    }

    /// `self <= other` as numbers.
    pub open spec fn le(self, other: Ratio) -> bool {
        self.num() * other.den() <= other.num() * self.den()
    }

    /// `self < other` as numbers.
    pub open spec fn lt(self, other: Ratio) -> bool {
        self.num() * other.den() < other.num() * self.den()
    }

    /// `self` and `other` stand for the same number.
    pub open spec fn same(self, other: Ratio) -> bool {
        self.num() * other.den() == other.num() * self.den()
    }

    /// A value that fits has the parts it was made of.
    pub proof fn lemma_parts_of(num: int, den: int)
        requires
            Self::fits(num, den),
        ensures
            Self::of(num, den).num() == num,
            Self::of(num, den).den() == den,
            Self::of(num, den).wf(),
    {
    }

    /// The order of two values is the order of the numbers that they stand for.
    pub proof fn lemma_order_of_values(a: Ratio, b: Ratio)
        requires
            a.den() > 0,
            b.den() > 0,
        ensures
            a.le(b) <==> a.value() <= b.value(),
            a.lt(b) <==> a.value() < b.value(),
            a.same(b) <==> a.value() == b.value(),
    {
        lemma_fraction_order(a.num(), a.den(), b.num(), b.den());
    }

    /// Where a value stands with respect to 0 and to 1 shows in its parts: its sign is the
    /// sign of the numerator, and it is below, at or above 1 as the numerator is below, at or
    /// above the denominator.
    pub proof fn lemma_value_against_unit(r: Ratio)
        requires
            r.den() > 0,
        ensures
            r.num() >= 0 <==> r.value() >= 0real,
            r.num() == 0 <==> r.value() == 0real,
            r.num() <= r.den() <==> r.value() <= 1real,
            r.num() == r.den() <==> r.value() == 1real,
    {
        let n = r.num() as real;
        let d = r.den() as real;
        assert((n >= 0real <==> n / d >= 0real) && (n == 0real <==> n / d == 0real) && (n <= d
            <==> n / d <= 1real) && (n == d <==> n / d == 1real)) by (nonlinear_arith)
            requires
                d > 0real,
        ;
    }

    /// The value `num / den`, or nothing where it cannot be stored: the denominator must be
    /// positive and the numerator must have a negation.
    pub fn new(num: i128, den: i128) -> (r: Option<Ratio>)
        ensures
            r is Some <==> Self::fits(num as int, den as int),
            r matches Some(x) ==> x == Self::of(num as int, den as int),
    {
        if den > 0 && num > i128::MIN {
            Some(Ratio { num, den })
        } else {
            None
        }
    }

    /// The value `num / den` for parts that are known to fit.
    pub(crate) fn from_parts(num: i128, den: i128) -> (r: Ratio)
        requires
            Self::fits(num as int, den as int),
        ensures
            r == Self::of(num as int, den as int),
            r.num() == num,
            r.den() == den,
    {
        Ratio { num, den }
    }

    /// The numerator.
    pub fn numerator(&self) -> (n: i128)
        ensures
            n == self.num(),
            self.wf(),
    {
        proof {
            use_type_invariant(self);
        }
        self.num
    }

    /// The denominator, which is positive.
    pub fn denominator(&self) -> (d: i128)
        ensures
            d == self.den(),
            self.wf(),
    {
        proof {
            use_type_invariant(self);
        }
        self.den
    }

    /// Whether `self <= other` as numbers. Exact for all values, with no overflow.
    pub fn is_le(&self, other: &Ratio) -> (b: bool)
        ensures
            b == self.le(*other),
            self.wf(),
            other.wf(),
    {
        proof {
            use_type_invariant(self);
            use_type_invariant(other);
        }
        let a: i128 = self.num;
        let b: i128 = self.den;
        let c: i128 = other.num;
        let d: i128 = other.den;
        proof {
            assert(a < 0 ==> a * d < 0) by (nonlinear_arith)
                requires
                    d > 0,
            ;
            assert(a >= 0 ==> a * d >= 0) by (nonlinear_arith)
                requires
                    d > 0,
            ;
            assert(c < 0 ==> c * b < 0) by (nonlinear_arith)
                requires
                    b > 0,
            ;
            assert(c >= 0 ==> c * b >= 0) by (nonlinear_arith)
                requires
                    b > 0,
            ;
        }
        if a < 0 {
            if c < 0 {
                proof {
                    assert(((-c) * b <= (-a) * d) == (a * d <= c * b)) by (nonlinear_arith);
                }
                fraction_le((-c) as u128, d as u128, (-a) as u128, b as u128)
            } else {
                true
            }
        } else {
            if c < 0 {
                false
            } else {
                fraction_le(a as u128, b as u128, c as u128, d as u128)
            }
        }
    }

    /// Whether `self < other` as numbers.
    pub fn is_lt(&self, other: &Ratio) -> (b: bool)
        ensures
            b == self.lt(*other),
            self.wf(),
            other.wf(),
    {
        !other.is_le(self)
    }
}

} // verus!
