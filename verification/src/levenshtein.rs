//! Levenshtein edit distance over Unicode code points.

use vstd::prelude::*;
use vstd::arithmetic::div_mod::lemma_fundamental_div_mod;
use crate::error::ConfigError;
use crate::ranking::{
    entries, is_ranking, lemma_ranking_ignores_input_order, lemma_ranking_ignores_range_order,
    lower, rank, retained, scored_by, upper,
};
use crate::ratio::{lemma_real_product, lemma_real_quotient, Ratio};
use crate::score::Score;
use crate::text::{code_points, texts};

verus! {

/// The smaller of two natural numbers.
pub open spec fn min2(x: nat, y: nat) -> nat {
    if x <= y {
        x
    } else {
        y
    }
}

/// The larger of two natural numbers.
pub open spec fn max2(x: nat, y: nat) -> nat {
    if x >= y {
        x
    } else {
        y
    }
}

/// What it costs to turn `x` into `y`: nothing if they are the same code point, one edit if not.
pub open spec fn substitution_cost(x: char, y: char) -> nat {
    if x == y {
        0
    } else {
        1
    }
}

/// The edit distance between `a` and `b`: the least number of single code point
/// insertions, deletions and substitutions that turn `a` into `b`.
///
/// Either one sequence is empty and every code point of the other is inserted or deleted,
/// or the last edit deletes the end of `a`, inserts the end of `b`, or lines the two ends up.
/// That no sequence of edits is shorter, and that one is as short, is proved in `edit_path`.
pub open spec fn edit_distance(a: Seq<char>, b: Seq<char>) -> nat
    decreases a.len() + b.len(),
{
    if a.len() == 0 {
        b.len()
    } else if b.len() == 0 {
        a.len()
    } else {
        min2(
            min2(edit_distance(a.drop_last(), b) + 1, edit_distance(a, b.drop_last()) + 1),
            edit_distance(a.drop_last(), b.drop_last()) + substitution_cost(a.last(), b.last()),
        )
    }
}

/// What a caller who only cares about distances up to `cutoff` is told: the distance itself
/// while it is within the cutoff, and `cutoff + 1` for every distance beyond it.
pub open spec fn capped_distance(a: Seq<char>, b: Seq<char>, cutoff: Option<usize>) -> nat {
    match cutoff {
        None => edit_distance(a, b),
        Some(k) => min2(edit_distance(a, b), (k + 1) as nat),
    }
}

/// A cutoff caps the distance and does nothing else: what is told under a cutoff is the
/// smaller of what is told without one and `cutoff + 1`.
pub proof fn lemma_cutoff_caps(a: Seq<char>, b: Seq<char>, cutoff: usize)
    ensures
        capped_distance(a, b, Some(cutoff)) == min2(
            capped_distance(a, b, None),
            (cutoff + 1) as nat,
        ),
        capped_distance(a, b, None) <= cutoff ==> capped_distance(a, b, Some(cutoff))
            == capped_distance(a, b, None),
        capped_distance(a, b, None) > cutoff ==> capped_distance(a, b, Some(cutoff)) == cutoff + 1,
{
}

/// The distance between the first `i + 1` code points of `a` and the first `j + 1` of `b`,
/// in terms of the three neighbouring prefix pairs.
proof fn lemma_prefix_step(a: Seq<char>, b: Seq<char>, i: int, j: int)
    requires
        0 <= i < a.len(),
        0 <= j < b.len(),
    ensures
        edit_distance(a.take(i + 1), b.take(j + 1)) == min2(
            min2(
                edit_distance(a.take(i), b.take(j + 1)) + 1,
                edit_distance(a.take(i + 1), b.take(j)) + 1,
            ),
            edit_distance(a.take(i), b.take(j)) + substitution_cost(a[i], b[j]),
        ),
{
    assert(a.take(i + 1).drop_last() =~= a.take(i));
    assert(b.take(j + 1).drop_last() =~= b.take(j));
}

/// The distance never exceeds the longer length and never undercuts the difference of the lengths.
pub proof fn lemma_distance_bounds(a: Seq<char>, b: Seq<char>)
    ensures
        edit_distance(a, b) <= max2(a.len(), b.len()),
        edit_distance(a, b) >= a.len() - b.len(),
        edit_distance(a, b) >= b.len() - a.len(),
    decreases a.len() + b.len(),
{
    if a.len() != 0 && b.len() != 0 {
        lemma_distance_bounds(a.drop_last(), b);
        lemma_distance_bounds(a, b.drop_last());
        lemma_distance_bounds(a.drop_last(), b.drop_last());
    }
}

/// The distance is the same in both directions, with or without a cutoff.
pub proof fn lemma_distance_symmetric(a: Seq<char>, b: Seq<char>)
    ensures
        edit_distance(a, b) == edit_distance(b, a),
        forall|cutoff: Option<usize>|
            #[trigger] capped_distance(a, b, cutoff) == capped_distance(b, a, cutoff),
    decreases a.len() + b.len(),
{
    if a.len() != 0 && b.len() != 0 {
        lemma_distance_symmetric(a.drop_last(), b);
        lemma_distance_symmetric(a, b.drop_last());
        lemma_distance_symmetric(a.drop_last(), b.drop_last());
    }
}

/// A sequence is at distance zero from itself.
pub proof fn lemma_distance_to_self(a: Seq<char>)
    ensures
        edit_distance(a, a) == 0,
    decreases a.len(),
{
    if a.len() != 0 {
        lemma_distance_to_self(a.drop_last());
    }
}

/// An empty sequence is as far from another as the other is long.
pub proof fn lemma_distance_from_empty(s: Seq<char>)
    ensures
        edit_distance(Seq::empty(), s) == s.len(),
        edit_distance(s, Seq::empty()) == s.len(),
{
}

/// Only equal sequences are at distance zero.
pub proof fn lemma_distance_zero_means_equal(a: Seq<char>, b: Seq<char>)
    requires
        edit_distance(a, b) == 0,
    ensures
        a == b,
    decreases a.len() + b.len(),
{
    if a.len() != 0 && b.len() != 0 {
        lemma_distance_zero_means_equal(a.drop_last(), b.drop_last());
        assert(a =~= a.drop_last().push(a.last()));
        assert(b =~= b.drop_last().push(b.last()));
    } else {
        assert(a =~= b);
    }
}

/// Once every entry of one row of the distance table is at least `floor`, so is every entry
/// of every later row: extending the first sequence cannot bring a distance back under it.
proof fn lemma_row_floor(a: Seq<char>, b: Seq<char>, row: int, i: int, j: int, floor: int)
    requires
        0 <= row <= i <= a.len(),
        0 <= j <= b.len(),
        forall|c: int|
            0 <= c <= b.len() ==> edit_distance(a.take(row), #[trigger] b.take(c)) >= floor,
    ensures
        edit_distance(a.take(i), b.take(j)) >= floor,
    decreases i, j,
{
    if i == row {
    } else if j == 0 {
        assert(edit_distance(a.take(row), b.take(0)) >= floor);
    } else {
        lemma_row_floor(a, b, row, i - 1, j, floor);
        lemma_row_floor(a, b, row, i, j - 1, floor);
        lemma_row_floor(a, b, row, i - 1, j - 1, floor);
        lemma_prefix_step(a, b, i - 1, j - 1);
    }
}

/// `distance`, or `cutoff + 1` where it lies beyond the cutoff.
fn cap(distance: usize, cutoff: Option<usize>) -> (d: usize)
    ensures
        d == match cutoff {
            None => distance as nat,
            Some(k) => min2(distance as nat, (k + 1) as nat),
        },
{
    match cutoff {
        None => distance,
        Some(k) => if distance > k {
            k + 1
        } else {
            distance
        },
    }
}

/// The edit distance between two sequences of code points, with an optional cutoff.
///
/// Two rows of the distance table are kept. With a cutoff, the work stops as soon as the
/// lengths alone, or a whole row, show that the distance lies beyond it.
pub fn distance_between(a: &Vec<char>, b: &Vec<char>, cutoff: Option<usize>) -> (d: usize)
    ensures
        d == capped_distance(a@, b@, cutoff),
{
    let m: usize = a.len();
    let n: usize = b.len();
    proof {
        lemma_distance_bounds(a@, b@);
    }
    if m == 0 {
        return cap(n, cutoff);
    }
    if n == 0 {
        return cap(m, cutoff);
    }
    if let Some(k) = cutoff {
        let apart: usize = if m > n {
            m - n
        } else {
            n - m
        };
        if apart > k {
            return k + 1;
        }
    }
    let mut prev: Vec<usize> = Vec::new();
    while prev.len() <= n
        invariant
            n == b.len(),
            prev.len() <= n + 1,
            forall|c: int| 0 <= c < prev.len() ==> prev[c] == c,
        decreases n + 1 - prev.len(),
    {
        let c: usize = prev.len();
        prev.push(c);
    }
    let mut cur: Vec<usize> = vec![0; n + 1];
    assert forall|c: int| 0 <= c <= n implies prev[c] == edit_distance(
        a@.take(0),
        #[trigger] b@.take(c),
    ) by {}
    let mut i: usize = 0;
    while i < m
        invariant
            i <= m,
            m == a.len(),
            n == b.len(),
            prev.len() == n + 1,
            cur.len() == n + 1,
            forall|c: int|
                0 <= c <= n ==> prev[c] == edit_distance(a@.take(i as int), #[trigger] b@.take(c)),
        decreases m - i,
    {
        cur.set(0, i + 1);
        let mut row_min: usize = i + 1;
        let mut j: usize = 0;
        while j < n
            invariant
                j <= n,
                i < m,
                m == a.len(),
                n == b.len(),
                prev.len() == n + 1,
                cur.len() == n + 1,
                forall|c: int|
                    0 <= c <= n ==> prev[c] == edit_distance(
                        a@.take(i as int),
                        #[trigger] b@.take(c),
                    ),
                forall|c: int|
                    0 <= c <= j ==> cur[c] == edit_distance(
                        a@.take(i + 1),
                        #[trigger] b@.take(c),
                    ),
                forall|c: int| 0 <= c <= j ==> row_min <= #[trigger] cur[c],
            decreases n - j,
        {
            proof {
                lemma_prefix_step(a@, b@, i as int, j as int);
                lemma_distance_bounds(a@.take(i as int), b@.take(j as int));
                assert(prev[j as int] == edit_distance(a@.take(i as int), b@.take(j as int)));
                assert(prev[j + 1] == edit_distance(a@.take(i as int), b@.take(j + 1)));
                assert(cur[j as int] == edit_distance(a@.take(i + 1), b@.take(j as int)));
            }
            let aligned: usize = if a[i] == b[j] {
                prev[j]
            } else {
                prev[j] + 1
            };
            let beside: usize = if cur[j] < prev[j + 1] {
                cur[j]
            } else {
                prev[j + 1]
            };
            let cell: usize = if beside < aligned {
                beside + 1
            } else {
                aligned
            };
            cur.set(j + 1, cell);
            if cell < row_min {
                row_min = cell;
            }
            j += 1;
        }
        if let Some(k) = cutoff {
            if row_min > k {
                proof {
                    lemma_row_floor(a@, b@, i + 1, m as int, n as int, row_min as int);
                    assert(a@.take(m as int) =~= a@);
                    assert(b@.take(n as int) =~= b@);
                }
                return k + 1;
            }
        }
        core::mem::swap(&mut prev, &mut cur);
        i += 1;
    }
    proof {
        assert(a@.take(m as int) =~= a@);
        assert(b@.take(n as int) =~= b@);
    }
    cap(prev[n], cutoff)
}

/// The Levenshtein distance between `s1` and `s2`, counted in code points.
///
/// With a cutoff, any result above it only says that the distance lies beyond the cutoff.
pub fn levenshtein_distance(s1: &str, s2: &str, cutoff: Option<usize>) -> (d: usize)
    ensures
        d == capped_distance(s1@, s2@, cutoff),
{
    let a = code_points(s1);
    let b = code_points(s2);
    distance_between(&a, &b, cutoff)
}

/// The similarity that goes with a distance, for a pair whose longer text has `longest` code
/// points: `1 - distance / longest`, and 1 where both texts are empty.
pub open spec fn similarity_at(distance: nat, longest: nat) -> Ratio {
    if longest == 0 {
        Ratio::of(1, 1)
    } else {
        Ratio::of(longest - distance, longest as int)
    }
}

/// The Levenshtein similarity of `a` and `b`: 1 for equal texts, 0 for texts with nothing
/// that lines up.
pub open spec fn levenshtein_ratio(a: Seq<char>, b: Seq<char>) -> Ratio {
    similarity_at(edit_distance(a, b), max2(a.len(), b.len()))
}

/// Whether `c` lies between 0 and 1, ends included.
pub open spec fn in_unit_interval(c: Ratio) -> bool {
    0 <= c.num() <= c.den()
}

/// The distance cutoff that stands for a least similarity `c`: `(1 - c) * longest`, rounded up.
pub open spec fn distance_cutoff(c: Ratio, longest: nat) -> nat {
    (((c.den() - c.num()) * longest + c.den() - 1) / c.den()) as nat
}

/// What `levenshtein_similarity` returns on valid input: the similarity that goes with the
/// capped distance, the cap being the distance cutoff that stands for the least similarity.
pub open spec fn capped_similarity(a: Seq<char>, b: Seq<char>, cutoff: Option<Ratio>) -> Ratio {
    let longest = max2(a.len(), b.len());
    match cutoff {
        None => levenshtein_ratio(a, b),
        Some(c) => similarity_at(
            min2(edit_distance(a, b), distance_cutoff(c, longest) + 1),
            longest,
        ),
    }
}

/// `1 - distance / longest` as a number, and 1 where both texts are empty.
pub open spec fn similarity_value(distance: nat, longest: nat) -> real {
    if longest == 0 {
        1real
    } else {
        1real - (distance as real) / (longest as real)
    }
}

/// The number that `levenshtein_similarity` returns on valid input.
pub open spec fn capped_similarity_value(
    a: Seq<char>,
    b: Seq<char>,
    cutoff: Option<Ratio>,
) -> real {
    let longest = max2(a.len(), b.len());
    match cutoff {
        None => similarity_value(edit_distance(a, b), longest),
        Some(c) => similarity_value(
            min2(edit_distance(a, b), distance_cutoff(c, longest) + 1),
            longest,
        ),
    }
}

/// The fraction that goes with a distance stands for `1 - distance / longest`.
pub proof fn lemma_similarity_value(distance: nat, longest: nat)
    requires
        distance <= longest <= usize::MAX,
    ensures
        similarity_at(distance, longest).wf(),
        similarity_at(distance, longest).value() == similarity_value(distance, longest),
{
    if longest == 0 {
        Ratio::lemma_parts_of(1, 1);
        lemma_real_quotient(1real, 1real, 1real);
    } else {
        Ratio::lemma_parts_of(longest - distance, longest as int);
        let d = distance as real;
        let l = longest as real;
        assert((longest - distance) as real == l - d);
        assert((l - d) / l == 1real - d / l) by (nonlinear_arith)
            requires
                l > 0real,
        ;
    }
}

/// The distance cutoff is `(1 - c) * longest` rounded up: the least whole number that is
/// not below it.
pub proof fn lemma_cutoff_rounds_up(c: Ratio, longest: nat)
    requires
        c.den() > 0,
        in_unit_interval(c),
    ensures
        distance_cutoff(c, longest) as real >= (1real - c.value()) * (longest as real),
        distance_cutoff(c, longest) as real - 1real < (1real - c.value()) * (longest as real),
{
    let num = c.num();
    let den = c.den();
    let x = (den - num) * longest;
    assert(x >= 0) by (nonlinear_arith)
        requires
            x == (den - num) * longest,
            den - num >= 0,
            longest >= 0,
    ;
    lemma_rounded_up_covers(x, den);
    let k = (x + den - 1) / den;
    lemma_real_product(den - num, longest as int);
    lemma_real_product(k, den);
    lemma_real_product(k - 1, den);
    let rk = k as real;
    let rn = num as real;
    let rd = den as real;
    let rl = longest as real;
    assert(rk >= (1real - rn / rd) * rl && rk - 1real < (1real - rn / rd) * rl)
        by (nonlinear_arith)
        requires
            rk * rd >= (rd - rn) * rl,
            (rk - 1real) * rd < (rd - rn) * rl,
            rd > 0real,
    ;
}

/// The Levenshtein similarity lies between 0 and 1.
pub proof fn lemma_similarity_in_unit_interval(a: Seq<char>, b: Seq<char>)
    requires
        a.len() <= usize::MAX,
        b.len() <= usize::MAX,
    ensures
        levenshtein_ratio(a, b).wf(),
        in_unit_interval(levenshtein_ratio(a, b)),
        0real <= levenshtein_ratio(a, b).value() <= 1real,
        levenshtein_ratio(a, b).value() == similarity_value(
            edit_distance(a, b),
            max2(a.len(), b.len()),
        ),
{
    lemma_distance_bounds(a, b);
    let longest = max2(a.len(), b.len());
    if longest == 0 {
        Ratio::lemma_parts_of(1, 1);
    } else {
        Ratio::lemma_parts_of(longest - edit_distance(a, b), longest as int);
    }
    Ratio::lemma_value_against_unit(levenshtein_ratio(a, b));
    lemma_similarity_value(edit_distance(a, b), longest);
}

/// A text has similarity 1 to itself.
pub proof fn lemma_similarity_to_self(a: Seq<char>)
    requires
        a.len() <= usize::MAX,
    ensures
        levenshtein_ratio(a, a).num() == levenshtein_ratio(a, a).den(),
        levenshtein_ratio(a, a).value() == 1real,
{
    lemma_distance_to_self(a);
    if a.len() == 0 {
        Ratio::lemma_parts_of(1, 1);
    } else {
        Ratio::lemma_parts_of(a.len() as int, a.len() as int);
    }
    Ratio::lemma_value_against_unit(levenshtein_ratio(a, a));
}

/// The rounded-up quotient is the least whole number of denominators that covers the
/// numerator.
proof fn lemma_rounded_up(x: int, d: int, k: int)
    requires
        x >= 0,
        d > 0,
        k * d >= x,
        (k - 1) * d < x,
    ensures
        k == (x + d - 1) / d,
{
    let q = (x + d - 1) / d;
    let r = (x + d - 1) % d;
    lemma_fundamental_div_mod(x + d - 1, d);
    assert(k == q) by (nonlinear_arith)
        requires
            x + d - 1 == d * q + r,
            0 <= r < d,
            d > 0,
            k * d >= x,
            (k - 1) * d < x,
    ;
}

/// The rounded-up quotient covers the numerator, and one less does not.
proof fn lemma_rounded_up_covers(x: int, d: int)
    requires
        x >= 0,
        d > 0,
    ensures
        ((x + d - 1) / d) * d >= x,
        ((x + d - 1) / d - 1) * d < x,
{
    let q = (x + d - 1) / d;
    let r = (x + d - 1) % d;
    lemma_fundamental_div_mod(x + d - 1, d);
    assert(q * d >= x && (q - 1) * d < x) by (nonlinear_arith)
        requires
            x + d - 1 == d * q + r,
            0 <= r < d,
    ;
}

/// The distance cutoff that stands for the least similarity `c`, for a pair whose longer
/// text has `longest` code points. Where the denominator of `c` leaves no room for the
/// product, the cutoff is found by bisection over exact comparisons instead.
fn cutoff_for(c: &Ratio, longest: usize) -> (k: usize)
    requires
        c.wf(),
        in_unit_interval(*c),
        longest > 0,
    ensures
        k == distance_cutoff(*c, longest as nat),
        k <= longest,
        k * c.den() >= (c.den() - c.num()) * longest,
        (k - 1) * c.den() < (c.den() - c.num()) * longest,
{
    let ghost num = c.num();
    let ghost den = c.den();
    let ghost x = (den - num) * longest;
    if c.denominator() <= i64::MAX as i128 {
        let spread: i128 = c.denominator() - c.numerator();
        proof {
            assert(0 <= spread * longest <= 0x7fff_ffff_ffff_ffff * 0xffff_ffff_ffff_ffff)
                by (nonlinear_arith)
                requires
                    0 <= spread <= 0x7fff_ffff_ffff_ffff,
                    0 <= longest <= 0xffff_ffff_ffff_ffff,
            ;
            assert(spread * longest <= den * longest) by (nonlinear_arith)
                requires
                    0 <= spread <= den,
                    0 <= longest,
            ;
            assert((den * longest + den - 1) / den <= longest) by (nonlinear_arith)
                requires
                    den > 0,
                    longest >= 0,
            ;
            vstd::arithmetic::div_mod::lemma_div_is_ordered(
                x + den - 1,
                den * longest + den - 1,
                den,
            );
        }
        let k: i128 = (spread * (longest as i128) + c.denominator() - 1) / c.denominator();
        proof {
            lemma_rounded_up_covers(x, den);
        }
        return k as usize;
    }
    let mut lo: usize = 0;
    let mut hi: usize = longest;
    proof {
        assert(longest * den >= (den - num) * longest && (den - num) * longest >= 0)
            by (nonlinear_arith)
            requires
                0 <= num <= den,
                longest > 0,
        ;
    }
    while lo < hi
        invariant
            lo <= hi <= longest,
            longest > 0,
            c.wf(),
            num == c.num(),
            den == c.den(),
            x == (den - num) * longest,
            x >= 0,
            hi * den >= x,
            (lo - 1) * den < x,
        decreases hi - lo,
    {
        let mid: usize = lo + (hi - lo) / 2;
        let at_mid: Ratio = Ratio::from_parts((longest - mid) as i128, longest as i128);
        proof {
            assert(at_mid.le(*c) <==> mid * den >= x) by (nonlinear_arith)
                requires
                    at_mid.num() == longest - mid,
                    at_mid.den() == longest,
                    at_mid.le(*c) <==> at_mid.num() * den <= num * at_mid.den(),
                    x == (den - num) * longest,
            ;
        }
        if at_mid.is_le(c) {
            hi = mid;
        } else {
            lo = mid + 1;
        }
    }
    proof {
        lemma_rounded_up(x, den, lo as int);
    }
    lo
}

/// The longer of two lengths.
fn longer(m: usize, n: usize) -> (l: usize)
    ensures
        l == max2(m as nat, n as nat),
{
    if m >= n {
        m
    } else {
        n
    }
}

/// The Levenshtein similarity of `s1` and `s2`: `1 - distance / longest`, where `longest` is
/// the number of code points of the longer text, and 1 where both are empty.
///
/// A cutoff is the least similarity that the caller cares about. It must lie between 0 and
/// 1. The distance is then only followed up to `(1 - cutoff) * longest`, rounded up, and a
/// result below the cutoff only says that the similarity lies below it.
pub fn levenshtein_similarity(s1: &str, s2: &str, cutoff: Option<Ratio>) -> (r: Result<
    Ratio,
    ConfigError,
>)
    ensures
        match cutoff {
            Some(c) if !in_unit_interval(c) => r == Err::<Ratio, ConfigError>(
                ConfigError::CutoffOutOfRange,
            ),
            _ => r == Ok::<Ratio, ConfigError>(capped_similarity(s1@, s2@, cutoff)),
        },
        r matches Ok(x) ==> x.wf() && in_unit_interval(x) && x.value() == capped_similarity_value(
            s1@,
            s2@,
            cutoff,
        ),
{
    if let Some(c) = cutoff {
        let num: i128 = c.numerator();
        let den: i128 = c.denominator();
        if num < 0 || num > den {
            return Err(ConfigError::CutoffOutOfRange);
        }
    }
    let a: Vec<char> = code_points(s1);
    let b: Vec<char> = code_points(s2);
    let longest: usize = longer(a.len(), b.len());
    proof {
        lemma_distance_bounds(a@, b@);
        lemma_similarity_value(0, 0);
    }
    if longest == 0 {
        return Ok(Ratio::from_parts(1, 1));
    }
    let edits: Option<usize> = match cutoff {
        None => None,
        Some(c) => Some(cutoff_for(&c, longest)),
    };
    let d: usize = distance_between(&a, &b, edits);
    proof {
        lemma_similarity_value(d as nat, longest as nat);
    }
    Ok(Ratio::from_parts((longest - d) as i128, longest as i128))
}

/// Every candidate with its Levenshtein similarity to the pattern.
pub open spec fn levenshtein_pool(pattern: Seq<char>, candidates: Seq<Seq<char>>) -> Seq<
    (Seq<char>, real),
> {
    scored_by(candidates, |c: Seq<char>| levenshtein_ratio(pattern, c).value())
}

/// The similarity of `a` and `b` where it is at least `floor`, and otherwise some value
/// below `floor`: the distance is followed only as far as a similarity of `floor` allows.
fn similarity_from(a: &Vec<char>, b: &Vec<char>, floor: &Ratio) -> (r: Ratio)
    ensures
        r.wf(),
        levenshtein_ratio(a@, b@).wf(),
        floor.le(levenshtein_ratio(a@, b@)) ==> r == levenshtein_ratio(a@, b@),
        !floor.le(levenshtein_ratio(a@, b@)) ==> !floor.le(r),
{
    let longest: usize = longer(a.len(), b.len());
    let num: i128 = floor.numerator();
    let den: i128 = floor.denominator();
    proof {
        lemma_distance_bounds(a@, b@);
        lemma_similarity_in_unit_interval(a@, b@);
        Ratio::lemma_parts_of(1, 1);
    }
    if longest == 0 {
        return Ratio::from_parts(1, 1);
    }
    let edits: Option<usize> = if num <= 0 {
        None
    } else if num > den {
        Some(0)
    } else {
        Some(cutoff_for(floor, longest))
    };
    let d: usize = distance_between(a, b, edits);
    let ghost exact = edit_distance(a@, b@);
    proof {
        Ratio::lemma_parts_of(longest - d, longest as int);
        Ratio::lemma_parts_of(longest - exact, longest as int);
        if d != exact {
            let k = edits->0;
            assert(d == k + 1 && exact > k);
            assert((longest - d) * den < num * longest && (longest - exact) * den < num
                * longest) by (nonlinear_arith)
                requires
                    num > den || (k * den >= (den - num) * longest),
                    num > den ==> k == 0,
                    d == k + 1,
                    exact > k,
                    0 < den,
                    0 < num,
                    0 < longest,
                    exact <= longest,
            ;
        }
    }
    Ratio::from_parts((longest - d) as i128, longest as i128)
}

/// The candidates closest to `pattern` by Levenshtein similarity.
///
/// Kept are the candidates whose similarity lies in the range between `min` and `max`, ends
/// included and whichever way round the two are given. They come in order of falling
/// similarity, equal similarities in dictionary order of the texts, and at most `limit` of
/// them are returned. A text that occurs twice among the candidates is ranked twice.
pub fn levenshtein_match(
    pattern: &str,
    strings: Vec<String>,
    min: Ratio,
    max: Ratio,
    limit: usize,
) -> (out: Vec<(String, Score)>)
    ensures
        is_ranking(
            entries(out@),
            retained(levenshtein_pool(pattern@, texts(strings@)), min.value(), max.value()),
            limit as nat,
        ),
        out@.len() <= limit,
{
    let in_order: bool = min.is_le(&max);
    proof {
        Ratio::lemma_order_of_values(min, max);
    }
    let floor: Ratio = if in_order {
        min
    } else {
        max
    };
    let target: Vec<char> = code_points(pattern);
    let ghost candidates = texts(strings@);
    let ghost pool = levenshtein_pool(pattern@, candidates);
    let ghost low_end = lower(min.value(), max.value());
    let ghost high_end = upper(min.value(), max.value());
    let ghost keep = |e: (Seq<char>, real)| low_end <= e.1 <= high_end;
    let mut scored: Vec<(String, Score)> = Vec::new();
    proof {
        assert(entries(scored@) =~= pool.take(0));
    }
    for s in it: strings
        invariant
            it.seq() == strings@,
            target@ == pattern@,
            candidates == texts(strings@),
            pool == levenshtein_pool(pattern@, candidates),
            floor.wf(),
            floor.value() == low_end,
            low_end == lower(min.value(), max.value()),
            high_end == upper(min.value(), max.value()),
            keep == |e: (Seq<char>, real)| low_end <= e.1 <= high_end,
            scored.len() == it.index(),
            entries(scored@).filter(keep) == pool.take(it.index() as int).filter(keep),
    {
        let spelled: Vec<char> = code_points(s.as_str());
        let near: Ratio = similarity_from(&target, &spelled, &floor);
        let score: Score = Score::from_ratio(&near);
        let ghost before = scored@;
        let ghost i = it.index() as int;
        scored.push((s, score));
        proof {
            let mine = (s@, score.value());
            let exact = levenshtein_ratio(pattern@, s@);
            assert(pool[i] == (s@, exact.value()));
            assert(entries(scored@) =~= entries(before).push(mine));
            assert(pool.take(i + 1) =~= pool.take(i).push(pool[i]));
            entries(before).lemma_filter_push(mine, keep);
            pool.take(i).lemma_filter_push(pool[i], keep);
            Ratio::lemma_order_of_values(floor, near);
            Ratio::lemma_order_of_values(floor, exact);
        }
    }
    proof {
        assert(pool.take(strings@.len() as int) =~= pool);
    }
    let out: Vec<(String, Score)> = rank(&scored, min, max, limit);
    proof {
        lemma_same_range(entries(scored@), pool, min.value(), max.value());
    }
    out
}

/// Two pools of which the same entries lie in a range are retained alike.
proof fn lemma_same_range(
    one: Seq<(Seq<char>, real)>,
    other: Seq<(Seq<char>, real)>,
    min: real,
    max: real,
)
    requires
        one.filter(|e: (Seq<char>, real)| lower(min, max) <= e.1 <= upper(min, max))
            == other.filter(|e: (Seq<char>, real)| lower(min, max) <= e.1 <= upper(min, max)),
    ensures
        retained(one, min, max) == retained(other, min, max),
{
}

/// Ranking by Levenshtein similarity does not depend on the order of the candidates:
/// candidates with the same similarity always come in dictionary order.
pub proof fn lemma_levenshtein_match_ignores_input_order(
    pattern: Seq<char>,
    first: Seq<Seq<char>>,
    second: Seq<Seq<char>>,
    min: real,
    max: real,
    limit: nat,
    r1: Seq<(Seq<char>, real)>,
    r2: Seq<(Seq<char>, real)>,
)
    requires
        first.to_multiset() == second.to_multiset(),
        is_ranking(r1, retained(levenshtein_pool(pattern, first), min, max), limit),
        is_ranking(r2, retained(levenshtein_pool(pattern, second), min, max), limit),
    ensures
        r1 == r2,
{
    lemma_ranking_ignores_input_order(
        first,
        second,
        |c: Seq<char>| levenshtein_ratio(pattern, c).value(),
        min,
        max,
        limit,
        r1,
        r2,
    );
}

/// Ranking by Levenshtein similarity does not depend on the order in which the two ends of
/// the score range are given.
pub proof fn lemma_levenshtein_match_ignores_range_order(
    pattern: Seq<char>,
    candidates: Seq<Seq<char>>,
    min: real,
    max: real,
    limit: nat,
    r1: Seq<(Seq<char>, real)>,
    r2: Seq<(Seq<char>, real)>,
)
    requires
        is_ranking(r1, retained(levenshtein_pool(pattern, candidates), min, max), limit),
        is_ranking(r2, retained(levenshtein_pool(pattern, candidates), max, min), limit),
    ensures
        r1 == r2,
{
    lemma_ranking_ignores_range_order(
        candidates,
        |c: Seq<char>| levenshtein_ratio(pattern, c).value(),
        min,
        max,
        limit,
        r1,
        r2,
    );
}

} // verus!
