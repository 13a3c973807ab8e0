//! Jaro-Winkler similarity over Unicode code points.

use vstd::prelude::*;
use crate::error::ConfigError;
use crate::ranking::{
    entries, is_ranking, lemma_ranking_ignores_input_order, lemma_ranking_ignores_range_order, rank,
    retained, scored_by,
};
use crate::ratio::{frac, lemma_real_product, lemma_real_quotient, Ratio};
use crate::score::Score;
use crate::text::{code_points, texts};
use crate::wide::Nat;

verus! {

/// How far apart two equal code points may stand and still match: half the longer length,
/// less one, and never less than zero.
pub open spec fn match_radius(len1: nat, len2: nat) -> nat {
    let half = (if len1 >= len2 {
        len1
    } else {
        len2
    }) / 2;
    if half >= 1 {
        (half - 1) as nat
    } else {
        0
    }
}

/// For each position of a text of `n` code points, whether it is among `positions`.
pub open spec fn marks(positions: Seq<int>, n: nat) -> Seq<bool> {
    Seq::new(n, |j: int| positions.contains(j))
}

/// The first position in `lo..hi` of `b` that is not taken yet and holds the code point `c`.
pub open spec fn first_free(b: Seq<char>, taken: Seq<bool>, c: char, lo: int, hi: int) -> Option<
    int,
>
    decreases hi - lo,
{
    if lo >= hi {
        None
    } else if !taken[lo] && b[lo] == c {
        Some(lo)
    } else {
        first_free(b, taken, c, lo + 1, hi)
    }
}

/// Where the window around position `i` begins.
pub open spec fn window_start(i: int, radius: nat) -> int {
    if i > radius {
        i - radius
    } else {
        0
    }
}

/// Where the window around position `i` ends, in a text of `n` code points.
pub open spec fn window_end(i: int, radius: nat, n: nat) -> int {
    if i + radius + 1 <= n {
        i + radius + 1
    } else {
        n as int
    }
}

/// The positions of `b` that the first `upto` code points of `a` are matched with, in the
/// order of `a`.
///
/// Each code point of `a` takes the first position of `b` within `radius` of its own that
/// holds the same code point and that no earlier code point of `a` has taken. A code point
/// that finds none stays unmatched.
pub open spec fn matched_positions(a: Seq<char>, b: Seq<char>, radius: nat, upto: nat) -> Seq<int>
    decreases upto,
{
    if upto == 0 {
        Seq::empty()
    } else {
        let i = upto - 1;
        let before = matched_positions(a, b, radius, i as nat);
        match first_free(
            b,
            marks(before, b.len()),
            a[i],
            window_start(i, radius),
            window_end(i, radius, b.len()),
        ) {
            Some(j) => before.push(j),
            None => before,
        }
    }
}

/// How many entries of `s` are smaller than `v`.
pub open spec fn smaller_in(s: Seq<int>, v: int) -> nat
    decreases s.len(),
{
    if s.len() == 0 {
        0
    } else {
        smaller_in(s.drop_last(), v) + if s.last() < v {
            1nat
        } else {
            0nat
        }
    }
}

/// How many pairs of entries of `s` stand out of order, the larger before the smaller. Each
/// such pair counts once.
pub open spec fn inversions(s: Seq<int>) -> nat
    decreases s.len(),
{
    if s.len() == 0 {
        0
    } else {
        smaller_in(s.drop_first(), s[0]) + inversions(s.drop_first())
    }
}

/// The number of matches between `a` and `b` within `radius`.
pub open spec fn match_count(a: Seq<char>, b: Seq<char>, radius: nat) -> nat {
    matched_positions(a, b, radius, a.len()).len()
}

/// The number of transpositions between `a` and `b` within `radius`: the pairs of matches
/// whose order in `a` is the reverse of their order in `b`.
pub open spec fn transposition_count(a: Seq<char>, b: Seq<char>, radius: nat) -> nat {
    inversions(matched_positions(a, b, radius, a.len()))
}

/// How many of the leading positions, up to `max_prefix` of them, hold the same code point
/// in `a` and in `b`, counted until the first that does not.
pub open spec fn common_prefix(a: Seq<char>, b: Seq<char>, max_prefix: nat) -> nat
    decreases a.len(),
{
    if max_prefix == 0 || a.len() == 0 || b.len() == 0 || a[0] != b[0] {
        0
    } else {
        1 + common_prefix(a.drop_first(), b.drop_first(), (max_prefix - 1) as nat)
    }
}

/// The first `upto` code points of `a` are matched with positions of `b`, at most one each.
proof fn lemma_matched_in_bounds(a: Seq<char>, b: Seq<char>, radius: nat, upto: nat)
    ensures
        matched_positions(a, b, radius, upto).len() <= upto,
        forall|k: int|
            0 <= k < matched_positions(a, b, radius, upto).len() ==> 0 <= (
            #[trigger] matched_positions(a, b, radius, upto)[k]) < b.len(),
    decreases upto,
{
    if upto > 0 {
        let i = upto - 1;
        lemma_matched_in_bounds(a, b, radius, i as nat);
        let before = matched_positions(a, b, radius, i as nat);
        lemma_first_free(
            b,
            marks(before, b.len()),
            a[i],
            window_start(i, radius),
            window_end(i, radius, b.len()),
        );
    }
}

/// What `first_free` finds lies in the window, is free and holds the code point looked for;
/// and where it finds nothing, no position of the window does.
proof fn lemma_first_free(b: Seq<char>, taken: Seq<bool>, c: char, lo: int, hi: int)
    ensures
        match first_free(b, taken, c, lo, hi) {
            Some(j) => lo <= j < hi && !taken[j] && b[j] == c && forall|k: int|
                lo <= k < j ==> taken[k] || b[k] != c,
            None => forall|k: int| lo <= k < hi ==> taken[k] || b[k] != c,
        },
    decreases hi - lo,
{
    if lo < hi && !(!taken[lo] && b[lo] == c) {
        lemma_first_free(b, taken, c, lo + 1, hi);
    }
}

/// The first free position in `lo..hi` of `b` that holds `c`.
fn find_free(b: &Vec<char>, taken: &Vec<bool>, c: char, lo: usize, hi: usize) -> (r: Option<usize>)
    requires
        taken.len() == b.len(),
        hi <= b.len(),
    ensures
        match r {
            Some(j) => lo <= j < hi && first_free(b@, taken@, c, lo as int, hi as int) == Some(
                j as int,
            ),
            None => first_free(b@, taken@, c, lo as int, hi as int) is None,
        },
{
    let mut j: usize = lo;
    while j < hi
        invariant
            lo <= j,
            hi <= b.len(),
            taken.len() == b.len(),
            first_free(b@, taken@, c, lo as int, hi as int) == first_free(
                b@,
                taken@,
                c,
                j as int,
                hi as int,
            ),
        decreases hi - j,
    {
        if !taken[j] && b[j] == c {
            return Some(j);
        }
        j += 1;
    }
    None
}

/// Counts the pairs of entries of `found` that stand out of order.
fn count_inversions(found: &Vec<usize>) -> (t: u128)
    ensures
        t == inversions(found@.map_values(|j: usize| j as int)),
        t <= found@.len() * found@.len(),
{
    let ghost s = found@.map_values(|j: usize| j as int);
    let n: usize = found.len();
    let mut t: u128 = 0;
    let mut i: usize = 0;
    proof {
        assert(s.skip(0) =~= s);
    }
    while i < n
        invariant
            i <= n,
            n == found.len(),
            s == found@.map_values(|j: usize| j as int),
            t + inversions(s.skip(i as int)) == inversions(s),
            t <= i * n,
        decreases n - i,
    {
        let ghost at_row = t;
        let mut j: usize = i + 1;
        proof {
            assert(s.subrange(i + 1, j as int) =~= Seq::<int>::empty());
            assert(i * n + n == (i + 1) * n) by (nonlinear_arith);
            assert((i + 1) * n <= n * n) by (nonlinear_arith)
                requires
                    i < n,
            ;
            assert(n * n <= 0xffff_ffff_ffff_ffff * 0xffff_ffff_ffff_ffff) by (nonlinear_arith)
                requires
                    n <= 0xffff_ffff_ffff_ffff,
            ;
        }
        while j < n
            invariant
                i < j <= n,
                n == found.len(),
                s == found@.map_values(|j: usize| j as int),
                t == at_row + smaller_in(s.subrange(i + 1, j as int), s[i as int]),
                at_row <= i * n,
                t <= i * n + (j - i - 1),
                i * n + n <= 0xffff_ffff_ffff_ffff * 0xffff_ffff_ffff_ffff,
            decreases n - j,
        {
            proof {
                assert(s.subrange(i + 1, j + 1).drop_last() =~= s.subrange(i + 1, j as int));
            }
            if found[i] > found[j] {
                t += 1;
            }
            j += 1;
        }
        proof {
            assert(s.skip(i as int).drop_first() =~= s.skip(i + 1));
            assert(s.subrange(i + 1, n as int) =~= s.skip(i + 1));
            assert(i * n + n == (i + 1) * n) by (nonlinear_arith);
        }
        i += 1;
    }
    proof {
        assert(s.skip(n as int) =~= Seq::<int>::empty());
    }
    t
}

/// The number of matches and of transpositions between two sequences of code points, for
/// a window of `max_distance` positions to either side.
pub fn matching_between(a: &Vec<char>, b: &Vec<char>, max_distance: usize) -> (r: (usize, u128))
    ensures
        r.0 == match_count(a@, b@, max_distance as nat),
        r.1 == transposition_count(a@, b@, max_distance as nat),
        r.0 <= a@.len(),
        r.1 <= r.0 * r.0,
{
    let m: usize = a.len();
    let n: usize = b.len();
    let ghost radius = max_distance as nat;
    let mut taken: Vec<bool> = vec![false; n];
    let mut found: Vec<usize> = Vec::new();
    let mut i: usize = 0;
    proof {
        assert(taken@ =~= marks(matched_positions(a@, b@, radius, 0), n as nat));
        assert(found@.map_values(|j: usize| j as int) =~= matched_positions(a@, b@, radius, 0));
    }
    while i < m
        invariant
            i <= m,
            m == a.len(),
            n == b.len(),
            radius == max_distance as nat,
            taken.len() == n,
            taken@ == marks(matched_positions(a@, b@, radius, i as nat), n as nat),
            found@.map_values(|j: usize| j as int) == matched_positions(a@, b@, radius, i as nat),
        decreases m - i,
    {
        let start: usize = if i > max_distance {
            i - max_distance
        } else {
            0
        };
        let end: usize = if i >= n || max_distance >= n - i - 1 {
            n
        } else {
            i + max_distance + 1
        };
        let ghost before = matched_positions(a@, b@, radius, i as nat);
        let ghost old_found = found@;
        let ghost old_taken = taken@;
        proof {
            lemma_matched_in_bounds(a@, b@, radius, i as nat);
            assert(end == window_end(i as int, radius, n as nat));
            assert(start == window_start(i as int, radius));
        }
        if start < end {
            match find_free(b, &taken, a[i], start, end) {
                Some(j) => {
                    taken.set(j, true);
                    found.push(j);
                    proof {
                        assert(found@.map_values(|j: usize| j as int) =~= old_found.map_values(
                            |j: usize| j as int,
                        ).push(j as int));
                        assert(taken@ =~= marks(before.push(j as int), n as nat)) by {
                            assert forall|k: int| 0 <= k < n implies taken@[k] == before.push(
                                j as int,
                            ).contains(k) by {
                                vstd::seq_lib::lemma_seq_contains_after_push(before, j as int, k);
                                assert(old_taken[k] == before.contains(k));
                            }
                        }
                    }
                },
                None => {},
            }
        } else {
            proof {
                assert(first_free(b@, taken@, a@[i as int], start as int, end as int) is None);
            }
        }
        i += 1;
    }
    proof {
        lemma_matched_in_bounds(a@, b@, radius, m as nat);
    }
    let t: u128 = count_inversions(&found);
    (found.len(), t)
}

/// The number of matches and of transpositions between `a` and `b`, for a window of
/// `max_distance` positions to either side.
///
/// A code point of `a` matches the first equal code point of `b` that stands within the
/// window around its own position and is not matched yet. A transposition is a pair of
/// matches that stand in one order in `a` and in the other in `b`; each pair counts once.
pub fn matching_characters(a: &str, b: &str, max_distance: usize) -> (r: (usize, u128))
    ensures
        r.0 == match_count(a@, b@, max_distance as nat),
        r.1 == transposition_count(a@, b@, max_distance as nat),
{
    let x: Vec<char> = code_points(a);
    let y: Vec<char> = code_points(b);
    matching_between(&x, &y, max_distance)
}

/// The length of the common prefix of two sequences of code points, up to `max_prefix`.
pub fn common_prefix_len(a: &Vec<char>, b: &Vec<char>, max_prefix: usize) -> (l: usize)
    ensures
        l == common_prefix(a@, b@, max_prefix as nat),
        l <= max_prefix,
        l <= a@.len(),
        l <= b@.len(),
{
    let mut i: usize = 0;
    proof {
        assert(a@.skip(0) =~= a@);
        assert(b@.skip(0) =~= b@);
    }
    while i < max_prefix && i < a.len() && i < b.len() && a[i] == b[i]
        invariant
            i <= max_prefix,
            i <= a.len(),
            i <= b.len(),
            common_prefix(a@, b@, max_prefix as nat) == i + common_prefix(
                a@.skip(i as int),
                b@.skip(i as int),
                (max_prefix - i) as nat,
            ),
        decreases a.len() - i,
    {
        proof {
            assert(a@.skip(i as int).drop_first() =~= a@.skip(i + 1));
            assert(b@.skip(i as int).drop_first() =~= b@.skip(i + 1));
        }
        i += 1;
    }
    i
}

/// Whether `w` lies between 0 and 1/4, ends included.
pub open spec fn valid_prefix_weight(w: Ratio) -> bool {
    0 <= w.num() && 4 * w.num() <= w.den()
}

/// The numerator of the Jaro similarity `(m / len1 + m / len2 + (m - t) / m) / 3` over the
/// denominator `3 * m * len1 * len2`, for `m` matches and `t` transpositions.
pub open spec fn jaro_num(m: int, t: int, len1: int, len2: int) -> int {
    (m * m) * (len1 + len2) + (m - t) * (len1 * len2)
}

/// The denominator over which `jaro_num` stands.
pub open spec fn jaro_den(m: int, len1: int, len2: int) -> int {
    (3 * m) * (len1 * len2)
}

/// The Jaro similarity `(m / len1 + m / len2 + (m - t) / m) / 3` as a number, for `m`
/// matches and `t` transpositions between texts of `len1` and `len2` code points.
pub open spec fn jaro_value(m: int, t: int, len1: int, len2: int) -> real {
    ((m as real) / (len1 as real) + (m as real) / (len2 as real) + ((m - t) as real) / (
    m as real)) / 3real
}

/// The Jaro-Winkler similarity as a number: `jaro + prefix * w * (1 - jaro)`, where `jaro`
/// is the Jaro similarity, `prefix` the length of the common prefix that counts, and `w`
/// the prefix weight. It is 1 for two empty texts, and 0 where there is no match.
pub open spec fn jaro_winkler_value(a: Seq<char>, b: Seq<char>, w: real, max_prefix: nat) -> real {
    let radius = match_radius(a.len(), b.len());
    if a.len() == 0 && b.len() == 0 {
        1real
    } else if a.len() == 0 || b.len() == 0 || match_count(a, b, radius) == 0 {
        0real
    } else {
        let jaro = jaro_value(
            match_count(a, b, radius) as int,
            transposition_count(a, b, radius) as int,
            a.len() as int,
            b.len() as int,
        );
        jaro + (common_prefix(a, b, max_prefix) as real) * w * (1real - jaro)
    }
}

/// The whole number 1 or 0 as a score.
fn whole(one: bool) -> (r: Score)
    ensures
        r.value() == if one {
            1real
        } else {
            0real
        },
{
    proof {
        lemma_real_quotient(1real, 1real, 1real);
        lemma_real_quotient(0real, 1real, 0real);
    }
    let gain: Nat = if one {
        Nat::from_u128(1)
    } else {
        Nat::from_u128(0)
    };
    Score::from_parts(gain, Nat::from_u128(0), Nat::from_u128(1))
}

/// The natural numbers behind the Jaro similarity of `m` matches and `t` transpositions:
/// what the numerator gains, what it loses, what it lacks of the denominator, and the
/// denominator. None of them is bounded by a machine word.
fn jaro_parts(m: usize, t: u128, len1: usize, len2: usize) -> (r: (Nat, Nat, Nat, Nat))
    requires
        0 < m <= len1,
        m <= len2,
    ensures
        r.0.value() - r.1.value() == jaro_num(m as int, t as int, len1 as int, len2 as int),
        r.2.value() == jaro_den(m as int, len1 as int, len2 as int) - jaro_num(
            m as int,
            t as int,
            len1 as int,
            len2 as int,
        ),
        r.3.value() == jaro_den(m as int, len1 as int, len2 as int),
{
    proof {
        lemma_word_product(m as int, m as int);
        lemma_word_product(len1 as int, len2 as int);
        lemma_word_product(len1 as int, len2 - m);
        lemma_word_product(len2 as int, len1 - m);
    }
    let matches: u128 = m as u128;
    let squared: u128 = matches * matches;
    let lengths: u128 = len1 as u128 + len2 as u128;
    let pairs: u128 = (len1 as u128) * (len2 as u128);
    let short1: u128 = (len1 as u128) * ((len2 - m) as u128);
    let short2: u128 = (len2 as u128) * ((len1 - m) as u128);
    let wide_pairs: Nat = Nat::from_u128(pairs);
    let wide_matches: Nat = Nat::from_u128(matches);
    let kept: Nat = Nat::from_u128(squared).times(&Nat::from_u128(lengths)).plus(
        &wide_matches.times(&wide_pairs),
    );
    let lost: Nat = Nat::from_u128(t).times(&wide_pairs);
    let unmatched: Nat = Nat::from_u128(short1).plus(&Nat::from_u128(short2));
    let missing: Nat = wide_matches.times(&unmatched).plus(&lost);
    let den: Nat = Nat::from_u128(3 * matches).times(&wide_pairs);
    proof {
        let (im, it, i1, i2) = (m as int, t as int, len1 as int, len2 as int);
        assert((im * im) * (i1 + i2) + im * (i1 * i2) - it * (i1 * i2) == (im * im) * (i1 + i2) + (
        im - it) * (i1 * i2)) by (nonlinear_arith);
        assert(im * (i1 * (i2 - im) + i2 * (i1 - im)) + it * (i1 * i2) == (3 * im) * (i1 * i2) - ((
        im * im) * (i1 + i2) + (im - it) * (i1 * i2))) by (nonlinear_arith);
    }
    (kept, lost, missing, den)
}

/// A product of two numbers of 64 bits fits 128 bits.
proof fn lemma_word_product(x: int, y: int)
    by (nonlinear_arith)
    requires
        0 <= x <= 0xffff_ffff_ffff_ffff,
        0 <= y <= 0xffff_ffff_ffff_ffff,
    ensures
        0 <= x * y <= 0xffff_ffff_ffff_fffe_0000_0000_0000_0001,
{
}

/// Half the longer length, less one, and never less than zero.
fn radius_for(len1: usize, len2: usize) -> (r: usize)
    ensures
        r == match_radius(len1 as nat, len2 as nat),
{
    let half: usize = (if len1 >= len2 {
        len1
    } else {
        len2
    }) / 2;
    if half >= 1 {
        half - 1
    } else {
        0
    }
}

/// The similarity of two sequences of code points, or their distance where `far` is set,
/// for a prefix weight that is valid.
fn score_between(a: &Vec<char>, b: &Vec<char>, w: &Ratio, max_prefix: usize, far: bool) -> (r:
    Score)
    requires
        valid_prefix_weight(*w),
        w.wf(),
    ensures
        r.value() == if far {
            1real - jaro_winkler_value(a@, b@, w.value(), max_prefix as nat)
        } else {
            jaro_winkler_value(a@, b@, w.value(), max_prefix as nat)
        },
{
    if a.len() == 0 && b.len() == 0 {
        return whole(!far);
    }
    if a.len() == 0 || b.len() == 0 {
        return whole(far);
    }
    let radius: usize = radius_for(a.len(), b.len());
    let (m, t) = matching_between(a, b, radius);
    if m == 0 {
        return whole(far);
    }
    proof {
        lemma_match_count_bounds(a@, b@, radius as nat);
    }
    let prefix: usize = common_prefix_len(a, b, max_prefix);
    let (kept, lost, missing, den) = jaro_parts(m, t, a.len(), b.len());
    let wn: Nat = Nat::from_u128(w.numerator() as u128);
    let wd: Nat = Nat::from_u128(w.denominator() as u128);
    let boost: Nat = Nat::from_u128(prefix as u128).times(&wn).times(&missing);
    let whole_den: Nat = den.times(&wd);
    let ghost jn = jaro_num(m as int, t as int, a.len() as int, b.len() as int);
    let ghost jd = jaro_den(m as int, a.len() as int, b.len() as int);
    let ghost num = jn * w.den() + (prefix * w.num()) * (jd - jn);
    proof {
        lemma_score_value(
            m as int,
            t as int,
            a.len() as int,
            b.len() as int,
            prefix as int,
            w.num(),
            w.den(),
        );
    }
    if far {
        let gain: Nat = missing.times(&wd);
        proof {
            let (g, p, d) = (jd - jn, prefix * w.num(), w.den());
            assert(g * d - p * g == jd * d - (jn * d + p * g)) by (nonlinear_arith)
                requires
                    g == jd - jn,
            ;
            lemma_rest_over(num as real, (jd * w.den()) as real);
        }
        Score::from_parts(gain, boost, whole_den)
    } else {
        let gain: Nat = kept.times(&wd).plus(&boost);
        let loss: Nat = lost.times(&wd);
        proof {
            let (k, l, d) = (kept.value() as int, lost.value() as int, w.den());
            assert(k * d - l * d == (k - l) * d) by (nonlinear_arith);
        }
        Score::from_parts(gain, loss, whole_den)
    }
}

/// Whether `w` lies between 0 and 1/4.
fn weight_is_valid(w: &Ratio) -> (ok: bool)
    ensures
        ok == valid_prefix_weight(*w),
        w.wf(),
{
    let wn: i128 = w.numerator();
    let wd: i128 = w.denominator();
    wn >= 0 && wn <= wd / 4
}

/// The Jaro-Winkler similarity of `s1` and `s2`.
///
/// `prefix_weight` says how much a common prefix counts and must lie between 0 and 1/4;
/// `max_prefix` is the longest common prefix that counts. The result is
/// `jaro + prefix * prefix_weight * (1 - jaro)`, where `jaro` is
/// `(m / len1 + m / len2 + (m - t) / m) / 3` for `m` matches and `t` transpositions. It is
/// exact for texts of any length and for every valid weight.
pub fn jaro_winkler_similarity(s1: &str, s2: &str, prefix_weight: Ratio, max_prefix: usize) -> (r:
    Result<Score, ConfigError>)
    ensures
        valid_prefix_weight(prefix_weight) ==> (r matches Ok(x) && x.value() == jaro_winkler_value(
            s1@,
            s2@,
            prefix_weight.value(),
            max_prefix as nat,
        )),
        !valid_prefix_weight(prefix_weight) ==> (r matches Err(e) && e
            == ConfigError::PrefixWeightOutOfRange),
{
    if !weight_is_valid(&prefix_weight) {
        return Err(ConfigError::PrefixWeightOutOfRange);
    }
    let a: Vec<char> = code_points(s1);
    let b: Vec<char> = code_points(s2);
    Ok(score_between(&a, &b, &prefix_weight, max_prefix, false))
}

/// The Jaro-Winkler distance of `s1` and `s2`: 1 less the similarity.
pub fn jaro_winkler_distance(s1: &str, s2: &str, prefix_weight: Ratio, max_prefix: usize) -> (r:
    Result<Score, ConfigError>)
    ensures
        valid_prefix_weight(prefix_weight) ==> (r matches Ok(x) && x.value() == 1real
            - jaro_winkler_value(s1@, s2@, prefix_weight.value(), max_prefix as nat)),
        !valid_prefix_weight(prefix_weight) ==> (r matches Err(e) && e
            == ConfigError::PrefixWeightOutOfRange),
{
    if !weight_is_valid(&prefix_weight) {
        return Err(ConfigError::PrefixWeightOutOfRange);
    }
    let a: Vec<char> = code_points(s1);
    let b: Vec<char> = code_points(s2);
    Ok(score_between(&a, &b, &prefix_weight, max_prefix, true))
}

/// Every candidate with its Jaro-Winkler similarity to the pattern.
pub open spec fn jaro_winkler_pool(
    pattern: Seq<char>,
    candidates: Seq<Seq<char>>,
    w: real,
    max_prefix: nat,
) -> Seq<(Seq<char>, real)> {
    scored_by(candidates, |c: Seq<char>| jaro_winkler_value(pattern, c, w, max_prefix))
}

/// The candidates closest to `pattern` by Jaro-Winkler similarity.
///
/// Kept are the candidates whose similarity lies in the range between `min` and `max`, ends
/// included and whichever way round the two are given. They come in order of falling
/// similarity, equal similarities in dictionary order of the texts, and at most `limit` of
/// them are returned. A text that occurs twice among the candidates is ranked twice.
pub fn jaro_winkler_match(
    pattern: &str,
    strings: Vec<String>,
    min: Ratio,
    max: Ratio,
    limit: usize,
    prefix_weight: Ratio,
    max_prefix: usize,
) -> (r: Result<Vec<(String, Score)>, ConfigError>)
    ensures
        valid_prefix_weight(prefix_weight) ==> (r matches Ok(out) && out@.len() <= limit
            && is_ranking(
            entries(out@),
            retained(
                jaro_winkler_pool(
                    pattern@,
                    texts(strings@),
                    prefix_weight.value(),
                    max_prefix as nat,
                ),
                min.value(),
                max.value(),
            ),
            limit as nat,
        )),
        !valid_prefix_weight(prefix_weight) ==> (r matches Err(e) && e
            == ConfigError::PrefixWeightOutOfRange),
{
    if !weight_is_valid(&prefix_weight) {
        return Err(ConfigError::PrefixWeightOutOfRange);
    }
    let target: Vec<char> = code_points(pattern);
    let ghost pool = jaro_winkler_pool(
        pattern@,
        texts(strings@),
        prefix_weight.value(),
        max_prefix as nat,
    );
    let mut scored: Vec<(String, Score)> = Vec::new();
    proof {
        assert(entries(scored@) =~= pool.take(0));
    }
    for s in it: strings
        invariant
            it.seq() == strings@,
            target@ == pattern@,
            valid_prefix_weight(prefix_weight),
            prefix_weight.wf(),
            pool == jaro_winkler_pool(
                pattern@,
                texts(strings@),
                prefix_weight.value(),
                max_prefix as nat,
            ),
            scored.len() == it.index(),
            entries(scored@) == pool.take(it.index() as int),
    {
        let ghost i = it.index() as int;
        let ghost before = scored@;
        let spelled: Vec<char> = code_points(s.as_str());
        let score: Score = score_between(&target, &spelled, &prefix_weight, max_prefix, false);
        scored.push((s, score));
        proof {
            assert(entries(scored@) =~= entries(before).push((s@, score.value())));
            assert(pool.take(i + 1) =~= pool.take(i).push(pool[i]));
        }
    }
    proof {
        assert(pool.take(strings@.len() as int) =~= pool);
    }
    Ok(rank(&scored, min, max, limit))
}

/// No position of `b` is matched twice.
proof fn lemma_matched_distinct(a: Seq<char>, b: Seq<char>, radius: nat, upto: nat)
    ensures
        matched_positions(a, b, radius, upto).no_duplicates(),
    decreases upto,
{
    if upto > 0 {
        let i = upto - 1;
        lemma_matched_distinct(a, b, radius, i as nat);
        let before = matched_positions(a, b, radius, i as nat);
        lemma_first_free(
            b,
            marks(before, b.len()),
            a[i],
            window_start(i, radius),
            window_end(i, radius, b.len()),
        );
    }
}

/// There are no more matches than either text has code points.
pub proof fn lemma_match_count_bounds(a: Seq<char>, b: Seq<char>, radius: nat)
    ensures
        match_count(a, b, radius) <= a.len(),
        match_count(a, b, radius) <= b.len(),
{
    let s = matched_positions(a, b, radius, a.len());
    lemma_matched_in_bounds(a, b, radius, a.len());
    lemma_matched_distinct(a, b, radius, a.len());
    s.unique_seq_to_set();
    vstd::set_lib::lemma_int_range(0, b.len() as int);
    assert(s.to_set().subset_of(vstd::set_lib::set_int_range(0, b.len() as int))) by {
        assert forall|j: int| s.to_set().contains(j) implies vstd::set_lib::set_int_range(
            0,
            b.len() as int,
        ).contains(j) by {
            let k = choose|k: int| 0 <= k < s.len() && s[k] == j;
            assert(0 <= s[k] < b.len());
        }
    }
    vstd::set_lib::lemma_len_subset(s.to_set(), vstd::set_lib::set_int_range(0, b.len() as int));
}

/// The common prefix is no longer than either text, nor than the most that counts.
pub proof fn lemma_common_prefix_bound(a: Seq<char>, b: Seq<char>, max_prefix: nat)
    ensures
        common_prefix(a, b, max_prefix) <= a.len(),
        common_prefix(a, b, max_prefix) <= b.len(),
        common_prefix(a, b, max_prefix) <= max_prefix,
    decreases a.len(),
{
    if !(max_prefix == 0 || a.len() == 0 || b.len() == 0 || a[0] != b[0]) {
        lemma_common_prefix_bound(a.drop_first(), b.drop_first(), (max_prefix - 1) as nat);
    }
}

/// The parts of the Jaro similarity stand for `(m / len1 + m / len2 + (m - t) / m) / 3`.
proof fn lemma_jaro_value(m: int, t: int, len1: int, len2: int)
    requires
        m > 0,
        len1 > 0,
        len2 > 0,
    ensures
        jaro_den(m, len1, len2) > 0,
        jaro_num(m, t, len1, len2) as real == jaro_value(m, t, len1, len2) * (jaro_den(
            m,
            len1,
            len2,
        ) as real),
{
    let rm = m as real;
    let rt = t as real;
    let r1 = len1 as real;
    let r2 = len2 as real;
    lemma_real_product(m, m);
    lemma_real_product(m * m, len1 + len2);
    lemma_real_product(len1, len2);
    lemma_real_product(m - t, len1 * len2);
    lemma_real_product(3 * m, len1 * len2);
    let num = jaro_num(m, t, len1, len2) as real;
    let den = jaro_den(m, len1, len2) as real;
    assert(num == (rm * rm) * (r1 + r2) + (rm - rt) * (r1 * r2));
    assert(den == (3real * rm) * (r1 * r2));
    assert((3 * m) * (len1 * len2) > 0) by (nonlinear_arith)
        requires
            m > 0,
            len1 > 0,
            len2 > 0,
    ;
    let v = jaro_value(m, t, len1, len2);
    assert(num == v * den) by (nonlinear_arith)
        requires
            num == (rm * rm) * (r1 + r2) + (rm - rt) * (r1 * r2),
            den == (3real * rm) * (r1 * r2),
            v == (rm / r1 + rm / r2 + (rm - rt) / rm) / 3real,
            rm > 0real,
            r1 > 0real,
            r2 > 0real,
    ;
}

/// The parts of a score stand for the number that the formula gives:
/// `jaro + prefix * w * (1 - jaro)`.
proof fn lemma_score_value(m: int, t: int, len1: int, len2: int, prefix: int, wn: int, wd: int)
    requires
        m > 0,
        len1 > 0,
        len2 > 0,
        wd > 0,
    ensures
        jaro_den(m, len1, len2) * wd > 0,
        frac(
            jaro_num(m, t, len1, len2) * wd + (prefix * wn) * (jaro_den(m, len1, len2) - jaro_num(
                m,
                t,
                len1,
                len2,
            )),
            jaro_den(m, len1, len2) * wd,
        ) == jaro_value(m, t, len1, len2) + (prefix as real) * frac(wn, wd) * (1real - jaro_value(
            m,
            t,
            len1,
            len2,
        )),
{
    lemma_jaro_value(m, t, len1, len2);
    let jn = jaro_num(m, t, len1, len2);
    let jd = jaro_den(m, len1, len2);
    lemma_real_product(jn, wd);
    lemma_real_product(prefix, wn);
    lemma_real_product(prefix * wn, jd - jn);
    lemma_real_product(jd, wd);
    assert(jd * wd > 0) by (nonlinear_arith)
        requires
            jd > 0,
            wd > 0,
    ;
    let rjn = jn as real;
    let rjd = jd as real;
    let rwn = wn as real;
    let rwd = wd as real;
    let p = prefix as real;
    let jaro = jaro_value(m, t, len1, len2);
    let kept = rjn * rwd;
    let gained = (p * rwn) * (rjd - rjn);
    let den = rjd * rwd;
    assert((jn * wd + (prefix * wn) * (jd - jn)) as real == kept + gained);
    assert((jd * wd) as real == den);
    lemma_positive_product(rjd, rwd);
    lemma_real_quotient(rjn, rjd, jaro);
    lemma_sum_over(kept, gained, den);
    lemma_cancel_factor(rjn, rjd, rwd);
    lemma_product_over(p * rwn, rjd - rjn, rjd, rwd);
    lemma_multiple_over(p, rwn, rwd);
    lemma_rest_over(rjn, rjd);
}

/// A product of positive numbers is positive.
proof fn lemma_positive_product(x: real, y: real)
    by (nonlinear_arith)
    requires
        x > 0real,
        y > 0real,
    ensures
        x * y > 0real,
{
}

/// A sum over a denominator is the sum of its terms over it.
proof fn lemma_sum_over(a: real, b: real, d: real)
    by (nonlinear_arith)
    requires
        d != 0real,
    ensures
        (a + b) / d == a / d + b / d,
{
}

/// A factor that numerator and denominator share cancels.
proof fn lemma_cancel_factor(x: real, y: real, c: real)
    by (nonlinear_arith)
    requires
        y != 0real,
        c != 0real,
    ensures
        (x * c) / (y * c) == x / y,
{
}

/// A product over a product is the product of the quotients taken crosswise.
proof fn lemma_product_over(a: real, b: real, c: real, d: real)
    by (nonlinear_arith)
    requires
        c != 0real,
        d != 0real,
    ensures
        (a * b) / (c * d) == (a / d) * (b / c),
{
}

/// A multiple of a numerator over a denominator is that multiple of the quotient.
proof fn lemma_multiple_over(p: real, n: real, d: real)
    by (nonlinear_arith)
    requires
        d != 0real,
    ensures
        (p * n) / d == p * (n / d),
{
}

/// What a denominator has more than the numerator, over it, is 1 less the quotient.
proof fn lemma_rest_over(x: real, y: real)
    by (nonlinear_arith)
    requires
        y != 0real,
    ensures
        (y - x) / y == 1real - x / y,
{
}

/// A quotient by a positive number has the sign of its numerator, and is at most 1 where
/// the numerator is at most the denominator.
proof fn lemma_quotient_range(n: real, d: real)
    by (nonlinear_arith)
    requires
        d > 0real,
    ensures
        n >= 0real ==> n / d >= 0real,
        n <= d ==> n / d <= 1real,
        n == d ==> n / d == 1real,
{
}

/// A weight is valid exactly when the number that it stands for lies between 0 and 1/4.
pub proof fn lemma_valid_weight(w: Ratio)
    requires
        w.den() > 0,
    ensures
        valid_prefix_weight(w) <==> 0real <= w.value() && 4real * w.value() <= 1real,
{
    let n = w.num() as real;
    let d = w.den() as real;
    assert((n >= 0real <==> n / d >= 0real) && (4real * n <= d <==> 4real * (n / d) <= 1real))
        by (nonlinear_arith)
        requires
            d > 0real,
    ;
}

/// The Jaro similarity is at most 1, and it is not negative where there are no more
/// transpositions than matches.
pub proof fn lemma_jaro_range(m: int, t: int, len1: int, len2: int)
    requires
        0 < m <= len1,
        m <= len2,
        0 <= t,
    ensures
        jaro_value(m, t, len1, len2) <= 1real,
        t <= m ==> jaro_value(m, t, len1, len2) >= 0real,
        t == 0 && m == len1 && m == len2 ==> jaro_value(m, t, len1, len2) == 1real,
{
    lemma_quotient_range(m as real, len1 as real);
    lemma_quotient_range(m as real, len2 as real);
    lemma_quotient_range((m - t) as real, m as real);
}

/// Two empty texts have similarity 1; an empty text and one that is not have similarity 0.
pub proof fn lemma_jaro_winkler_of_empty(s: Seq<char>, w: real, max_prefix: nat)
    ensures
        jaro_winkler_value(Seq::empty(), Seq::empty(), w, max_prefix) == 1real,
        s.len() > 0 ==> jaro_winkler_value(Seq::empty(), s, w, max_prefix) == 0real,
        s.len() > 0 ==> jaro_winkler_value(s, Seq::empty(), w, max_prefix) == 0real,
{
}

/// Matched against itself, every code point of a text takes its own position.
proof fn lemma_matched_with_self(a: Seq<char>, radius: nat, upto: nat)
    requires
        upto <= a.len(),
    ensures
        matched_positions(a, a, radius, upto) == Seq::new(upto, |k: int| k),
    decreases upto,
{
    if upto > 0 {
        let i = upto - 1;
        lemma_matched_with_self(a, radius, i as nat);
        let before = Seq::new(i as nat, |k: int| k);
        let taken = marks(before, a.len());
        assert forall|k: int| 0 <= k < a.len() implies #[trigger] taken[k] == (k < i) by {
            if k < i {
                assert(before[k] == k);
            }
        }
        let lo = window_start(i, radius);
        let hi = window_end(i, radius, a.len());
        lemma_first_free(a, taken, a[i], lo, hi);
        assert(lo <= i < hi);
        assert(!taken[i]);
        assert(first_free(a, taken, a[i], lo, hi) == Some(i)) by {
            match first_free(a, taken, a[i], lo, hi) {
                Some(j) => {
                    if j > i {
                        assert(taken[i] || a[i] != a[i]);
                    }
                    if j < i {
                        assert(taken[j]);
                    }
                },
                None => {
                    assert(taken[i] || a[i] != a[i]);
                },
            }
        }
        assert(before.push(i) =~= Seq::new(upto, |k: int| k));
    } else {
        assert(matched_positions(a, a, radius, 0) =~= Seq::new(0, |k: int| k));
    }
}

/// Nothing is smaller than a value among entries that are all at least that value.
proof fn lemma_none_smaller(s: Seq<int>, v: int)
    requires
        forall|k: int| 0 <= k < s.len() ==> s[k] >= v,
    ensures
        smaller_in(s, v) == 0,
    decreases s.len(),
{
    if s.len() > 0 {
        lemma_none_smaller(s.drop_last(), v);
    }
}

/// A sequence in rising order has no pair out of order.
proof fn lemma_rising_has_no_inversions(s: Seq<int>)
    requires
        forall|p: int, q: int| 0 <= p < q < s.len() ==> s[p] <= s[q],
    ensures
        inversions(s) == 0,
    decreases s.len(),
{
    if s.len() > 0 {
        let rest = s.drop_first();
        assert forall|p: int, q: int| 0 <= p < q < rest.len() implies rest[p] <= rest[q] by {
            assert(s[p + 1] <= s[q + 1]);
        }
        lemma_rising_has_no_inversions(rest);
        assert forall|k: int| 0 <= k < rest.len() implies rest[k] >= s[0] by {
            assert(s[0] <= s[k + 1]);
        }
        lemma_none_smaller(rest, s[0]);
    }
}

/// Nothing is gained or lost where nothing is missing.
proof fn lemma_no_boost(x: real, jaro: real)
    by (nonlinear_arith)
    requires
        jaro == 1real,
    ensures
        jaro + x * (1real - jaro) == 1real,
{
}

/// A text has similarity 1 to itself, and so distance 0 from itself, whatever the weight.
pub proof fn lemma_jaro_winkler_to_self(a: Seq<char>, w: real, max_prefix: nat)
    ensures
        jaro_winkler_value(a, a, w, max_prefix) == 1real,
        1real - jaro_winkler_value(a, a, w, max_prefix) == 0real,
{
    if a.len() > 0 {
        let radius = match_radius(a.len(), a.len());
        let n = a.len() as int;
        lemma_matched_with_self(a, radius, a.len());
        lemma_rising_has_no_inversions(Seq::new(a.len(), |k: int| k));
        lemma_jaro_range(n, 0, n, n);
        lemma_no_boost((common_prefix(a, a, max_prefix) as real) * w, jaro_value(n, 0, n, n));
    }
}

/// The prefix boost `prefix * w` exceeds 1 while the Jaro similarity is below 1: the one
/// case in which a similarity exceeds 1.
pub open spec fn boost_overshoots(a: Seq<char>, b: Seq<char>, w: real, max_prefix: nat) -> bool {
    let radius = match_radius(a.len(), b.len());
    let m = match_count(a, b, radius) as int;
    let t = transposition_count(a, b, radius) as int;
    &&& a.len() > 0
    &&& b.len() > 0
    &&& m > 0
    &&& (common_prefix(a, b, max_prefix) as real) * w > 1real
    &&& jaro_value(m, t, a.len() as int, b.len() as int) < 1real
}

/// The transpositions outweigh the matches by more than the prefix boost makes up for: the
/// one case in which a similarity is negative.
pub open spec fn transpositions_outweigh(a: Seq<char>, b: Seq<char>, w: real, max_prefix: nat) ->
    bool {
    let radius = match_radius(a.len(), b.len());
    let m = match_count(a, b, radius) as int;
    let t = transposition_count(a, b, radius) as int;
    let jaro = jaro_value(m, t, a.len() as int, b.len() as int);
    &&& a.len() > 0
    &&& b.len() > 0
    &&& m > 0
    &&& jaro < 0real
    &&& (common_prefix(a, b, max_prefix) as real) * w * (1real - jaro) < -jaro
}

/// How a boosted similarity stands to 0 and to 1.
proof fn lemma_boosted_range(jaro: real, x: real)
    by (nonlinear_arith)
    requires
        jaro <= 1real,
        x >= 0real,
    ensures
        jaro + x * (1real - jaro) > 1real <==> x > 1real && jaro < 1real,
        jaro >= 0real ==> jaro + x * (1real - jaro) >= 0real,
{
}

/// A prefix of at most four code points at a weight of at most 1/4 boosts by at most 1.
proof fn lemma_small_boost(p: real, w: real)
    by (nonlinear_arith)
    requires
        0real <= p <= 4real,
        0real <= w,
        4real * w <= 1real,
    ensures
        0real <= p * w <= 1real,
{
}

/// A product of numbers that are not negative is not negative.
proof fn lemma_boost_not_negative(p: real, w: real)
    by (nonlinear_arith)
    requires
        0real <= p,
        0real <= w,
    ensures
        0real <= p * w,
{
}

/// A similarity lies between 0 and 1 in every case but two, and in those two it does not:
/// it exceeds 1 exactly where the prefix boost overshoots, and it is negative exactly where
/// the transpositions outweigh the matches. With a common prefix that counts up to four
/// code points only, no boost overshoots; and where there are no more transpositions than
/// matches, they do not outweigh them.
pub proof fn lemma_jaro_winkler_range(a: Seq<char>, b: Seq<char>, w: real, max_prefix: nat)
    requires
        0real <= w,
        4real * w <= 1real,
    ensures
        jaro_winkler_value(a, b, w, max_prefix) > 1real <==> boost_overshoots(a, b, w, max_prefix),
        jaro_winkler_value(a, b, w, max_prefix) < 0real <==> transpositions_outweigh(
            a,
            b,
            w,
            max_prefix,
        ),
        max_prefix <= 4 ==> !boost_overshoots(a, b, w, max_prefix),
        transposition_count(a, b, match_radius(a.len(), b.len())) <= match_count(
            a,
            b,
            match_radius(a.len(), b.len()),
        ) ==> !transpositions_outweigh(a, b, w, max_prefix),
{
    let radius = match_radius(a.len(), b.len());
    lemma_common_prefix_bound(a, b, max_prefix);
    let p = common_prefix(a, b, max_prefix) as real;
    lemma_boost_not_negative(p, w);
    if max_prefix <= 4 {
        lemma_small_boost(p, w);
    }
    if a.len() > 0 && b.len() > 0 && match_count(a, b, radius) > 0 {
        let m = match_count(a, b, radius) as int;
        let t = transposition_count(a, b, radius) as int;
        lemma_match_count_bounds(a, b, radius);
        lemma_jaro_range(m, t, a.len() as int, b.len() as int);
        lemma_boosted_range(jaro_value(m, t, a.len() as int, b.len() as int), p * w);
    }
}

/// Ranking by Jaro-Winkler similarity does not depend on the order of the candidates:
/// candidates with the same similarity always come in dictionary order.
pub proof fn lemma_jaro_winkler_match_ignores_input_order(
    pattern: Seq<char>,
    first: Seq<Seq<char>>,
    second: Seq<Seq<char>>,
    min: real,
    max: real,
    limit: nat,
    w: real,
    max_prefix: nat,
    r1: Seq<(Seq<char>, real)>,
    r2: Seq<(Seq<char>, real)>,
)
    requires
        first.to_multiset() == second.to_multiset(),
        is_ranking(
            r1,
            retained(jaro_winkler_pool(pattern, first, w, max_prefix), min, max),
            limit,
        ),
        is_ranking(
            r2,
            retained(jaro_winkler_pool(pattern, second, w, max_prefix), min, max),
            limit,
        ),
    ensures
        r1 == r2,
{
    lemma_ranking_ignores_input_order(
        first,
        second,
        |c: Seq<char>| jaro_winkler_value(pattern, c, w, max_prefix),
        min,
        max,
        limit,
        r1,
        r2,
    );
}

/// Ranking by Jaro-Winkler similarity does not depend on the order in which the two ends
/// of the score range are given.
pub proof fn lemma_jaro_winkler_match_ignores_range_order(
    pattern: Seq<char>,
    candidates: Seq<Seq<char>>,
    min: real,
    max: real,
    limit: nat,
    w: real,
    max_prefix: nat,
    r1: Seq<(Seq<char>, real)>,
    r2: Seq<(Seq<char>, real)>,
)
    requires
        is_ranking(
            r1,
            retained(jaro_winkler_pool(pattern, candidates, w, max_prefix), min, max),
            limit,
        ),
        is_ranking(
            r2,
            retained(jaro_winkler_pool(pattern, candidates, w, max_prefix), max, min),
            limit,
        ),
    ensures
        r1 == r2,
{
    lemma_ranking_ignores_range_order(
        candidates,
        |c: Seq<char>| jaro_winkler_value(pattern, c, w, max_prefix),
        min,
        max,
        limit,
        r1,
        r2,
    );
}

} // verus!
