//! Ranking of scored candidates: keep those in a score range, best first, up to a limit.

use vstd::prelude::*;
use vstd::seq_lib::{
    lemma_multiset_commutative, to_multiset_build, to_multiset_contains, to_multiset_len,
    to_multiset_remove,
};
use crate::permutation::{lemma_filter_same_items, lemma_map_values_same_items};
use crate::ratio::Ratio;
use crate::score::Score;
use crate::text::{
    code_points, lemma_text_le_antisymmetric, lemma_text_le_total, lemma_text_le_transitive,
    precedes, text_le,
};

verus! {

/// `x` may stand before `y` in a ranking: it has the higher score, or the same score and
/// a text that comes no later in dictionary order. Of two different entries exactly one may
/// stand before the other.
pub open spec fn outranks(x: (Seq<char>, real), y: (Seq<char>, real)) -> bool {
    y.1 < x.1 || (y.1 == x.1 && text_le(x.0, y.0))
}

/// Every entry may stand before all that follow it.
pub open spec fn ranked(s: Seq<(Seq<char>, real)>) -> bool {
    forall|i: int, j: int| 0 <= i < j < s.len() ==> outranks(s[i], s[j])
}

/// The lower end of the range between `min` and `max`, whichever way round they were given.
pub open spec fn lower(min: real, max: real) -> real {
    if min <= max {
        min
    } else {
        max
    }
}

/// The upper end of the range between `min` and `max`, whichever way round they were given.
pub open spec fn upper(min: real, max: real) -> real {
    if min <= max {
        max
    } else {
        min
    }
}

/// The entries of `pool` whose score lies in the range between `min` and `max`, ends
/// included, in the order in which the pool holds them.
pub open spec fn retained(pool: Seq<(Seq<char>, real)>, min: real, max: real) -> Seq<
    (Seq<char>, real),
> {
    pool.filter(|e: (Seq<char>, real)| lower(min, max) <= e.1 <= upper(min, max))
}

/// `result` is what a ranking of `pool` shows under `limit`: the first `limit` entries (all
/// of them where there are fewer) of an arrangement of the whole pool in ranked order.
pub open spec fn is_ranking(
    result: Seq<(Seq<char>, real)>,
    pool: Seq<(Seq<char>, real)>,
    limit: nat,
) -> bool {
    exists|rest: Seq<(Seq<char>, real)>|
        #![trigger result + rest]
        {
            &&& ranked(result + rest)
            &&& (result + rest).to_multiset() == pool.to_multiset()
            &&& result.len() <= limit
            &&& result.len() == limit || rest.len() == 0
        }
}

/// Text and score of every pair: the text as its code points, the score as the number
/// that it stands for.
pub open spec fn entries(v: Seq<(String, Score)>) -> Seq<(Seq<char>, real)> {
    v.map_values(|p: (String, Score)| (p.0@, p.1.value()))
}

/// Of two entries, one may stand before the other.
pub proof fn lemma_outranks_total(x: (Seq<char>, real), y: (Seq<char>, real))
    ensures
        outranks(x, y) || outranks(y, x),
{
    lemma_text_le_total(x.0, y.0);
}

/// If `x` may stand before `y`, and `y` before `z`, then `x` may stand before `z`.
pub proof fn lemma_outranks_transitive(
    x: (Seq<char>, real),
    y: (Seq<char>, real),
    z: (Seq<char>, real),
)
    requires
        outranks(x, y),
        outranks(y, z),
    ensures
        outranks(x, z),
{
    if x.1 == y.1 && y.1 == z.1 {
        lemma_text_le_transitive(x.0, y.0, z.0);
    }
}

/// Two entries that may each stand before the other are the same entry.
pub proof fn lemma_outranks_both_ways(x: (Seq<char>, real), y: (Seq<char>, real))
    requires
        outranks(x, y),
        outranks(y, x),
    ensures
        x == y,
{
    lemma_text_le_antisymmetric(x.0, y.0);
}

/// Two ranked arrangements of the same entries are equal.
pub proof fn lemma_ranked_unique(x: Seq<(Seq<char>, real)>, y: Seq<(Seq<char>, real)>)
    requires
        ranked(x),
        ranked(y),
        x.to_multiset() == y.to_multiset(),
    ensures
        x == y,
    decreases x.len(),
{
    broadcast use vstd::multiset::group_multiset_axioms;

    to_multiset_len(x);
    to_multiset_len(y);
    if x.len() == 0 {
        assert(x =~= y);
    } else {
        to_multiset_contains(x, x[0]);
        to_multiset_contains(x, y[0]);
        to_multiset_contains(y, x[0]);
        to_multiset_contains(y, y[0]);
        assert(x.contains(x[0]));
        assert(y.contains(y[0]));
        let i = choose|i: int| 0 <= i < x.len() && x[i] == y[0];
        let j = choose|j: int| 0 <= j < y.len() && y[j] == x[0];
        if i != 0 && j != 0 {
            lemma_outranks_both_ways(x[0], y[0]);
        }
        assert(x[0] == y[0]);
        to_multiset_remove(x, 0);
        to_multiset_remove(y, 0);
        assert(x.remove(0) =~= x.drop_first());
        assert(y.remove(0) =~= y.drop_first());
        let xs = x.drop_first();
        let ys = y.drop_first();
        assert(ranked(xs)) by {
            assert forall|a: int, b: int| 0 <= a < b < xs.len() implies outranks(xs[a], xs[b]) by {
                assert(outranks(x[a + 1], x[b + 1]));
            }
        }
        assert(ranked(ys)) by {
            assert forall|a: int, b: int| 0 <= a < b < ys.len() implies outranks(ys[a], ys[b]) by {
                assert(outranks(y[a + 1], y[b + 1]));
            }
        }
        lemma_ranked_unique(xs, ys);
        assert(x =~= seq![x[0]] + xs);
        assert(y =~= seq![y[0]] + ys);
    }
}

/// A ranking shows `limit` entries, or the whole pool where that has fewer.
pub proof fn lemma_ranking_len(
    result: Seq<(Seq<char>, real)>,
    pool: Seq<(Seq<char>, real)>,
    limit: nat,
)
    requires
        is_ranking(result, pool, limit),
    ensures
        result.len() == if limit <= pool.len() {
            limit
        } else {
            pool.len()
        },
{
    let rest = choose|rest: Seq<(Seq<char>, real)>|
        #![trigger result + rest]
        {
            &&& ranked(result + rest)
            &&& (result + rest).to_multiset() == pool.to_multiset()
            &&& result.len() <= limit
            &&& result.len() == limit || rest.len() == 0
        };
    to_multiset_len(result + rest);
    to_multiset_len(pool);
}

/// A pool has one ranking only: a ranking shows the same entries in the same order
/// whatever the order in which the pool holds them.
pub proof fn lemma_ranking_unique(
    r1: Seq<(Seq<char>, real)>,
    r2: Seq<(Seq<char>, real)>,
    pool1: Seq<(Seq<char>, real)>,
    pool2: Seq<(Seq<char>, real)>,
    limit: nat,
)
    requires
        is_ranking(r1, pool1, limit),
        is_ranking(r2, pool2, limit),
        pool1.to_multiset() == pool2.to_multiset(),
    ensures
        r1 == r2,
{
    let rest1 = choose|rest: Seq<(Seq<char>, real)>|
        #![trigger r1 + rest]
        {
            &&& ranked(r1 + rest)
            &&& (r1 + rest).to_multiset() == pool1.to_multiset()
            &&& r1.len() <= limit
            &&& r1.len() == limit || rest.len() == 0
        };
    let rest2 = choose|rest: Seq<(Seq<char>, real)>|
        #![trigger r2 + rest]
        {
            &&& ranked(r2 + rest)
            &&& (r2 + rest).to_multiset() == pool2.to_multiset()
            &&& r2.len() <= limit
            &&& r2.len() == limit || rest.len() == 0
        };
    let x = r1 + rest1;
    let y = r2 + rest2;
    lemma_ranked_unique(x, y);
    assert(r1 =~= x.take(r1.len() as int));
    assert(r2 =~= y.take(r2.len() as int));
}

/// Two tests that agree on every item of a sequence keep the same items of it.
proof fn lemma_filter_agree<A>(s: Seq<A>, p: spec_fn(A) -> bool, q: spec_fn(A) -> bool)
    requires
        forall|i: int| 0 <= i < s.len() ==> p(#[trigger] s[i]) == q(s[i]),
    ensures
        s.filter(p) == s.filter(q),
    decreases s.len(),
{
    reveal(Seq::filter);
    if s.len() > 0 {
        lemma_filter_agree(s.drop_last(), p, q);
    }
}

/// The range between `min` and `max` is the same range whichever way round the two are
/// given: the same entries are retained.
pub proof fn lemma_range_either_way_round(pool: Seq<(Seq<char>, real)>, min: real, max: real)
    ensures
        retained(pool, min, max) == retained(pool, max, min),
{
    let one = |e: (Seq<char>, real)| lower(min, max) <= e.1 <= upper(min, max);
    let other = |e: (Seq<char>, real)| lower(max, min) <= e.1 <= upper(max, min);
    lemma_filter_agree(pool, one, other);
}

/// Every candidate with the score that `score` gives it.
pub open spec fn scored_by(candidates: Seq<Seq<char>>, score: spec_fn(Seq<char>) -> real) -> Seq<
    (Seq<char>, real),
> {
    candidates.map_values(|c: Seq<char>| (c, score(c)))
}

/// Ranking does not depend on the order of the candidates: where two lists hold the same
/// candidates, each equally often, and every candidate is scored by the same function, the
/// rankings are equal, entry for entry. Ties between scores are settled by the texts.
pub proof fn lemma_ranking_ignores_input_order(
    first: Seq<Seq<char>>,
    second: Seq<Seq<char>>,
    score: spec_fn(Seq<char>) -> real,
    min: real,
    max: real,
    limit: nat,
    r1: Seq<(Seq<char>, real)>,
    r2: Seq<(Seq<char>, real)>,
)
    requires
        first.to_multiset() == second.to_multiset(),
        is_ranking(r1, retained(scored_by(first, score), min, max), limit),
        is_ranking(r2, retained(scored_by(second, score), min, max), limit),
    ensures
        r1 == r2,
{
    let keep = |e: (Seq<char>, real)| lower(min, max) <= e.1 <= upper(min, max);
    lemma_map_values_same_items(first, second, |c: Seq<char>| (c, score(c)));
    lemma_filter_same_items(scored_by(first, score), scored_by(second, score), keep);
    lemma_ranking_unique(
        r1,
        r2,
        retained(scored_by(first, score), min, max),
        retained(scored_by(second, score), min, max),
        limit,
    );
}

/// Ranking does not depend on the order in which the two ends of the range are given.
pub proof fn lemma_ranking_ignores_range_order(
    candidates: Seq<Seq<char>>,
    score: spec_fn(Seq<char>) -> real,
    min: real,
    max: real,
    limit: nat,
    r1: Seq<(Seq<char>, real)>,
    r2: Seq<(Seq<char>, real)>,
)
    requires
        is_ranking(r1, retained(scored_by(candidates, score), min, max), limit),
        is_ranking(r2, retained(scored_by(candidates, score), max, min), limit),
    ensures
        r1 == r2,
{
    lemma_range_either_way_round(scored_by(candidates, score), min, max);
    lemma_ranking_unique(
        r1,
        r2,
        retained(scored_by(candidates, score), min, max),
        retained(scored_by(candidates, score), max, min),
        limit,
    );
}

/// The entries of `pool` at the positions `idx`, in the order of `idx`.
spec fn picks(pool: Seq<(Seq<char>, real)>, idx: Seq<usize>) -> Seq<(Seq<char>, real)> {
    idx.map_values(|k: usize| pool[k as int])
}

/// Every position in `idx` is a position of a pool of `n` entries.
spec fn in_bounds(idx: Seq<usize>, n: nat) -> bool {
    forall|a: int| 0 <= a < idx.len() ==> (#[trigger] idx[a]) < n
}

/// The entries at the positions `idx` stand in ranked order.
spec fn in_rank_order(pool: Seq<(Seq<char>, real)>, idx: Seq<usize>) -> bool {
    forall|a: int, b: int|
        0 <= a < b < idx.len() ==> outranks(
            pool[(#[trigger] idx[a]) as int],
            pool[(#[trigger] idx[b]) as int],
        )
}

/// `points` holds the code points of each candidate's text.
spec fn spelled_out(scored: Seq<(String, Score)>, points: Seq<Vec<char>>) -> bool {
    &&& points.len() == scored.len()
    &&& forall|k: int| 0 <= k < scored.len() ==> (#[trigger] points[k])@ == scored[k].0@
}

/// Whether the candidate at position `i` may stand before the one at position `j`.
fn outranks_at(scored: &Vec<(String, Score)>, points: &Vec<Vec<char>>, i: usize, j: usize) -> (r:
    bool)
    requires
        spelled_out(scored@, points@),
        i < scored.len(),
        j < scored.len(),
    ensures
        r == outranks(entries(scored@)[i as int], entries(scored@)[j as int]),
{
    let x: &Score = &scored[i].1;
    let y: &Score = &scored[j].1;
    if y.is_lt(x) {
        true
    } else if x.is_lt(y) {
        false
    } else {
        precedes(&points[i], &points[j])
    }
}

/// Merges two runs of positions, each in ranked order, into one run in ranked order.
fn merge(
    scored: &Vec<(String, Score)>,
    points: &Vec<Vec<char>>,
    left: &Vec<usize>,
    right: &Vec<usize>,
) -> (out: Vec<usize>)
    requires
        spelled_out(scored@, points@),
        in_bounds(left@, scored@.len()),
        in_bounds(right@, scored@.len()),
        in_rank_order(entries(scored@), left@),
        in_rank_order(entries(scored@), right@),
    ensures
        in_bounds(out@, scored@.len()),
        in_rank_order(entries(scored@), out@),
        out@.to_multiset() == left@.to_multiset().add(right@.to_multiset()),
{
    let ghost pool = entries(scored@);
    let mut out: Vec<usize> = Vec::new();
    let mut i: usize = 0;
    let mut j: usize = 0;
    proof {
        assert(left@.take(0) =~= Seq::<usize>::empty());
        assert(right@.take(0) =~= Seq::<usize>::empty());
        assert(out@.to_multiset() =~= left@.take(0).to_multiset().add(
            right@.take(0).to_multiset(),
        )) by {
            broadcast use vstd::multiset::group_multiset_axioms;

            to_multiset_len(out@);
            to_multiset_len(left@.take(0));
        }
    }
    while i < left.len() || j < right.len()
        invariant
            pool == entries(scored@),
            spelled_out(scored@, points@),
            in_bounds(left@, scored@.len()),
            in_bounds(right@, scored@.len()),
            in_rank_order(pool, left@),
            in_rank_order(pool, right@),
            i <= left.len(),
            j <= right.len(),
            in_bounds(out@, scored@.len()),
            in_rank_order(pool, out@),
            out@.to_multiset() == left@.take(i as int).to_multiset().add(
                right@.take(j as int).to_multiset(),
            ),
            forall|a: int, b: int|
                0 <= a < out.len() && i <= b < left.len() ==> outranks(
                    pool[(#[trigger] out[a]) as int],
                    pool[(#[trigger] left[b]) as int],
                ),
            forall|a: int, b: int|
                0 <= a < out.len() && j <= b < right.len() ==> outranks(
                    pool[(#[trigger] out[a]) as int],
                    pool[(#[trigger] right[b]) as int],
                ),
        decreases left.len() - i + right.len() - j,
    {
        let from_left: bool = if j == right.len() {
            true
        } else if i == left.len() {
            false
        } else {
            outranks_at(scored, points, left[i], right[j])
        };
        let ghost before = out@;
        if from_left {
            let x: usize = left[i];
            proof {
                assert forall|b: int| j <= b < right.len() implies outranks(
                    pool[x as int],
                    pool[(#[trigger] right[b]) as int],
                ) by {
                    if b > j {
                        assert(outranks(pool[right[j as int] as int], pool[right[b] as int]));
                        lemma_outranks_transitive(
                            pool[x as int],
                            pool[right[j as int] as int],
                            pool[right[b] as int],
                        );
                    }
                }
                assert(left@.take(i + 1) =~= left@.take(i as int).push(x));
                to_multiset_build(left@.take(i as int), x);
                to_multiset_build(before, x);
                assert(before.push(x).to_multiset() =~= left@.take(i + 1).to_multiset().add(
                    right@.take(j as int).to_multiset(),
                )) by {
                    broadcast use vstd::multiset::group_multiset_axioms;

                }
            }
            out.push(x);
            i += 1;
        } else {
            let x: usize = right[j];
            proof {
                if i < left.len() {
                    lemma_outranks_total(pool[left[i as int] as int], pool[x as int]);
                }
                assert forall|b: int| i <= b < left.len() implies outranks(
                    pool[x as int],
                    pool[(#[trigger] left[b]) as int],
                ) by {
                    if b > i {
                        assert(outranks(pool[left[i as int] as int], pool[left[b] as int]));
                        lemma_outranks_transitive(
                            pool[x as int],
                            pool[left[i as int] as int],
                            pool[left[b] as int],
                        );
                    }
                }
                assert(right@.take(j + 1) =~= right@.take(j as int).push(x));
                to_multiset_build(right@.take(j as int), x);
                to_multiset_build(before, x);
                assert(before.push(x).to_multiset() =~= left@.take(i as int).to_multiset().add(
                    right@.take(j + 1).to_multiset(),
                )) by {
                    broadcast use vstd::multiset::group_multiset_axioms;

                }
            }
            out.push(x);
            j += 1;
        }
    }
    proof {
        assert(left@.take(i as int) =~= left@);
        assert(right@.take(j as int) =~= right@);
    }
    out
}

/// Puts positions into ranked order by sorting each half and merging the two.
fn sort_positions(scored: &Vec<(String, Score)>, points: &Vec<Vec<char>>, idx: Vec<usize>) -> (out:
    Vec<usize>)
    requires
        spelled_out(scored@, points@),
        in_bounds(idx@, scored@.len()),
    ensures
        in_bounds(out@, scored@.len()),
        in_rank_order(entries(scored@), out@),
        out@.to_multiset() == idx@.to_multiset(),
    decreases idx.len(),
{
    if idx.len() <= 1 {
        return idx;
    }
    let mut left: Vec<usize> = idx;
    let ghost whole = left@;
    let mid: usize = left.len() / 2;
    let right: Vec<usize> = left.split_off(mid);
    proof {
        assert(whole =~= left@ + right@);
        lemma_multiset_commutative(left@, right@);
    }
    let left = sort_positions(scored, points, left);
    let right = sort_positions(scored, points, right);
    merge(scored, points, &left, &right)
}

/// Ranks scored candidates: keeps those whose score lies in the range between `min` and
/// `max`, ends included and whichever way round the two are given, puts them in order of
/// falling score, with equal scores in dictionary order of the texts, and returns the first
/// `limit` of them.
///
/// Every occurrence of a text counts: nothing is dropped for occurring twice.
pub fn rank(scored: &Vec<(String, Score)>, min: Ratio, max: Ratio, limit: usize) -> (out: Vec<
    (String, Score),
>)
    ensures
        is_ranking(
            entries(out@),
            retained(entries(scored@), min.value(), max.value()),
            limit as nat,
        ),
        out@.len() <= limit,
{
    let n: usize = scored.len();
    let in_order: bool = min.is_le(&max);
    proof {
        Ratio::lemma_order_of_values(min, max);
    }
    let lo: Score = if in_order {
        Score::from_ratio(&min)
    } else {
        Score::from_ratio(&max)
    };
    let hi: Score = if in_order {
        Score::from_ratio(&max)
    } else {
        Score::from_ratio(&min)
    };
    let ghost low_end = lower(min.value(), max.value());
    let ghost high_end = upper(min.value(), max.value());
    let ghost pool = entries(scored@);
    let ghost keep = |e: (Seq<char>, real)| low_end <= e.1 <= high_end;
    let mut points: Vec<Vec<char>> = Vec::new();
    let mut kept: Vec<usize> = Vec::new();
    let mut i: usize = 0;
    proof {
        assert(pool.take(0) =~= Seq::empty());
        assert(pool.take(0).filter(keep) =~= Seq::empty()) by {
            reveal(Seq::filter);
        }
        assert(picks(pool, kept@) =~= Seq::empty());
    }
    while i < n
        invariant
            i <= n,
            n == scored.len(),
            pool == entries(scored@),
            keep == |e: (Seq<char>, real)| low_end <= e.1 <= high_end,
            lo.value() == low_end,
            hi.value() == high_end,
            points.len() == i,
            forall|k: int| 0 <= k < i ==> (#[trigger] points[k])@ == scored[k].0@,
            in_bounds(kept@, i as nat),
            picks(pool, kept@) == pool.take(i as int).filter(keep),
        decreases n - i,
    {
        let score: &Score = &scored[i].1;
        let spelled: Vec<char> = code_points(scored[i].0.as_str());
        points.push(spelled);
        let ghost before = kept@;
        let inside: bool = lo.is_le(score) && score.is_le(&hi);
        if inside {
            kept.push(i);
        }
        proof {
            assert(pool.take(i + 1) =~= pool.take(i as int).push(pool[i as int]));
            pool.take(i as int).lemma_filter_push(pool[i as int], keep);
            assert(keep(pool[i as int]) == inside);
            if inside {
                assert(picks(pool, before.push(i)) =~= picks(pool, before).push(pool[i as int]));
            }
        }
        i += 1;
    }
    proof {
        assert(pool.take(n as int) =~= pool);
    }
    let ghost kept_all = kept@;
    let order: Vec<usize> = sort_positions(scored, &points, kept);
    let mut out: Vec<(String, Score)> = Vec::new();
    let mut k: usize = 0;
    while k < order.len() && k < limit
        invariant
            k <= order.len(),
            k <= limit,
            pool == entries(scored@),
            in_bounds(order@, scored@.len()),
            entries(out@) =~= picks(pool, order@.take(k as int)),
        decreases order.len() - k,
    {
        let p: usize = order[k];
        let ghost before = out@;
        let text: String = scored[p].0.clone();
        let score: Score = scored[p].1.copy();
        out.push((text, score));
        proof {
            assert(order@.take(k + 1) =~= order@.take(k as int).push(p));
            assert(entries(out@) =~= entries(before).push(pool[p as int]));
            assert(picks(pool, order@.take(k as int).push(p)) =~= picks(
                pool,
                order@.take(k as int),
            ).push(pool[p as int]));
        }
        k += 1;
    }
    proof {
        let result = entries(out@);
        let rest = picks(pool, order@.skip(k as int));
        let full = picks(pool, order@);
        assert(result + rest =~= full);
        assert(ranked(full));
        lemma_map_values_same_items(order@, kept_all, |p: usize| pool[p as int]);
        assert(retained(pool, min.value(), max.value()) == pool.filter(keep)) by {
            lemma_filter_agree(
                pool,
                keep,
                |e: (Seq<char>, real)|
                    lower(min.value(), max.value()) <= e.1 <= upper(min.value(), max.value()),
            );
        }
        assert(full.to_multiset() == retained(pool, min.value(), max.value()).to_multiset());
        assert(rest.len() == order@.len() - k);
    }
    out
}

} // verus!
