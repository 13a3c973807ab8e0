//! The edit distance as the length of a shortest sequence of edits.

use vstd::prelude::*;
use crate::levenshtein::{edit_distance, lemma_distance_bounds, lemma_distance_to_self};

verus! {

/// `b` is `a` after one edit: one code point inserted, deleted, or replaced by another.
pub open spec fn one_edit(a: Seq<char>, b: Seq<char>) -> bool {
    ||| exists|p: int, c: char| 0 <= p <= a.len() && b == #[trigger] a.insert(p, c)
    ||| exists|p: int| 0 <= p < a.len() && b == #[trigger] a.remove(p)
    ||| exists|p: int, c: char| 0 <= p < a.len() && b == #[trigger] a.update(p, c)
}

/// `path` leads from `a` to `b` by one edit at a time: it begins with `a`, ends with `b`,
/// and each of its texts is the one before it after one edit.
pub open spec fn is_edit_path(path: Seq<Seq<char>>, a: Seq<char>, b: Seq<char>) -> bool {
    &&& path.len() > 0
    &&& path[0] == a
    &&& path.last() == b
    &&& forall|k: int| 0 <= k < path.len() - 1 ==> one_edit(#[trigger] path[k], path[k + 1])
}

/// Where the edit falls: it adds a last code point, takes the last away, replaces the last,
/// or leaves the last alone and is an edit of what stands before it.
proof fn lemma_edit_at_the_end(a: Seq<char>, b: Seq<char>)
    requires
        one_edit(a, b),
    ensures
        a.len() <= b.len() + 1,
        b.len() <= a.len() + 1,
        ({
            ||| b.len() > 0 && b.drop_last() == a
            ||| a.len() > 0 && a.drop_last() == b
            ||| a.len() > 0 && b.len() > 0 && a.drop_last() == b.drop_last()
            ||| a.len() > 0 && b.len() > 0 && a.last() == b.last() && one_edit(
                a.drop_last(),
                b.drop_last(),
            )
        }),
{
    if exists|p: int, c: char| 0 <= p <= a.len() && b == #[trigger] a.insert(p, c) {
        let (p, c) = choose|p: int, c: char| 0 <= p <= a.len() && b == #[trigger] a.insert(p, c);
        if p == a.len() {
            assert(b.drop_last() =~= a);
        } else {
            assert(b.drop_last() =~= a.drop_last().insert(p, c));
        }
    } else if exists|p: int| 0 <= p < a.len() && b == #[trigger] a.remove(p) {
        let p = choose|p: int| 0 <= p < a.len() && b == #[trigger] a.remove(p);
        if p == a.len() - 1 {
            assert(a.drop_last() =~= b);
        } else {
            assert(b.drop_last() =~= a.drop_last().remove(p));
        }
    } else {
        let (p, c) = choose|p: int, c: char| 0 <= p < a.len() && b == #[trigger] a.update(p, c);
        if p == a.len() - 1 {
            assert(a.drop_last() =~= b.drop_last());
        } else {
            assert(b.drop_last() =~= a.drop_last().update(p, c));
        }
    }
}

/// Without its last code point a text is at most one edit further from another text.
proof fn lemma_shorter_is_near(x: Seq<char>, b: Seq<char>)
    requires
        x.len() > 0,
    ensures
        edit_distance(x.drop_last(), b) <= edit_distance(x, b) + 1,
    decreases b.len(),
{
    lemma_distance_bounds(x, b);
    if b.len() > 0 && x.drop_last().len() > 0 {
        lemma_shorter_is_near(x, b.drop_last());
    }
}

/// One edit of a text changes its distance from any other text by at most one.
pub proof fn lemma_one_edit_is_near(a: Seq<char>, edited: Seq<char>, b: Seq<char>)
    requires
        one_edit(a, edited),
    ensures
        edit_distance(a, b) <= edit_distance(edited, b) + 1,
    decreases a.len() + edited.len() + b.len(),
{
    lemma_edit_at_the_end(a, edited);
    lemma_distance_bounds(a, b);
    lemma_distance_bounds(edited, b);
    if b.len() == 0 {
    } else if edited.len() > 0 && edited.drop_last() == a {
        lemma_shorter_is_near(edited, b);
    } else if a.len() > 0 && a.drop_last() == edited {
    } else if a.drop_last() == edited.drop_last() {
        lemma_one_edit_is_near(a, edited, b.drop_last());
    } else {
        lemma_one_edit_is_near(a.drop_last(), edited.drop_last(), b);
        lemma_one_edit_is_near(a, edited, b.drop_last());
        lemma_one_edit_is_near(a.drop_last(), edited.drop_last(), b.drop_last());
    }
}

/// The edit distance is a lower bound: no sequence of edits that turns `a` into `b` has
/// fewer edits than the edit distance between them.
pub proof fn lemma_no_shorter_path(path: Seq<Seq<char>>, a: Seq<char>, b: Seq<char>)
    requires
        is_edit_path(path, a, b),
    ensures
        edit_distance(a, b) <= path.len() - 1,
    decreases path.len(),
{
    if path.len() == 1 {
        lemma_distance_to_self(a);
    } else {
        let rest = path.drop_first();
        assert(one_edit(path[0], path[1]));
        assert(is_edit_path(rest, path[1], b)) by {
            assert forall|k: int| 0 <= k < rest.len() - 1 implies one_edit(
                #[trigger] rest[k],
                rest[k + 1],
            ) by {
                assert(one_edit(path[k + 1], path[k + 2]));
            }
        }
        lemma_no_shorter_path(rest, path[1], b);
        lemma_one_edit_is_near(a, path[1], b);
    }
}

/// An edit stays an edit when the same code point is put behind both texts.
proof fn lemma_edit_before_the_end(a: Seq<char>, b: Seq<char>, last: char)
    requires
        one_edit(a, b),
    ensures
        one_edit(a.push(last), b.push(last)),
{
    if exists|p: int, c: char| 0 <= p <= a.len() && b == #[trigger] a.insert(p, c) {
        let (p, c) = choose|p: int, c: char| 0 <= p <= a.len() && b == #[trigger] a.insert(p, c);
        assert(b.push(last) =~= a.push(last).insert(p, c));
    } else if exists|p: int| 0 <= p < a.len() && b == #[trigger] a.remove(p) {
        let p = choose|p: int| 0 <= p < a.len() && b == #[trigger] a.remove(p);
        assert(b.push(last) =~= a.push(last).remove(p));
    } else {
        let (p, c) = choose|p: int, c: char| 0 <= p < a.len() && b == #[trigger] a.update(p, c);
        assert(b.push(last) =~= a.push(last).update(p, c));
    }
}

/// The edit distance is reached: some sequence of edits turns `a` into `b` with exactly as
/// many edits as the edit distance between them.
pub proof fn lemma_shortest_path(a: Seq<char>, b: Seq<char>) -> (path: Seq<Seq<char>>)
    ensures
        is_edit_path(path, a, b),
        path.len() - 1 == edit_distance(a, b),
    decreases a.len() + b.len(),
{
    if a.len() == 0 && b.len() == 0 {
        assert(a =~= b);
        seq![a]
    } else if b.len() == 0 || (a.len() > 0 && edit_distance(a, b) == edit_distance(
        a.drop_last(),
        b,
    ) + 1) {
        // The last code point of `a` is deleted first.
        let shorter = a.drop_last();
        let rest = lemma_shortest_path(shorter, b);
        let path = seq![a] + rest;
        assert(one_edit(a, shorter)) by {
            assert(shorter =~= a.remove(a.len() - 1));
        }
        assert forall|k: int| 0 <= k < path.len() - 1 implies one_edit(
            #[trigger] path[k],
            path[k + 1],
        ) by {
            if k > 0 {
                assert(one_edit(rest[k - 1], rest[k]));
            }
        }
        path
    } else if a.len() == 0 || edit_distance(a, b) == edit_distance(a, b.drop_last()) + 1 {
        // The last code point of `b` is inserted last.
        let shorter = b.drop_last();
        let rest = lemma_shortest_path(a, shorter);
        let path = rest.push(b);
        assert(one_edit(shorter, b)) by {
            assert(b =~= shorter.insert(shorter.len() as int, b.last()));
        }
        assert forall|k: int| 0 <= k < path.len() - 1 implies one_edit(
            #[trigger] path[k],
            path[k + 1],
        ) by {
            if k < rest.len() - 1 {
                assert(one_edit(rest[k], rest[k + 1]));
            }
        }
        path
    } else {
        // What stands before the two last code points is edited with the last of `a` behind
        // it, and then that last code point is replaced where the two differ.
        let rest = lemma_shortest_path(a.drop_last(), b.drop_last());
        let kept = rest.map_values(|t: Seq<char>| t.push(a.last()));
        assert(kept[0] =~= a);
        assert forall|k: int| 0 <= k < kept.len() - 1 implies one_edit(
            #[trigger] kept[k],
            kept[k + 1],
        ) by {
            assert(one_edit(rest[k], rest[k + 1]));
            lemma_edit_before_the_end(rest[k], rest[k + 1], a.last());
        }
        if a.last() == b.last() {
            assert(kept.last() =~= b);
            kept
        } else {
            let path = kept.push(b);
            assert(one_edit(kept.last(), b)) by {
                assert(b =~= kept.last().update(kept.last().len() - 1, b.last()));
            }
            assert forall|k: int| 0 <= k < path.len() - 1 implies one_edit(
                #[trigger] path[k],
                path[k + 1],
            ) by {
                if k < kept.len() - 1 {
                    assert(one_edit(kept[k], kept[k + 1]));
                }
            }
            path
        }
    }
}

/// Going by way of a third text is no shortcut: the distance from `a` to `c` is at most the
/// distance from `a` to `b` and that from `b` to `c` together.
pub proof fn lemma_distance_triangle(a: Seq<char>, b: Seq<char>, c: Seq<char>)
    ensures
        edit_distance(a, c) <= edit_distance(a, b) + edit_distance(b, c),
{
    let first = lemma_shortest_path(a, b);
    let second = lemma_shortest_path(b, c);
    let path = first + second.drop_first();
    assert forall|k: int| 0 <= k < path.len() - 1 implies one_edit(
        #[trigger] path[k],
        path[k + 1],
    ) by {
        if k < first.len() - 1 {
            assert(one_edit(first[k], first[k + 1]));
        } else {
            assert(one_edit(second[k - first.len() + 1], second[k - first.len() + 2]));
        }
    }
    lemma_no_shorter_path(path, a, c);
}

} // verus!
