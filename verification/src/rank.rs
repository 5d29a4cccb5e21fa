//! Ranking by score, highest first; among equal scores the earlier comes first.
use vstd::prelude::*;

use crate::score::Score;

verus! {

/// Whether the item at `a` ranks before the item at `b`.
pub open spec fn ahead(scores: Seq<Score>, a: int, b: int) -> bool {
    ||| scores[a].order() > scores[b].order()
    ||| scores[a].order() == scores[b].order() && a < b
}

/// `idx` lists the positions from `lo` up to `hi`, each once, best first.
pub open spec fn ranks_range(scores: Seq<Score>, idx: Seq<usize>, lo: int, hi: int) -> bool {
    &&& idx.len() == hi - lo
    &&& forall|i: int| 0 <= i < idx.len() ==> lo <= #[trigger] idx[i] < hi
    &&& forall|i: int, j: int|
        0 <= i < j < idx.len() ==> ahead(scores, #[trigger] idx[i] as int, #[trigger] idx[j] as int)
    &&& forall|k: usize| lo <= k < hi ==> #[trigger] idx.contains(k)
}

/// `idx` lists all positions, each once, best first.
pub open spec fn is_ranking(scores: Seq<Score>, idx: Seq<usize>) -> bool {
    ranks_range(scores, idx, 0, scores.len() as int)
}

/// There is only one ranking.
pub proof fn law_ranking_is_unique(scores: Seq<Score>, a: Seq<usize>, b: Seq<usize>)
    requires
        is_ranking(scores, a),
        is_ranking(scores, b),
    ensures
        a == b,
{
    let n = scores.len() as int;
    assert forall|k: int| 0 <= k <= n implies a.take(k) == #[trigger] b.take(k) by {
        lemma_ranking_unique_upto(scores, a, b, k);
    }
    assert(a.take(n) == b.take(n));
    assert(a.take(n) =~= a);
    assert(b.take(n) =~= b);
}

proof fn lemma_ranking_unique_upto(scores: Seq<Score>, a: Seq<usize>, b: Seq<usize>, k: int)
    requires
        is_ranking(scores, a),
        is_ranking(scores, b),
        0 <= k <= scores.len(),
    ensures
        a.take(k) == b.take(k),
    decreases k,
{
    if k > 0 {
        lemma_ranking_unique_upto(scores, a, b, k - 1);
        let x = a[k - 1];
        let y = b[k - 1];
        assert forall|j: int| 0 <= j < k - 1 implies a[j] == b[j] by {
            assert(a.take(k - 1)[j] == b.take(k - 1)[j]);
        }
        if x != y {
            // Each of the two stands further back in the other list.
            assert(b.contains(x));
            assert(a.contains(y));
            let jx = b.index_of(x);
            let jy = a.index_of(y);
            assert(b[jx] == x && a[jy] == y);
            if jx < k - 1 {
                assert(a[jx] == x);
                assert(ahead(scores, a[jx] as int, a[k - 1] as int));
            }
            if jy < k - 1 {
                assert(b[jy] == y);
                assert(ahead(scores, b[jy] as int, b[k - 1] as int));
            }
            assert(ahead(scores, b[k - 1] as int, b[jx] as int));
            assert(ahead(scores, a[k - 1] as int, a[jy] as int));
        }
        assert(a.take(k) =~= a.take(k - 1).push(x));
        assert(b.take(k) =~= b.take(k - 1).push(y));
    }
}

/// Ranks all positions.
pub fn rank(scores: &Vec<Score>) -> (r: Vec<usize>)
    ensures
        is_ranking(scores@, r@),
{
    rank_range(scores, 0, scores.len())
}

fn rank_range(scores: &Vec<Score>, lo: usize, hi: usize) -> (r: Vec<usize>)
    requires
        lo <= hi <= scores@.len(),
    ensures
        ranks_range(scores@, r@, lo as int, hi as int),
    decreases hi - lo,
{
    if hi - lo == 0 {
        return Vec::new();
    }
    if hi - lo == 1 {
        let mut one: Vec<usize> = Vec::new();
        one.push(lo);
        assert(one@[0] == lo);
        return one;
    }
    let mid: usize = lo + (hi - lo) / 2;
    let left = rank_range(scores, lo, mid);
    let right = rank_range(scores, mid, hi);
    merge(scores, &left, &right, lo, mid, hi)
}

fn merge(scores: &Vec<Score>, a: &Vec<usize>, b: &Vec<usize>, lo: usize, mid: usize, hi: usize) -> (r:
    Vec<usize>)
    requires
        lo <= mid <= hi <= scores@.len(),
        ranks_range(scores@, a@, lo as int, mid as int),
        ranks_range(scores@, b@, mid as int, hi as int),
    ensures
        ranks_range(scores@, r@, lo as int, hi as int),
{
    let mut out: Vec<usize> = Vec::new();
    let mut i: usize = 0;
    let mut j: usize = 0;
    while i < a.len() || j < b.len()
        invariant
            lo <= mid <= hi <= scores@.len(),
            ranks_range(scores@, a@, lo as int, mid as int),
            ranks_range(scores@, b@, mid as int, hi as int),
            i <= a@.len(),
            j <= b@.len(),
            out@.len() == i + j,
            forall|k: int| 0 <= k < out@.len() ==> lo <= #[trigger] out@[k] < hi,
            forall|k: int, l: int|
                0 <= k < l < out@.len() ==> ahead(
                    scores@,
                    #[trigger] out@[k] as int,
                    #[trigger] out@[l] as int,
                ),
            forall|k: int, l: int|
                0 <= k < out@.len() && i <= l < a@.len() ==> ahead(
                    scores@,
                    #[trigger] out@[k] as int,
                    #[trigger] a@[l] as int,
                ),
            forall|k: int, l: int|
                0 <= k < out@.len() && j <= l < b@.len() ==> ahead(
                    scores@,
                    #[trigger] out@[k] as int,
                    #[trigger] b@[l] as int,
                ),
            forall|l: int| 0 <= l < i ==> out@.contains(#[trigger] a@[l]),
            forall|l: int| 0 <= l < j ==> out@.contains(#[trigger] b@[l]),
        decreases a@.len() - i + b@.len() - j,
    {
        let ghost old_out = out@;
        let from_left = if i == a.len() {
            false
        } else if j == b.len() {
            true
        } else {
            !scores[b[j]].above(scores[a[i]])
        };
        if from_left {
            out.push(a[i]);
            proof {
                if j < b@.len() {
                    assert forall|l: int| j <= l < b@.len() implies ahead(
                        scores@,
                        a@[i as int] as int,
                        #[trigger] b@[l] as int,
                    ) by {
                        if l > j {
                            assert(ahead(scores@, b@[j as int] as int, b@[l] as int));
                        }
                    }
                }
                assert(out@[old_out.len() as int] == a@[i as int]);
            }
            i += 1;
        } else {
            out.push(b[j]);
            proof {
                if i < a@.len() {
                    assert forall|l: int| i <= l < a@.len() implies ahead(
                        scores@,
                        b@[j as int] as int,
                        #[trigger] a@[l] as int,
                    ) by {
                        if l > i {
                            assert(ahead(scores@, a@[i as int] as int, a@[l] as int));
                        }
                    }
                }
                assert(out@[old_out.len() as int] == b@[j as int]);
            }
            j += 1;
        }
        proof {
            assert forall|x: usize| old_out.contains(x) implies #[trigger] out@.contains(x) by {
                let k = old_out.index_of(x);
                assert(out@[k] == x);
            }
        }
    }
    assert forall|k: usize| lo <= k < hi implies #[trigger] out@.contains(k) by {
        if k < mid {
            assert(a@.contains(k));
            let l = a@.index_of(k);
            assert(a@[l] == k);
        } else {
            assert(b@.contains(k));
            let l = b@.index_of(k);
            assert(b@[l] == k);
        }
    }
    out
}

/// A ranking holds each position once, those with higher scores first, and of two equal
/// scores the position that stands earlier.
pub proof fn law_ranking_goes_by_score(scores: Seq<Score>, idx: Seq<usize>)
    requires
        is_ranking(scores, idx),
    ensures
        idx.len() == scores.len(),
        forall|k: usize| 0 <= k < scores.len() ==> #[trigger] idx.contains(k),
        forall|i: int, j: int|
            0 <= i < j < idx.len() ==> {
                let (a, b) = (#[trigger] idx[i], #[trigger] idx[j]);
                &&& a < scores.len() && b < scores.len() && a != b
                &&& scores[a as int].order() >= scores[b as int].order()
                &&& scores[a as int].order() == scores[b as int].order() ==> a < b
            },
{
    assert forall|i: int, j: int| 0 <= i < j < idx.len() implies ahead(
        scores,
        #[trigger] idx[i] as int,
        #[trigger] idx[j] as int,
    ) by {}
}

} // verus!
