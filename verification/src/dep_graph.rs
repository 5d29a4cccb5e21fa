//! Spreads scores over the graph of file dependencies.
//!
//! Each file hands half of its score to its neighbours, in both directions, for
//! a limited number of hops. A file ends up with the largest score that reached
//! it.
use std::collections::HashMap;
use std::collections::HashSet;
use vstd::prelude::*;

use crate::score::{lemma_bits_decide, lemma_half_keeps_order, lemma_half_toward_zero, Score};

verus! {

broadcast use vstd::std_specs::hash::group_hash_axioms;

/// Whether an edge joins `u` and `x`, in either direction.
pub open spec fn adjacent(edges: Seq<(i64, i64)>, u: i64, x: i64) -> bool {
    edges.contains((u, x)) || edges.contains((x, u))
}

/// Whether the score `v` reaches `x` from a seed over a walk of `k` edges. Each
/// edge halves the score; what is not positive goes no further than one edge
/// from its seed.
pub open spec fn reach(
    edges: Seq<(i64, i64)>,
    seeds: Seq<(i64, Score)>,
    k: nat,
    x: i64,
    v: Score,
) -> bool
    decreases k,
{
    if k == 0 {
        seeds.contains((x, v))
    } else {
        exists|u: i64, w: Score|
            reach(edges, seeds, (k - 1) as nat, u, w) && (k == 1 || w.order() > 0)
                && #[trigger] adjacent(edges, u, x) && v == #[trigger] w.halved()
    }
}

/// Whether the score `v` reaches `x` within `n` edges.
pub open spec fn reached(
    edges: Seq<(i64, i64)>,
    seeds: Seq<(i64, Score)>,
    n: nat,
    x: i64,
    v: Score,
) -> bool {
    exists|k: nat| k <= n && #[trigger] reach(edges, seeds, k, x, v)
}

/// Whether `scores` holds what spreading the seeds over `n` hops gives: every
/// file that is reached, with the largest score that reaches it, and zero where
/// none is positive.
pub open spec fn spread(
    edges: Seq<(i64, i64)>,
    seeds: Seq<(i64, Score)>,
    n: nat,
    scores: Map<i64, Score>,
) -> bool {
    &&& forall|x: i64|
        #[trigger] scores.contains_key(x) <==> exists|v: Score| reached(edges, seeds, n, x, v)
    &&& forall|x: i64, v: Score| #[trigger]
        reached(edges, seeds, n, x, v) ==> v.order() <= scores[x].order()
    &&& forall|x: i64| #[trigger]
        scores.contains_key(x) ==> scores[x].spec_bits() == 0 || (scores[x].order() > 0 && reached(
            edges,
            seeds,
            n,
            x,
            scores[x],
        ))
}

// ---------------------------------------------------------------------------
// One hop

/// The place in the order that `x` has before a hop.
pub open spec fn standing(scores: Map<i64, Score>, x: i64) -> int {
    if scores.contains_key(x) {
        scores[x].order()
    } else {
        0
    }
}

/// Whether `x` is a neighbour of a file of the frontier.
pub open spec fn touched(edges: Seq<(i64, i64)>, frontier: Seq<(i64, Score)>, x: i64) -> bool {
    exists|u: i64, w: Score| #[trigger] frontier.contains((u, w)) && adjacent(edges, u, x)
}

/// Whether a file of the frontier hands `v` to `x`.
pub open spec fn offered(
    edges: Seq<(i64, i64)>,
    frontier: Seq<(i64, Score)>,
    x: i64,
    v: Score,
) -> bool {
    exists|u: i64, w: Score| #[trigger]
        frontier.contains((u, w)) && adjacent(edges, u, x) && v == w.halved()
}

/// What a hop does to the score of `x`: it becomes the largest score offered,
/// where that is above what `x` had; a file that is touched for the first time
/// starts from zero.
pub open spec fn hop_at(
    edges: Seq<(i64, i64)>,
    scores: Map<i64, Score>,
    frontier: Seq<(i64, Score)>,
    next: Map<i64, Score>,
    x: i64,
) -> bool {
    &&& next.contains_key(x) <==> scores.contains_key(x) || touched(edges, frontier, x)
    &&& next.contains_key(x) ==> {
        &&& forall|v: Score| #[trigger]
            offered(edges, frontier, x, v) ==> v.order() <= next[x].order()
        &&& {
            ||| scores.contains_key(x) && next[x] == scores[x]
            ||| !scores.contains_key(x) && next[x].spec_bits() == 0
            ||| standing(scores, x) < next[x].order() && offered(edges, frontier, x, next[x])
        }
    }
}

/// One hop: from the scores and the frontier to the next scores and the next
/// frontier, which holds the files whose score has risen.
pub open spec fn hop(
    edges: Seq<(i64, i64)>,
    scores: Map<i64, Score>,
    frontier: Seq<(i64, Score)>,
    next: Map<i64, Score>,
    next_frontier: Seq<(i64, Score)>,
) -> bool {
    &&& forall|x: i64| #[trigger] hop_at(edges, scores, frontier, next, x)
    &&& forall|x: i64, v: Score| #[trigger]
        next_frontier.contains((x, v)) <==> next.contains_key(x) && v == next[x] && standing(
            scores,
            x,
        ) < next[x].order()
}

/// Raises the score of `x` to `v` if `v` is above it, and notes that it rose.
fn relax(
    scores: &mut HashMap<i64, Score>,
    risen: &mut Vec<i64>,
    seen: &mut HashSet<i64>,
    x: i64,
    v: Score,
)
    requires
        forall|y: i64| #[trigger] old(risen)@.contains(y) <==> old(seen)@.contains(y),
    ensures
        v.order() > standing(old(scores)@, x) ==> {
            &&& final(scores)@ == old(scores)@.insert(x, v)
            &&& forall|y: i64| #[trigger]
                final(risen)@.contains(y) <==> old(risen)@.contains(y) || y == x
        },
        v.order() <= standing(old(scores)@, x) ==> {
            &&& final(risen)@ == old(risen)@
            &&& old(scores)@.contains_key(x) ==> final(scores)@ == old(scores)@
            &&& !old(scores)@.contains_key(x) ==> exists|z: Score|
                z.spec_bits() == 0 && final(scores)@ == #[trigger] old(scores)@.insert(x, z)
        },
        forall|y: i64| #[trigger] final(risen)@.contains(y) <==> final(seen)@.contains(y),
{
    let prev = match scores.get(&x) {
        Some(s) => *s,
        None => Score::zero(),
    };
    if v.above(prev) {
        scores.insert(x, v);
        if !seen.contains(&x) {
            seen.insert(x);
            let ghost before = risen@;
            risen.push(x);
            proof {
                broadcast use vstd::seq_lib::lemma_seq_contains_after_push;

                assert(risen@ == before.push(x));
            }
        }
    } else {
        if !scores.contains_key(&x) {
            scores.insert(x, prev);
        }
    }
}

/// The scores that the files of a frontier hand on: for each file the largest
/// one that the frontier lists.
spec fn best_of(frontier: Seq<(i64, Score)>, best: Map<i64, Score>) -> bool {
    &&& forall|u: i64, w: Score| #[trigger]
        frontier.contains((u, w)) ==> best.contains_key(u) && w.order() <= best[u].order()
    &&& forall|u: i64| #[trigger] best.contains_key(u) ==> frontier.contains((u, best[u]))
}

fn best_scores(frontier: &Vec<(i64, Score)>) -> (best: HashMap<i64, Score>)
    ensures
        best_of(frontier@, best@),
{
    let mut best: HashMap<i64, Score> = HashMap::new();
    let mut i: usize = 0;
    while i < frontier.len()
        invariant
            i <= frontier@.len(),
            best_of(frontier@.take(i as int), best@),
        decreases frontier@.len() - i,
    {
        let (u, w) = frontier[i];
        let ghost done = frontier@.take(i as int);
        let ghost next = frontier@.take(i + 1);
        let ghost before = best@;
        proof {
            broadcast use vstd::seq_lib::lemma_seq_contains_after_push;

            assert(next =~= done.push((u, w)));
        }
        let raise = match best.get(&u) {
            Some(b) => w.above(*b),
            None => true,
        };
        if raise {
            best.insert(u, w);
        }
        proof {
            assert forall|a: i64, b: Score| #[trigger] next.contains((a, b)) implies
                best@.contains_key(a) && b.order() <= best@[a].order() by {
                if done.contains((a, b)) {
                    assert(before.contains_key(a));
                }
            }
            assert forall|a: i64| #[trigger] best@.contains_key(a) implies next.contains(
                (a, best@[a]),
            ) by {
                if !(raise && a == u) {
                    assert(before.contains_key(a));
                    assert(done.contains((a, before[a])));
                }
            }
        }
        i += 1;
    }
    assert(frontier@.take(i as int) =~= frontier@);
    best
}

/// Whether the file `u` hands its score to `x` over one of the arcs.
spec fn feeds(arcs: Set<(i64, i64)>, best: Map<i64, Score>, u: i64, x: i64) -> bool {
    best.contains_key(u) && arcs.contains((u, x))
}

/// The state within a hop: the arcs are those walked so far.
spec fn partly_at(
    arcs: Set<(i64, i64)>,
    best: Map<i64, Score>,
    start: Map<i64, Score>,
    scores: Map<i64, Score>,
    risen: Seq<i64>,
    x: i64,
) -> bool {
    &&& scores.contains_key(x) <==> start.contains_key(x) || exists|u: i64| feeds(arcs, best, u, x)
    &&& scores.contains_key(x) ==> {
        &&& forall|u: i64| #[trigger]
            feeds(arcs, best, u, x) ==> best[u].halved().order() <= scores[x].order()
        &&& {
            ||| start.contains_key(x) && scores[x] == start[x]
            ||| !start.contains_key(x) && scores[x].spec_bits() == 0
            ||| standing(start, x) < scores[x].order() && exists|u: i64| #[trigger]
                feeds(arcs, best, u, x) && scores[x] == best[u].halved()
        }
    }
    &&& risen.contains(x) <==> scores.contains_key(x) && standing(start, x) < scores[x].order()
}

/// A file keeps its state within a hop where nothing new feeds it.
proof fn lemma_not_fed(
    arcs: Set<(i64, i64)>,
    more: Set<(i64, i64)>,
    best: Map<i64, Score>,
    start: Map<i64, Score>,
    scores: Map<i64, Score>,
    next: Map<i64, Score>,
    risen: Seq<i64>,
    next_risen: Seq<i64>,
    y: i64,
)
    requires
        partly_at(arcs, best, start, scores, risen, y),
        forall|a: i64| #[trigger] feeds(more, best, a, y) <==> feeds(arcs, best, a, y),
        next.contains_key(y) <==> scores.contains_key(y),
        scores.contains_key(y) ==> next[y] == scores[y],
        risen.contains(y) <==> next_risen.contains(y),
    ensures
        partly_at(more, best, start, next, next_risen, y),
{
    if exists|a: i64| feeds(arcs, best, a, y) {
        let a = choose|a: i64| feeds(arcs, best, a, y);
        assert(feeds(more, best, a, y));
    }
    if exists|a: i64| feeds(more, best, a, y) {
        let a = choose|a: i64| feeds(more, best, a, y);
        assert(feeds(arcs, best, a, y));
    }
    if exists|a: i64| #[trigger] feeds(arcs, best, a, y) && scores[y] == best[a].halved() {
        let a = choose|a: i64| #[trigger] feeds(arcs, best, a, y) && scores[y] == best[a].halved();
        assert(feeds(more, best, a, y));
    }
}

/// A file that is fed once more is offered one more score.
proof fn lemma_fed(
    arcs: Set<(i64, i64)>,
    best: Map<i64, Score>,
    start: Map<i64, Score>,
    scores: Map<i64, Score>,
    next: Map<i64, Score>,
    risen: Seq<i64>,
    next_risen: Seq<i64>,
    u: i64,
    x: i64,
)
    requires
        partly_at(arcs, best, start, scores, risen, x),
        best.contains_key(u),
        next.contains_key(x),
        best[u].halved().order() > standing(scores, x) ==> next[x] == best[u].halved()
            && next_risen.contains(x),
        best[u].halved().order() <= standing(scores, x) ==> {
            &&& scores.contains_key(x) ==> next[x] == scores[x]
            &&& !scores.contains_key(x) ==> next[x].spec_bits() == 0
            &&& next_risen.contains(x) <==> risen.contains(x)
        },
    ensures
        partly_at(arcs.insert((u, x)), best, start, next, next_risen, x),
{
    let more = arcs.insert((u, x));
    assert(feeds(more, best, u, x));
    assert forall|a: i64| #[trigger] feeds(more, best, a, x) implies best[a].halved().order()
        <= next[x].order() by {
        if a != u {
            assert(feeds(arcs, best, a, x));
        }
    }
    if exists|a: i64| #[trigger] feeds(arcs, best, a, x) && scores[x] == best[a].halved() {
        let a = choose|a: i64| #[trigger] feeds(arcs, best, a, x) && scores[x] == best[a].halved();
        assert(feeds(more, best, a, x));
    }
}

/// Hands the score of `u`, if it is in the frontier, to `x`.
fn hand_on(
    scores: &mut HashMap<i64, Score>,
    risen: &mut Vec<i64>,
    seen: &mut HashSet<i64>,
    best: &HashMap<i64, Score>,
    u: i64,
    x: i64,
    Ghost(start): Ghost<Map<i64, Score>>,
    Ghost(arcs): Ghost<Set<(i64, i64)>>,
)
    requires
        forall|y: i64| #[trigger] old(risen)@.contains(y) <==> old(seen)@.contains(y),
        forall|y: i64| #[trigger]
            partly_at(arcs, best@, start, old(scores)@, old(risen)@, y),
    ensures
        forall|y: i64| #[trigger] final(risen)@.contains(y) <==> final(seen)@.contains(y),
        forall|y: i64| #[trigger]
            partly_at(arcs.insert((u, x)), best@, start, final(scores)@, final(risen)@, y),
{
    let ghost more = arcs.insert((u, x));
    let ghost scores0 = scores@;
    let ghost risen0 = risen@;
    match best.get(&u) {
        Some(w) => {
            let v = w.half();
            relax(scores, risen, seen, x, v);
            proof {
                assert forall|y: i64| #[trigger]
                    partly_at(more, best@, start, scores@, risen@, y) by {
                    assert(partly_at(arcs, best@, start, scores0, risen0, y));
                    if y == x {
                        lemma_fed(arcs, best@, start, scores0, scores@, risen0, risen@, u, x);
                    } else {
                        lemma_not_fed(
                            arcs,
                            more,
                            best@,
                            start,
                            scores0,
                            scores@,
                            risen0,
                            risen@,
                            y,
                        );
                    }
                }
            }
        },
        None => {
            proof {
                assert forall|y: i64| #[trigger]
                    partly_at(more, best@, start, scores@, risen@, y) by {
                    assert(partly_at(arcs, best@, start, scores0, risen0, y));
                    lemma_not_fed(arcs, more, best@, start, scores0, scores@, risen0, risen@, y);
                }
            }
        },
    }
}

/// Takes one hop.
fn take_hop(
    scores: &mut HashMap<i64, Score>,
    frontier: &Vec<(i64, Score)>,
    edges: &Vec<(i64, i64)>,
) -> (next: Vec<(i64, Score)>)
    ensures
        hop(edges@, old(scores)@, frontier@, final(scores)@, next@),
{
    let best = best_scores(frontier);
    let mut risen: Vec<i64> = Vec::new();
    let mut seen: HashSet<i64> = HashSet::new();
    let ghost start = scores@;
    let ghost mut arcs: Set<(i64, i64)> = Set::empty();
    let mut i: usize = 0;
    while i < edges.len()
        invariant
            i <= edges@.len(),
            forall|y: i64| #[trigger] risen@.contains(y) <==> seen@.contains(y),
            forall|y: i64| #[trigger] partly_at(arcs, best@, start, scores@, risen@, y),
            forall|u: i64, x: i64| #[trigger]
                arcs.contains((u, x)) <==> adjacent(edges@.take(i as int), u, x),
        decreases edges@.len() - i,
    {
        let (a, b) = edges[i];
        hand_on(scores, &mut risen, &mut seen, &best, a, b, Ghost(start), Ghost(arcs));
        hand_on(
            scores,
            &mut risen,
            &mut seen,
            &best,
            b,
            a,
            Ghost(start),
            Ghost(arcs.insert((a, b))),
        );
        proof {
            let done = edges@.take(i as int);
            let next = edges@.take(i + 1);
            broadcast use vstd::seq_lib::lemma_seq_contains_after_push;

            assert(next =~= done.push((a, b)));
            arcs = arcs.insert((a, b)).insert((b, a));
        }
        i += 1;
    }
    assert(edges@.take(i as int) =~= edges@);
    let mut next: Vec<(i64, Score)> = Vec::new();
    let mut j: usize = 0;
    proof {
        assert forall|y: i64| #[trigger] risen@.contains(y) implies scores@.contains_key(y) by {
            assert(partly_at(arcs, best@, start, scores@, risen@, y));
        }
    }
    while j < risen.len()
        invariant
            j <= risen@.len(),
            next@.len() == j,
            forall|k: int| 0 <= k < j ==> #[trigger] next@[k] == (risen@[k], scores@[risen@[k]]),
            forall|y: i64| #[trigger] risen@.contains(y) ==> scores@.contains_key(y),
        decreases risen@.len() - j,
    {
        let x = risen[j];
        assert(risen@.contains(x));
        match scores.get(&x) {
            Some(s) => {
                next.push((x, *s));
            },
            None => {},
        }
        j += 1;
    }
    proof {
        assert forall|x: i64| #[trigger] hop_at(edges@, start, frontier@, scores@, x) by {
            assert(partly_at(arcs, best@, start, scores@, risen@, x));
            lemma_hop_complete(edges@, arcs, frontier@, best@, start, scores@, risen@, x);
        }
        assert forall|x: i64, v: Score| #[trigger] next@.contains((x, v)) <==> scores@.contains_key(
            x,
        ) && v == scores@[x] && standing(start, x) < scores@[x].order() by {
            assert(partly_at(arcs, best@, start, scores@, risen@, x));
            if next@.contains((x, v)) {
                let k = choose|k: int| 0 <= k < next@.len() && next@[k] == (x, v);
                assert(risen@[k] == x);
                assert(risen@.contains(x));
            }
            if risen@.contains(x) && v == scores@[x] {
                let k = choose|k: int| 0 <= k < risen@.len() && risen@[k] == x;
                assert(next@[k] == (x, v));
            }
        }
    }
    next
}

/// Where all arcs have been walked, the hop is done.
proof fn lemma_hop_complete(
    edges: Seq<(i64, i64)>,
    arcs: Set<(i64, i64)>,
    frontier: Seq<(i64, Score)>,
    best: Map<i64, Score>,
    start: Map<i64, Score>,
    scores: Map<i64, Score>,
    risen: Seq<i64>,
    x: i64,
)
    requires
        best_of(frontier, best),
        forall|u: i64, y: i64| #[trigger] arcs.contains((u, y)) <==> adjacent(edges, u, y),
        partly_at(arcs, best, start, scores, risen, x),
    ensures
        hop_at(edges, start, frontier, scores, x),
{
    if exists|u: i64| feeds(arcs, best, u, x) {
        let u = choose|u: i64| feeds(arcs, best, u, x);
        assert(arcs.contains((u, x)));
        assert(frontier.contains((u, best[u])));
        assert(touched(edges, frontier, x));
    }
    if touched(edges, frontier, x) {
        let (u, w) = choose|u: i64, w: Score| #[trigger]
            frontier.contains((u, w)) && adjacent(edges, u, x);
        assert(arcs.contains((u, x)));
        assert(feeds(arcs, best, u, x));
    }
    if scores.contains_key(x) {
        assert forall|v: Score| #[trigger] offered(edges, frontier, x, v) implies v.order()
            <= scores[x].order() by {
            let (u, w) = choose|u: i64, w: Score| #[trigger]
                frontier.contains((u, w)) && adjacent(edges, u, x) && v == w.halved();
            assert(arcs.contains((u, x)));
            assert(feeds(arcs, best, u, x));
            lemma_half_keeps_order(w, best[u]);
        }
        if exists|u: i64| #[trigger] feeds(arcs, best, u, x) && scores[x] == best[u].halved() {
            let u = choose|u: i64| #[trigger]
                feeds(arcs, best, u, x) && scores[x] == best[u].halved();
            assert(arcs.contains((u, x)));
            assert(frontier.contains((u, best[u])));
            assert(offered(edges, frontier, x, scores[x]));
        }
    }
}

// ---------------------------------------------------------------------------
// All hops

/// Whether `v` reaches `u` within `n` edges and goes on from there.
spec fn live(
    edges: Seq<(i64, i64)>,
    seeds: Seq<(i64, Score)>,
    n: nat,
    u: i64,
    v: Score,
) -> bool {
    exists|k: nat|
        k <= n && #[trigger] reach(edges, seeds, k, u, v) && (k == 0 || v.order() > 0)
}

/// Whether the neighbour `x` of `u` has the score that `u` with `v` hands on, or
/// will get as much in the next hop.
spec fn handed(
    scores: Map<i64, Score>,
    frontier: Seq<(i64, Score)>,
    u: i64,
    v: Score,
    x: i64,
) -> bool {
    ||| scores.contains_key(x) && v.halved().order() <= scores[x].order()
    ||| exists|w: Score| #[trigger] frontier.contains((u, w)) && v.order() <= w.order()
}

/// The state after `n` hops: the scores are spread that far, and what has not
/// been handed on stands in the frontier.
pub closed spec fn explored(
    edges: Seq<(i64, i64)>,
    seeds: Seq<(i64, Score)>,
    n: nat,
    scores: Map<i64, Score>,
    frontier: Seq<(i64, Score)>,
) -> bool {
    &&& spread(edges, seeds, n, scores)
    &&& forall|u: i64, w: Score| #[trigger]
        frontier.contains((u, w)) ==> live(edges, seeds, n, u, w)
    &&& forall|u: i64, v: Score, x: i64|
        live(edges, seeds, n, u, v) && adjacent(edges, u, x) ==> #[trigger] handed(
            scores,
            frontier,
            u,
            v,
            x,
        )
}

proof fn lemma_step(
    edges: Seq<(i64, i64)>,
    seeds: Seq<(i64, Score)>,
    n: nat,
    u: i64,
    w: Score,
    x: i64,
)
    requires
        live(edges, seeds, n, u, w),
        adjacent(edges, u, x),
    ensures
        reached(edges, seeds, n + 1, x, w.halved()),
{
    let k = choose|k: nat|
        k <= n && #[trigger] reach(edges, seeds, k, u, w) && (k == 0 || w.order() > 0);
    assert(reach(edges, seeds, (k + 1) as nat, x, w.halved())) by {
        assert(reach(edges, seeds, ((k + 1) - 1) as nat, u, w));
    }
}

proof fn lemma_reached_more(
    edges: Seq<(i64, i64)>,
    seeds: Seq<(i64, Score)>,
    n: nat,
    x: i64,
    v: Score,
)
    requires
        reached(edges, seeds, n, x, v),
    ensures
        reached(edges, seeds, n + 1, x, v),
{
    let k = choose|k: nat| k <= n && #[trigger] reach(edges, seeds, k, x, v);
    assert(k <= n + 1 && reach(edges, seeds, k, x, v));
}

/// What is reached within `n + 1` edges is reached within `n`, or by one edge
/// from what is live.
proof fn lemma_reached_split(
    edges: Seq<(i64, i64)>,
    seeds: Seq<(i64, Score)>,
    n: nat,
    x: i64,
    v: Score,
) -> (from: (i64, Score))
    requires
        reached(edges, seeds, n + 1, x, v),
    ensures
        reached(edges, seeds, n, x, v) || (live(edges, seeds, n, from.0, from.1) && adjacent(
            edges,
            from.0,
            x,
        ) && v == from.1.halved()),
{
    let k = choose|k: nat| k <= n + 1 && #[trigger] reach(edges, seeds, k, x, v);
    if k <= n {
        assert(reached(edges, seeds, n, x, v));
        (x, v)
    } else {
        let (u, w) = choose|u: i64, w: Score|
            reach(edges, seeds, (k - 1) as nat, u, w) && (k == 1 || w.order() > 0)
                && #[trigger] adjacent(edges, u, x) && v == #[trigger] w.halved();
        assert(live(edges, seeds, n, u, w));
        (u, w)
    }
}

/// After a hop, `x` has at least what a live neighbour hands on.
proof fn lemma_hop_delivers(
    edges: Seq<(i64, i64)>,
    scores: Map<i64, Score>,
    frontier: Seq<(i64, Score)>,
    next: Map<i64, Score>,
    u: i64,
    v: Score,
    x: i64,
)
    requires
        hop_at(edges, scores, frontier, next, x),
        handed(scores, frontier, u, v, x),
        adjacent(edges, u, x),
        forall|y: i64| #[trigger] scores.contains_key(y) ==> scores[y].order() >= 0,
    ensures
        next.contains_key(x),
        v.halved().order() <= next[x].order(),
{
    if scores.contains_key(x) && v.halved().order() <= scores[x].order() {
        assert(next.contains_key(x));
    } else {
        let w = choose|w: Score| #[trigger] frontier.contains((u, w)) && v.order() <= w.order();
        assert(touched(edges, frontier, x));
        assert(offered(edges, frontier, x, w.halved()));
        lemma_half_keeps_order(v, w);
    }
}

proof fn lemma_explore_hop(
    edges: Seq<(i64, i64)>,
    seeds: Seq<(i64, Score)>,
    n: nat,
    scores: Map<i64, Score>,
    frontier: Seq<(i64, Score)>,
    next: Map<i64, Score>,
    next_frontier: Seq<(i64, Score)>,
)
    requires
        explored(edges, seeds, n, scores, frontier),
        hop(edges, scores, frontier, next, next_frontier),
    ensures
        explored(edges, seeds, n + 1, next, next_frontier),
{
    let m: nat = n + 1;
    // Whatever was live before the hop has been handed on after it.
    assert forall|u: i64, v: Score, x: i64|
        live(edges, seeds, n, u, v) && #[trigger] adjacent(edges, u, x) implies next.contains_key(x)
        && #[trigger] v.halved().order() <= next[x].order() by {
        assert(handed(scores, frontier, u, v, x));
        assert(hop_at(edges, scores, frontier, next, x));
        lemma_hop_delivers(edges, scores, frontier, next, u, v, x);
    }
    // The scores only rise.
    assert forall|x: i64| #[trigger] scores.contains_key(x) implies next.contains_key(x)
        && scores[x].order() <= next[x].order() by {
        assert(hop_at(edges, scores, frontier, next, x));
    }
    assert forall|x: i64| #[trigger] next.contains_key(x) implies (next[x].spec_bits() == 0 || (
    next[x].order() > 0 && reached(edges, seeds, m, x, next[x]))) && exists|v: Score|
        reached(edges, seeds, m, x, v) by {
        assert(hop_at(edges, scores, frontier, next, x));
        if scores.contains_key(x) {
            let v = choose|v: Score| reached(edges, seeds, n, x, v);
            lemma_reached_more(edges, seeds, n, x, v);
            if next[x] == scores[x] && next[x].spec_bits() != 0 {
                lemma_reached_more(edges, seeds, n, x, next[x]);
            }
        } else {
            assert(touched(edges, frontier, x));
            let (u, w) = choose|u: i64, w: Score| #[trigger]
                frontier.contains((u, w)) && adjacent(edges, u, x);
            lemma_step(edges, seeds, n, u, w, x);
        }
        if offered(edges, frontier, x, next[x]) {
            let (u, w) = choose|u: i64, w: Score| #[trigger]
                frontier.contains((u, w)) && adjacent(edges, u, x) && next[x] == w.halved();
            lemma_step(edges, seeds, n, u, w, x);
        }
    }
    assert forall|x: i64, v: Score| #[trigger]
        reached(edges, seeds, m, x, v) implies next.contains_key(x) && v.order()
        <= next[x].order() by {
        let (u, w) = lemma_reached_split(edges, seeds, n, x, v);
        if reached(edges, seeds, n, x, v) {
            assert(scores.contains_key(x));
        } else {
            assert(adjacent(edges, u, x));
            assert(w.halved().order() <= next[x].order());
        }
    }
    assert(spread(edges, seeds, m, next));
    assert forall|x: i64, v: Score| #[trigger] next_frontier.contains((x, v)) implies live(
        edges,
        seeds,
        m,
        x,
        v,
    ) by {
        assert(next.contains_key(x) && v == next[x] && standing(scores, x) < next[x].order());
        assert(next[x].order() > 0);
        assert(reached(edges, seeds, m, x, v));
        let k = choose|k: nat| k <= m && #[trigger] reach(edges, seeds, k, x, v);
        assert(k <= m && reach(edges, seeds, k, x, v) && (k == 0 || v.order() > 0));
    }
    assert forall|u: i64, v: Score, x: i64|
        live(edges, seeds, m, u, v) && adjacent(edges, u, x) implies #[trigger] handed(
        next,
        next_frontier,
        u,
        v,
        x,
    ) by {
        if live(edges, seeds, n, u, v) {
            assert(v.halved().order() <= next[x].order());
        } else {
            let k = choose|k: nat|
                k <= m && #[trigger] reach(edges, seeds, k, u, v) && (k == 0 || v.order() > 0);
            assert(reached(edges, seeds, m, u, v));
            assert(next.contains_key(u) && v.order() <= next[u].order());
            assert(hop_at(edges, scores, frontier, next, u));
            if standing(scores, u) < next[u].order() {
                assert(next_frontier.contains((u, next[u])));
            } else {
                // `u` had this score before the hop, so it was handed on.
                assert(next[u] == scores[u] && scores.contains_key(u));
                let w = scores[u];
                assert(reached(edges, seeds, n, u, w));
                let j = choose|j: nat| j <= n && #[trigger] reach(edges, seeds, j, u, w);
                assert(j <= n && reach(edges, seeds, j, u, w) && (j == 0 || w.order() > 0));
                assert(live(edges, seeds, n, u, w));
                assert(w.halved().order() <= next[x].order());
                lemma_half_keeps_order(v, w);
            }
        }
    }
}

/// Where the frontier is empty, further hops change nothing.
proof fn lemma_explored_done(
    edges: Seq<(i64, i64)>,
    seeds: Seq<(i64, Score)>,
    n: nat,
    more: nat,
    scores: Map<i64, Score>,
    frontier: Seq<(i64, Score)>,
)
    requires
        explored(edges, seeds, n, scores, frontier),
        frontier.len() == 0,
    ensures
        explored(edges, seeds, n + more, scores, frontier),
    decreases more,
{
    if more > 0 {
        lemma_explored_done(edges, seeds, n, (more - 1) as nat, scores, frontier);
        assert(hop(edges, scores, frontier, scores, frontier)) by {
            assert forall|x: i64| #[trigger] hop_at(edges, scores, frontier, scores, x) by {}
        }
        lemma_explore_hop(
            edges,
            seeds,
            (n + more - 1) as nat,
            scores,
            frontier,
            scores,
            frontier,
        );
    }
}

/// The state before the first hop: each seed with its largest score, or zero
/// where that is not positive.
fn seeded(seeds: &Vec<(i64, Score)>) -> (scores: HashMap<i64, Score>)
    ensures
        spread(Seq::empty(), seeds@, 0, scores@),
{
    let ghost none: Seq<(i64, i64)> = Seq::empty();
    let mut scores: HashMap<i64, Score> = HashMap::new();
    let mut i: usize = 0;
    while i < seeds.len()
        invariant
            i <= seeds@.len(),
            forall|x: i64| #[trigger]
                scores@.contains_key(x) <==> exists|v: Score|
                    seeds@.take(i as int).contains((x, v)),
            forall|x: i64, v: Score| #[trigger]
                seeds@.take(i as int).contains((x, v)) ==> v.order() <= scores@[x].order(),
            forall|x: i64| #[trigger]
                scores@.contains_key(x) ==> scores@[x].spec_bits() == 0 || (scores@[x].order() > 0
                    && seeds@.take(i as int).contains((x, scores@[x]))),
        decreases seeds@.len() - i,
    {
        let (x, v) = seeds[i];
        let ghost done = seeds@.take(i as int);
        let ghost next = seeds@.take(i + 1);
        let ghost before = scores@;
        let prev = match scores.get(&x) {
            Some(s) => *s,
            None => Score::zero(),
        };
        let kept = if v.above(prev) {
            v
        } else {
            prev
        };
        scores.insert(x, kept);
        proof {
            broadcast use vstd::seq_lib::lemma_seq_contains_after_push;

            assert(next =~= done.push((x, v)));
            assert forall|y: i64| #[trigger] scores@.contains_key(y) <==> exists|w: Score|
                next.contains((y, w)) by {
                if y == x {
                    assert(next.contains((y, v)));
                } else if exists|w: Score| done.contains((y, w)) {
                    let w = choose|w: Score| done.contains((y, w));
                    assert(next.contains((y, w)));
                } else {
                    assert(!before.contains_key(y));
                    assert forall|w: Score| !next.contains((y, w)) by {
                        assert(!done.contains((y, w)));
                    }
                }
            }
            assert forall|y: i64, w: Score| #[trigger] next.contains((y, w)) implies w.order()
                <= scores@[y].order() by {
                if done.contains((y, w)) {
                    assert(before.contains_key(y));
                }
            }
            assert forall|y: i64| #[trigger] scores@.contains_key(y) implies scores@[y].spec_bits()
                == 0 || (scores@[y].order() > 0 && next.contains((y, scores@[y]))) by {
                if y == x {
                    if before.contains_key(x) && kept == prev && kept.spec_bits() != 0 {
                        assert(done.contains((x, before[x])));
                    }
                } else {
                    assert(before.contains_key(y));
                    if scores@[y].spec_bits() != 0 {
                        assert(done.contains((y, before[y])));
                    }
                }
            }
        }
        i += 1;
    }
    proof {
        assert(seeds@.take(i as int) =~= seeds@);
        assert forall|x: i64, v: Score| #[trigger] reached(none, seeds@, 0, x, v)
            <==> seeds@.contains((x, v)) by {
            if seeds@.contains((x, v)) {
                assert(reach(none, seeds@, 0, x, v));
            }
        }
        assert forall|x: i64| #[trigger] scores@.contains_key(x) <==> exists|v: Score|
            reached(none, seeds@, 0, x, v) by {
            if exists|v: Score| seeds@.contains((x, v)) {
                let v = choose|v: Score| seeds@.contains((x, v));
                assert(reached(none, seeds@, 0, x, v));
            }
            if exists|v: Score| reached(none, seeds@, 0, x, v) {
                let v = choose|v: Score| reached(none, seeds@, 0, x, v);
                assert(seeds@.contains((x, v)));
            }
        }
    }
    scores
}

proof fn lemma_explored_start(
    edges: Seq<(i64, i64)>,
    seeds: Seq<(i64, Score)>,
    scores: Map<i64, Score>,
)
    requires
        spread(Seq::empty(), seeds, 0, scores),
    ensures
        explored(edges, seeds, 0, scores, seeds),
{
    let none: Seq<(i64, i64)> = Seq::empty();
    assert forall|x: i64, v: Score| #[trigger] reached(edges, seeds, 0, x, v) <==> reached(
        none,
        seeds,
        0,
        x,
        v,
    ) by {
        if reached(edges, seeds, 0, x, v) {
            assert(reach(none, seeds, 0, x, v));
        }
        if reached(none, seeds, 0, x, v) {
            assert(reach(edges, seeds, 0, x, v));
        }
    }
    assert forall|x: i64| #[trigger] scores.contains_key(x) <==> exists|v: Score|
        reached(edges, seeds, 0, x, v) by {
        if scores.contains_key(x) {
            let v = choose|v: Score| reached(none, seeds, 0, x, v);
            assert(reached(edges, seeds, 0, x, v));
        }
        if exists|v: Score| reached(edges, seeds, 0, x, v) {
            let v = choose|v: Score| reached(edges, seeds, 0, x, v);
            assert(reached(none, seeds, 0, x, v));
        }
    }
    assert forall|x: i64, v: Score| #[trigger] reached(edges, seeds, 0, x, v) implies v.order()
        <= scores[x].order() by {
        assert(reached(none, seeds, 0, x, v));
    }
    assert forall|u: i64, w: Score| #[trigger] seeds.contains((u, w)) implies live(
        edges,
        seeds,
        0,
        u,
        w,
    ) by {
        assert(reach(edges, seeds, 0, u, w));
    }
    assert forall|u: i64, v: Score, x: i64|
        live(edges, seeds, 0, u, v) && adjacent(edges, u, x) implies #[trigger] handed(
        scores,
        seeds,
        u,
        v,
        x,
    ) by {
        assert(seeds.contains((u, v)));
    }
}

/// The spreading of scores, one hop at a time. Between two hops the caller looks
/// up the edges at the files of the frontier.
pub struct Expansion {
    scores: HashMap<i64, Score>,
    frontier: Vec<(i64, Score)>,
    hops: u8,
    limit: u8,
}

impl Expansion {
    /// The scores so far.
    pub closed spec fn scores(self) -> Map<i64, Score> {
        self.scores@
    }

    /// The files whose score rose in the last hop, with it; at first the seeds.
    pub closed spec fn frontier(self) -> Seq<(i64, Score)> {
        self.frontier@
    }

    /// The number of hops taken.
    pub closed spec fn hops(self) -> nat {
        self.hops as nat
    }

    /// The number of hops to take.
    pub closed spec fn limit(self) -> nat {
        self.limit as nat
    }

    /// Starts from the seeds.
    pub fn start(seeds: &Vec<(i64, Score)>, max_depth: u8) -> (r: Expansion)
        ensures
            spread(Seq::empty(), seeds@, 0, r.scores()),
            r.frontier() == seeds@,
            r.hops() == 0,
            r.limit() == max_depth,
    {
        let scores = seeded(seeds);
        let mut frontier: Vec<(i64, Score)> = Vec::new();
        let mut i: usize = 0;
        while i < seeds.len()
            invariant
                i <= seeds@.len(),
                frontier@ =~= seeds@.take(i as int),
            decreases seeds@.len() - i,
        {
            frontier.push(seeds[i]);
            i += 1;
        }
        assert(seeds@.take(i as int) =~= seeds@);
        Expansion { scores, frontier, hops: 0, limit: max_depth }
    }

    /// The files whose edges the next hop needs; nothing where no hop is left or
    /// no score rose.
    pub fn pending(&self) -> (r: Option<Vec<i64>>)
        ensures
            r is None <==> self.hops() >= self.limit() || self.frontier().len() == 0,
            r matches Some(ids) ==> ids@ == self.frontier().map_values(|f: (i64, Score)| f.0),
    {
        if self.hops >= self.limit || self.frontier.len() == 0 {
            return None;
        }
        let mut ids: Vec<i64> = Vec::new();
        let mut i: usize = 0;
        while i < self.frontier.len()
            invariant
                i <= self.frontier@.len(),
                ids@ =~= self.frontier@.take(i as int).map_values(|f: (i64, Score)| f.0),
            decreases self.frontier@.len() - i,
        {
            ids.push(self.frontier[i].0);
            i += 1;
        }
        assert(self.frontier@.take(i as int) =~= self.frontier@);
        Some(ids)
    }

    /// Takes a hop over the given edges.
    pub fn advance(&mut self, edges: &Vec<(i64, i64)>)
        requires
            old(self).hops() < old(self).limit(),
        ensures
            hop(
                edges@,
                old(self).scores(),
                old(self).frontier(),
                final(self).scores(),
                final(self).frontier(),
            ),
            final(self).hops() == old(self).hops() + 1,
            final(self).limit() == old(self).limit(),
    {
        let next = take_hop(&mut self.scores, &self.frontier, edges);
        self.frontier = next;
        self.hops = self.hops + 1;
    }

    /// The scores in the end.
    pub fn finish(self) -> (r: HashMap<i64, Score>)
        ensures
            r@ == self.scores(),
    {
        self.scores
    }
}

/// Spreads the scores of the seeds over the graph, over at most `max_depth` hops.
pub fn bfs_expand(
    edges: &Vec<(i64, i64)>,
    seeds: &Vec<(i64, Score)>,
    max_depth: u8,
) -> (r: HashMap<i64, Score>)
    ensures
        spread(edges@, seeds@, max_depth as nat, r@),
{
    let mut e = Expansion::start(seeds, max_depth);
    proof {
        lemma_explored_start(edges@, seeds@, e.scores());
    }
    while e.pending().is_some()
        invariant
            e.limit() == max_depth,
            e.hops() <= max_depth,
            explored(edges@, seeds@, e.hops(), e.scores(), e.frontier()),
        decreases max_depth - e.hops(),
    {
        let ghost before = e;
        e.advance(edges);
        proof {
            lemma_explore_hop(
                edges@,
                seeds@,
                before.hops(),
                before.scores(),
                before.frontier(),
                e.scores(),
                e.frontier(),
            );
        }
    }
    proof {
        if e.hops() < max_depth {
            lemma_explored_done(
                edges@,
                seeds@,
                e.hops(),
                (max_depth - e.hops()) as nat,
                e.scores(),
                e.frontier(),
            );
        }
    }
    e.finish()
}

// ---------------------------------------------------------------------------
// Laws

/// The seeds, the edges and the number of hops decide every score.
pub proof fn law_spread_decided(
    edges: Seq<(i64, i64)>,
    seeds: Seq<(i64, Score)>,
    n: nat,
    a: Map<i64, Score>,
    b: Map<i64, Score>,
)
    requires
        spread(edges, seeds, n, a),
        spread(edges, seeds, n, b),
    ensures
        a == b,
{
    assert forall|x: i64| #[trigger] a.contains_key(x) <==> b.contains_key(x) by {}
    assert forall|x: i64| #[trigger] a.contains_key(x) implies a[x] == b[x] by {
        assert(b.contains_key(x));
        assert(a[x].order() == b[x].order());
        lemma_bits_decide(a[x], b[x]);
    }
    assert(a =~= b);
}

/// Every seed is among the files, with a score not below its own.
pub proof fn law_seeds_stay(
    edges: Seq<(i64, i64)>,
    seeds: Seq<(i64, Score)>,
    n: nat,
    scores: Map<i64, Score>,
    x: i64,
    v: Score,
)
    requires
        spread(edges, seeds, n, scores),
        seeds.contains((x, v)),
    ensures
        scores.contains_key(x),
        v.order() <= scores[x].order(),
{
    assert(reach(edges, seeds, 0, x, v));
    assert(reached(edges, seeds, n, x, v));
}

/// A score that reaches a file before the last hop gives each neighbour at
/// least half of it, whichever way the edge points.
pub proof fn law_neighbours_get_half(
    edges: Seq<(i64, i64)>,
    seeds: Seq<(i64, Score)>,
    n: nat,
    scores: Map<i64, Score>,
    u: i64,
    v: Score,
    x: i64,
)
    requires
        spread(edges, seeds, n + 1, scores),
        reached(edges, seeds, n, u, v),
        v.order() > 0,
        edges.contains((u, x)) || edges.contains((x, u)),
    ensures
        scores.contains_key(x),
        v.halved().order() <= scores[x].order(),
{
    let k = choose|k: nat| k <= n && #[trigger] reach(edges, seeds, k, u, v);
    assert(k <= n && reach(edges, seeds, k, u, v) && (k == 0 || v.order() > 0));
    assert(live(edges, seeds, n, u, v));
    lemma_step(edges, seeds, n, u, v, x);
    let m: nat = n + 1;
    assert(reached(edges, seeds, m, x, v.halved()));
}

proof fn lemma_reach_bounded(
    edges: Seq<(i64, i64)>,
    seeds: Seq<(i64, Score)>,
    k: nat,
    x: i64,
    v: Score,
) -> (seed: (i64, Score))
    requires
        reach(edges, seeds, k, x, v),
        v.order() > 0,
    ensures
        seeds.contains(seed),
        v.order() <= seed.1.order(),
    decreases k,
{
    if k == 0 {
        (x, v)
    } else {
        let (u, w) = choose|u: i64, w: Score|
            reach(edges, seeds, (k - 1) as nat, u, w) && (k == 1 || w.order() > 0)
                && #[trigger] adjacent(edges, u, x) && v == #[trigger] w.halved();
        lemma_half_toward_zero(w);
        lemma_reach_bounded(edges, seeds, (k - 1) as nat, u, w)
    }
}

/// No file ends above the best seed.
pub proof fn law_no_score_above_the_seeds(
    edges: Seq<(i64, i64)>,
    seeds: Seq<(i64, Score)>,
    n: nat,
    scores: Map<i64, Score>,
    x: i64,
)
    requires
        spread(edges, seeds, n, scores),
        scores.contains_key(x),
        scores[x].order() > 0,
    ensures
        exists|seed: (i64, Score)| #[trigger]
            seeds.contains(seed) && scores[x].order() <= seed.1.order(),
{
    assert(reached(edges, seeds, n, x, scores[x]));
    let k = choose|k: nat| k <= n && #[trigger] reach(edges, seeds, k, x, scores[x]);
    let seed = lemma_reach_bounded(edges, seeds, k, x, scores[x]);
    assert(seeds.contains(seed));
}

/// A further hop loses no file and lowers no score.
pub proof fn law_hops_only_raise(
    edges: Seq<(i64, i64)>,
    seeds: Seq<(i64, Score)>,
    n: nat,
    scores: Map<i64, Score>,
    more: Map<i64, Score>,
    x: i64,
)
    requires
        spread(edges, seeds, n, scores),
        spread(edges, seeds, n + 1, more),
        scores.contains_key(x),
    ensures
        more.contains_key(x),
        scores[x].order() <= more[x].order(),
{
    let m: nat = n + 1;
    let v = choose|v: Score| reached(edges, seeds, n, x, v);
    lemma_reached_more(edges, seeds, n, x, v);
    assert(reached(edges, seeds, m, x, v));
    assert(more.contains_key(x));
    assert(more[x].order() >= 0);
    if scores[x].order() > 0 {
        lemma_reached_more(edges, seeds, n, x, scores[x]);
        assert(reached(edges, seeds, m, x, scores[x]));
    }
}

/// The edges with their ends swapped.
pub open spec fn swapped(edges: Seq<(i64, i64)>) -> Seq<(i64, i64)> {
    edges.map_values(|e: (i64, i64)| (e.1, e.0))
}

proof fn lemma_swapped_adjacent(edges: Seq<(i64, i64)>, u: i64, x: i64)
    ensures
        adjacent(swapped(edges), u, x) == adjacent(edges, u, x),
{
    let r = swapped(edges);
    assert forall|a: i64, b: i64| #[trigger] edges.contains((a, b)) <==> r.contains((b, a)) by {
        if edges.contains((a, b)) {
            let i = choose|i: int| 0 <= i < edges.len() && edges[i] == (a, b);
            assert(r[i] == (b, a));
        }
        if r.contains((b, a)) {
            let i = choose|i: int| 0 <= i < r.len() && r[i] == (b, a);
            assert(edges[i] == (a, b));
        }
    }
}

proof fn lemma_swapped_reach(
    edges: Seq<(i64, i64)>,
    seeds: Seq<(i64, Score)>,
    k: nat,
    x: i64,
    v: Score,
)
    ensures
        reach(swapped(edges), seeds, k, x, v) == reach(edges, seeds, k, x, v),
    decreases k,
{
    let r = swapped(edges);
    if k > 0 {
        let p = (k - 1) as nat;
        if reach(edges, seeds, k, x, v) {
            let (u, w) = choose|u: i64, w: Score|
                reach(edges, seeds, p, u, w) && (k == 1 || w.order() > 0)
                    && #[trigger] adjacent(edges, u, x) && v == #[trigger] w.halved();
            lemma_swapped_adjacent(edges, u, x);
            lemma_swapped_reach(edges, seeds, p, u, w);
            assert(adjacent(r, u, x));
        }
        if reach(r, seeds, k, x, v) {
            let (u, w) = choose|u: i64, w: Score|
                reach(r, seeds, p, u, w) && (k == 1 || w.order() > 0)
                    && #[trigger] adjacent(r, u, x) && v == #[trigger] w.halved();
            lemma_swapped_adjacent(edges, u, x);
            lemma_swapped_reach(edges, seeds, p, u, w);
            assert(adjacent(edges, u, x));
        }
    }
}

proof fn lemma_swapped_reached(
    edges: Seq<(i64, i64)>,
    seeds: Seq<(i64, Score)>,
    n: nat,
    x: i64,
    v: Score,
)
    ensures
        reached(swapped(edges), seeds, n, x, v) == reached(edges, seeds, n, x, v),
{
    let r = swapped(edges);
    if reached(edges, seeds, n, x, v) {
        let k = choose|k: nat| k <= n && #[trigger] reach(edges, seeds, k, x, v);
        lemma_swapped_reach(edges, seeds, k, x, v);
        assert(reach(r, seeds, k, x, v));
    }
    if reached(r, seeds, n, x, v) {
        let k = choose|k: nat| k <= n && #[trigger] reach(r, seeds, k, x, v);
        lemma_swapped_reach(edges, seeds, k, x, v);
        assert(reach(edges, seeds, k, x, v));
    }
}

/// The direction of the edges does not matter.
pub proof fn law_direction_does_not_matter(
    edges: Seq<(i64, i64)>,
    seeds: Seq<(i64, Score)>,
    n: nat,
    scores: Map<i64, Score>,
)
    requires
        spread(edges, seeds, n, scores),
    ensures
        spread(swapped(edges), seeds, n, scores),
{
    let r = swapped(edges);
    assert forall|x: i64, v: Score| #[trigger] reached(r, seeds, n, x, v) <==> reached(
        edges,
        seeds,
        n,
        x,
        v,
    ) by {
        lemma_swapped_reached(edges, seeds, n, x, v);
    }
    assert forall|x: i64| #[trigger] scores.contains_key(x) <==> exists|v: Score|
        reached(r, seeds, n, x, v) by {
        if scores.contains_key(x) {
            let v = choose|v: Score| reached(edges, seeds, n, x, v);
            assert(reached(r, seeds, n, x, v));
        }
        if exists|v: Score| reached(r, seeds, n, x, v) {
            let v = choose|v: Score| reached(r, seeds, n, x, v);
            assert(reached(edges, seeds, n, x, v));
        }
    }
    assert forall|x: i64, v: Score| #[trigger] reached(r, seeds, n, x, v) implies v.order()
        <= scores[x].order() by {
        assert(reached(edges, seeds, n, x, v));
    }
    assert forall|x: i64| #[trigger] scores.contains_key(x) implies scores[x].spec_bits() == 0 || (
    scores[x].order() > 0 && reached(r, seeds, n, x, scores[x])) by {
        assert(reached(r, seeds, n, x, scores[x]) == reached(edges, seeds, n, x, scores[x]));
    }
}

/// Before the first hop the state is that of no hops, whatever the edges.
pub proof fn law_start_explores_nothing(
    edges: Seq<(i64, i64)>,
    seeds: Seq<(i64, Score)>,
    scores: Map<i64, Score>,
)
    requires
        spread(Seq::empty(), seeds, 0, scores),
    ensures
        explored(edges, seeds, 0, scores, seeds),
{
    lemma_explored_start(edges, seeds, scores);
}

/// A hop over those edges of a graph that touch the frontier takes the state one
/// hop further in the whole graph.
pub proof fn law_edges_at_the_frontier_suffice(
    edges: Seq<(i64, i64)>,
    some: Seq<(i64, i64)>,
    seeds: Seq<(i64, Score)>,
    n: nat,
    scores: Map<i64, Score>,
    frontier: Seq<(i64, Score)>,
    next: Map<i64, Score>,
    next_frontier: Seq<(i64, Score)>,
)
    requires
        explored(edges, seeds, n, scores, frontier),
        hop(some, scores, frontier, next, next_frontier),
        forall|u: i64, w: Score, x: i64| #[trigger]
            frontier.contains((u, w)) ==> #[trigger] adjacent(some, u, x) == adjacent(edges, u, x),
    ensures
        explored(edges, seeds, n + 1, next, next_frontier),
{
    assert forall|x: i64| #[trigger] hop_at(edges, scores, frontier, next, x) by {
        assert(hop_at(some, scores, frontier, next, x));
        if touched(edges, frontier, x) {
            let (u, w) = choose|u: i64, w: Score| #[trigger]
                frontier.contains((u, w)) && adjacent(edges, u, x);
            assert(adjacent(some, u, x));
        }
        if touched(some, frontier, x) {
            let (u, w) = choose|u: i64, w: Score| #[trigger]
                frontier.contains((u, w)) && adjacent(some, u, x);
            assert(adjacent(edges, u, x));
        }
        assert forall|v: Score| #[trigger] offered(edges, frontier, x, v) <==> offered(
            some,
            frontier,
            x,
            v,
        ) by {
            if offered(edges, frontier, x, v) {
                let (u, w) = choose|u: i64, w: Score| #[trigger]
                    frontier.contains((u, w)) && adjacent(edges, u, x) && v == w.halved();
                assert(adjacent(some, u, x));
            }
            if offered(some, frontier, x, v) {
                let (u, w) = choose|u: i64, w: Score| #[trigger]
                    frontier.contains((u, w)) && adjacent(some, u, x) && v == w.halved();
                assert(adjacent(edges, u, x));
            }
        }
        assert forall|v: Score| #[trigger] offered(edges, frontier, x, v) && next.contains_key(
            x,
        ) implies v.order() <= next[x].order() by {
            assert(offered(some, frontier, x, v));
        }
        assert(offered(edges, frontier, x, next[x]) == offered(some, frontier, x, next[x]));
    }
    lemma_explore_hop(edges, seeds, n, scores, frontier, next, next_frontier);
}

/// After all hops, and once no score rises any more, the scores are spread.
pub proof fn law_explored_is_spread(
    edges: Seq<(i64, i64)>,
    seeds: Seq<(i64, Score)>,
    n: nat,
    limit: nat,
    scores: Map<i64, Score>,
    frontier: Seq<(i64, Score)>,
)
    requires
        explored(edges, seeds, n, scores, frontier),
        n == limit || (n < limit && frontier.len() == 0),
    ensures
        spread(edges, seeds, limit, scores),
{
    if n < limit {
        lemma_explored_done(edges, seeds, n, (limit - n) as nat, scores, frontier);
    }
}

/// Without hops the files are the seeds, each with the highest of its scores, or with zero
/// where none of them is positive.
pub proof fn law_no_hop(
    edges: Seq<(i64, i64)>,
    seeds: Seq<(i64, Score)>,
    scores: Map<i64, Score>,
    x: i64,
)
    requires
        spread(edges, seeds, 0, scores),
    ensures
        scores.contains_key(x) <==> exists|v: Score| #[trigger] seeds.contains((x, v)),
        forall|v: Score| #[trigger] seeds.contains((x, v)) ==> v.order() <= scores[x].order(),
        scores.contains_key(x) ==> scores[x].spec_bits() == 0 || (scores[x].order() > 0
            && seeds.contains((x, scores[x]))),
{
    assert forall|v: Score| #[trigger] reached(edges, seeds, 0, x, v) <==> seeds.contains(
        (x, v),
    ) by {
        if seeds.contains((x, v)) {
            assert(reach(edges, seeds, 0, x, v));
        }
    }
    if scores.contains_key(x) {
        let v = choose|v: Score| reached(edges, seeds, 0, x, v);
        assert(seeds.contains((x, v)));
    }
    if exists|v: Score| #[trigger] seeds.contains((x, v)) {
        let v = choose|v: Score| #[trigger] seeds.contains((x, v));
        assert(reached(edges, seeds, 0, x, v));
    }
    assert forall|v: Score| #[trigger] seeds.contains((x, v)) implies v.order()
        <= scores[x].order() by {
        assert(reached(edges, seeds, 0, x, v));
    }
    assert(reached(edges, seeds, 0, x, scores[x]) <==> seeds.contains((x, scores[x])));
}

proof fn lemma_positive_score(
    edges: Seq<(i64, i64)>,
    seeds: Seq<(i64, Score)>,
    n: nat,
    scores: Map<i64, Score>,
    u: i64,
    w: Score,
)
    requires
        spread(edges, seeds, n, scores),
        reached(edges, seeds, n, u, w),
        w.order() > 0,
    ensures
        scores.contains_key(u),
        scores[u].order() >= w.order(),
{
}

proof fn lemma_files_of_hop(
    edges: Seq<(i64, i64)>,
    seeds: Seq<(i64, Score)>,
    n: nat,
    scores: Map<i64, Score>,
    more: Map<i64, Score>,
    x: i64,
)
    requires
        spread(edges, seeds, n, scores),
        spread(edges, seeds, n + 1, more),
    ensures
        more.contains_key(x) <==> scores.contains_key(x) || exists|u: i64|
            #![trigger scores.contains_key(u)]
            scores.contains_key(u) && (n == 0 || scores[u].order() > 0) && (edges.contains((u, x))
                || edges.contains((x, u))),
{
    let m: nat = n + 1;
    if more.contains_key(x) && !scores.contains_key(x) {
        let v = choose|v: Score| reached(edges, seeds, m, x, v);
        let k = choose|k: nat| k <= m && #[trigger] reach(edges, seeds, k, x, v);
        if k <= n {
            assert(reached(edges, seeds, n, x, v));
        }
        let before: nat = (k - 1) as nat;
        let (u, w) = choose|u: i64, w: Score|
            reach(edges, seeds, before, u, w) && (k == 1 || w.order() > 0)
                && #[trigger] adjacent(edges, u, x) && v == #[trigger] w.halved();
        assert(before <= n && reach(edges, seeds, before, u, w));
        assert(reached(edges, seeds, n, u, w));
        assert(scores.contains_key(u));
        if n > 0 {
            lemma_positive_score(edges, seeds, n, scores, u, w);
        }
        assert(edges.contains((u, x)) || edges.contains((x, u)));
    }
    if scores.contains_key(x) {
        law_hops_only_raise(edges, seeds, n, scores, more, x);
    } else if exists|u: i64|
        #![trigger scores.contains_key(u)]
        scores.contains_key(u) && (n == 0 || scores[u].order() > 0) && (edges.contains((u, x))
            || edges.contains((x, u))) {
        let u = choose|u: i64|
            #![trigger scores.contains_key(u)]
            scores.contains_key(u) && (n == 0 || scores[u].order() > 0) && (edges.contains((u, x))
                || edges.contains((x, u)));
        assert(adjacent(edges, u, x));
        if scores[u].order() > 0 {
            assert(reached(edges, seeds, n, u, scores[u]));
            law_neighbours_get_half(edges, seeds, n, more, u, scores[u], x);
        } else {
            let w = choose|w: Score| reached(edges, seeds, 0, u, w);
            assert(reach(edges, seeds, 0, u, w));
            let h = w.halved();
            assert(reach(edges, seeds, 1, x, h));
            assert(1 <= m && reach(edges, seeds, 1, x, h));
            assert(reached(edges, seeds, m, x, h));
        }
    }
}

/// What one more hop does: a file keeps its score or has half that of a file that an edge
/// joins it to, whichever is more. An edge counts both ways.
pub proof fn law_one_more_hop(
    edges: Seq<(i64, i64)>,
    seeds: Seq<(i64, Score)>,
    n: nat,
    scores: Map<i64, Score>,
    more: Map<i64, Score>,
    x: i64,
)
    requires
        spread(edges, seeds, n, scores),
        spread(edges, seeds, n + 1, more),
    ensures
        scores.contains_key(x) ==> more.contains_key(x) && scores[x].order() <= more[x].order(),
        forall|u: i64|
            #![trigger scores.contains_key(u)]
            scores.contains_key(u) && scores[u].order() > 0 && (edges.contains((u, x))
                || edges.contains((x, u))) ==> more.contains_key(x) && scores[u].halved().order()
                <= more[x].order(),
        more.contains_key(x) && more[x].order() > 0 ==> (scores.contains_key(x) && more[x]
            == scores[x]) || exists|u: i64|
            #![trigger scores.contains_key(u)]
            scores.contains_key(u) && scores[u].order() > 0 && (edges.contains((u, x))
                || edges.contains((x, u))) && more[x] == scores[u].halved(),
        more.contains_key(x) <==> scores.contains_key(x) || exists|u: i64|
            #![trigger scores.contains_key(u)]
            scores.contains_key(u) && (n == 0 || scores[u].order() > 0) && (edges.contains((u, x))
                || edges.contains((x, u))),
{
    let m: nat = n + 1;
    lemma_files_of_hop(edges, seeds, n, scores, more, x);
    if scores.contains_key(x) {
        law_hops_only_raise(edges, seeds, n, scores, more, x);
    }
    assert forall|u: i64|
        #![trigger scores.contains_key(u)]
        scores.contains_key(u) && scores[u].order() > 0 && (edges.contains((u, x))
            || edges.contains((x, u))) implies more.contains_key(x) && scores[u].halved().order()
        <= more[x].order() by {
        assert(reached(edges, seeds, n, u, scores[u]));
        law_neighbours_get_half(edges, seeds, n, more, u, scores[u], x);
    }
    if more.contains_key(x) && more[x].order() > 0 {
        let v = more[x];
        assert(reached(edges, seeds, m, x, v));
        let k = choose|k: nat| k <= m && #[trigger] reach(edges, seeds, k, x, v);
        if k <= n {
            assert(reached(edges, seeds, n, x, v));
            lemma_positive_score(edges, seeds, n, scores, x, v);
            law_hops_only_raise(edges, seeds, n, scores, more, x);
            lemma_bits_decide(v, scores[x]);
        } else {
            let (u, w) = choose|u: i64, w: Score|
                reach(edges, seeds, (k - 1) as nat, u, w) && (k == 1 || w.order() > 0)
                    && #[trigger] adjacent(edges, u, x) && v == #[trigger] w.halved();
            assert(w.order() > 0) by {
                lemma_half_toward_zero(w);
            }
            let before: nat = (k - 1) as nat;
            assert(before <= n && reach(edges, seeds, before, u, w));
            assert(reached(edges, seeds, n, u, w));
            lemma_positive_score(edges, seeds, n, scores, u, w);
            lemma_half_keeps_order(w, scores[u]);
            assert(edges.contains((u, x)) || edges.contains((x, u)));
            assert(scores.contains_key(u));
            assert(scores[u].halved().order() <= v.order());
            lemma_bits_decide(v, scores[u].halved());
        }
    }
}

} // verus!
