//! Semantic search: embedding vectors, and their ranking fused with that of the
//! full-text search by reciprocal ranks.
//!
//! The vectors and the reciprocals are floating-point numbers. Here vectors are
//! lists of the bits of their components, and what is computed from them comes
//! in as a [`Score`].
use std::collections::HashMap;
use vstd::prelude::*;

use crate::index_builder::{is_changed, sha_changed};
use crate::score::Score;
use crate::text::{
    among, decimal, law_decimal, number, parse_number, texts, trim_end, trim_end_any,
};
use crate::top::{best, best_files, is_ranked, law_ranked, ranked};

verus! {

broadcast use vstd::std_specs::hash::group_hash_axioms;

/// The most characters of a file that are embedded.
pub const EMBED_CHAR_LIMIT: usize = 8000;

/// How many files are embedded together.
pub const EMBED_BATCH: usize = 64;

/// The most files that a vector search gives.
pub const SEARCH_VECTORS_MAX: usize = 3000;

/// How often a request is sent at most.
pub const MAX_ATTEMPTS: u32 = 3;

/// The time to connect within, in seconds.
pub const CONNECT_TIMEOUT_SECS: u64 = 5;

/// The time to read within, in seconds, where none is set.
pub const DEFAULT_READ_TIMEOUT_SECS: u64 = 30;

/// What is added to each rank before it is inverted.
pub const RANK_OFFSET: u32 = 60;

/// What a text is embedded for. Documents and queries are embedded differently.
#[derive(Debug, Clone, Copy, PartialEq, Eq, Structural)]
pub enum EmbedMode {
    /// A document that is indexed.
    Index,
    /// A query.
    Search,
}

impl EmbedMode {
    /// The name of the mode.
    pub open spec fn name(self) -> Seq<char> {
        match self {
            EmbedMode::Index => "index"@,
            EmbedMode::Search => "search"@,
        }
    }

    /// The name of the mode.
    pub fn as_str(self) -> (r: &'static str)
        ensures
            r@ == self.name(),
    {
        match self {
            EmbedMode::Index => "index",
            EmbedMode::Search => "search",
        }
    }
}

// ---------------------------------------------------------------------------
// Stored vectors

/// The `k`th byte of a component, the lowest first.
pub open spec fn byte_of(bits: u32, k: int) -> u8 {
    if k == 0 {
        (bits as int % 0x100) as u8
    } else if k == 1 {
        (bits as int / 0x100 % 0x100) as u8
    } else if k == 2 {
        (bits as int / 0x1_0000 % 0x100) as u8
    } else {
        (bits as int / 0x100_0000) as u8
    }
}

/// The bytes of a vector: four for each component, the lowest first.
pub open spec fn blob(v: Seq<u32>) -> Seq<u8> {
    Seq::new(v.len() * 4, |i: int| byte_of(v[i / 4], i % 4))
}

/// The vector that bytes hold. Bytes behind the last whole component are left out.
pub open spec fn unblob(b: Seq<u8>) -> Seq<u32> {
    Seq::new(
        b.len() / 4,
        |i: int|
            (b[i * 4] + b[i * 4 + 1] * 0x100 + b[i * 4 + 2] * 0x1_0000 + b[i * 4 + 3]
                * 0x100_0000) as u32,
    )
}

/// Writes a vector as bytes.
pub fn vec_to_blob(v: &Vec<u32>) -> (r: Vec<u8>)
    ensures
        r@ == blob(v@),
{
    let mut out: Vec<u8> = Vec::new();
    let mut i: usize = 0;
    while i < v.len()
        invariant
            i <= v@.len(),
            out@.len() == i * 4,
            forall|k: int| 0 <= k < out@.len() ==> #[trigger] out@[k] == byte_of(v@[k / 4], k % 4),
        decreases v@.len() - i,
    {
        let bits: u32 = v[i];
        let ghost before = out@;
        out.push((bits % 0x100) as u8);
        out.push((bits / 0x100 % 0x100) as u8);
        out.push((bits / 0x1_0000 % 0x100) as u8);
        out.push((bits / 0x100_0000) as u8);
        proof {
            assert forall|k: int| 0 <= k < out@.len() implies #[trigger] out@[k] == byte_of(
                v@[k / 4],
                k % 4,
            ) by {
                if k < before.len() {
                    assert(out@[k] == before[k]);
                }
            }
        }
        i += 1;
    }
    assert(out@ =~= blob(v@));
    out
}

/// Reads a vector from bytes.
pub fn blob_to_vec(b: &[u8]) -> (r: Vec<u32>)
    ensures
        r@ == unblob(b@),
{
    let mut out: Vec<u32> = Vec::new();
    let len: usize = b.len();
    let n: usize = len / 4;
    let mut i: usize = 0;
    while i < n
        invariant
            i <= n,
            n * 4 <= len == b@.len(),
            out@.len() == i,
            forall|k: int|
                0 <= k < i ==> #[trigger] out@[k] == (b@[k * 4] + b@[k * 4 + 1] * 0x100 + b@[k * 4
                    + 2] * 0x1_0000 + b@[k * 4 + 3] * 0x100_0000) as u32,
        decreases n - i,
    {
        let at: usize = i * 4;
        let bits: u32 = b[at] as u32 + b[at + 1] as u32 * 0x100 + b[at + 2] as u32 * 0x1_0000
            + b[at + 3] as u32 * 0x100_0000;
        out.push(bits);
        i += 1;
    }
    assert(out@ =~= unblob(b@));
    out
}

/// A vector that is written is read back as it was.
pub proof fn law_vector_roundtrip(v: Seq<u32>)
    ensures
        unblob(blob(v)) == v,
{
    let b = blob(v);
    assert forall|i: int| 0 <= i < v.len() implies #[trigger] unblob(b)[i] == v[i] by {
        assert((i * 4) / 4 == i && (i * 4) % 4 == 0);
        assert((i * 4 + 1) / 4 == i && (i * 4 + 1) % 4 == 1);
        assert((i * 4 + 2) / 4 == i && (i * 4 + 2) % 4 == 2);
        assert((i * 4 + 3) / 4 == i && (i * 4 + 3) % 4 == 3);
        assert(b[i * 4] == byte_of(v[i], 0));
        assert(b[i * 4 + 1] == byte_of(v[i], 1));
        assert(b[i * 4 + 2] == byte_of(v[i], 2));
        assert(b[i * 4 + 3] == byte_of(v[i], 3));
    }
    assert(unblob(b) =~= v);
}

proof fn lemma_bytes_of(b0: u8, b1: u8, b2: u8, b3: u8)
    ensures
        ({
            let bits = b0 + b1 * 0x100 + b2 * 0x1_0000 + b3 * 0x100_0000;
            &&& bits <= u32::MAX
            &&& byte_of(bits as u32, 0) == b0
            &&& byte_of(bits as u32, 1) == b1
            &&& byte_of(bits as u32, 2) == b2
            &&& byte_of(bits as u32, 3) == b3
        }),
{
    let bits = b0 + b1 * 0x100 + b2 * 0x1_0000 + b3 * 0x100_0000;
    assert(bits % 0x100 == b0);
    assert(bits / 0x100 == b1 + b2 * 0x100 + b3 * 0x1_0000);
    assert((b1 + b2 * 0x100 + b3 * 0x1_0000) % 0x100 == b1);
    assert(bits / 0x1_0000 == b2 + b3 * 0x100);
    assert((b2 + b3 * 0x100) % 0x100 == b2);
    assert(bits / 0x100_0000 == b3);
}

/// Bytes that hold whole components are written as they were read.
pub proof fn law_blob_roundtrip(b: Seq<u8>)
    requires
        b.len() % 4 == 0,
    ensures
        blob(unblob(b)) == b,
{
    let v = unblob(b);
    assert forall|i: int| 0 <= i < b.len() implies #[trigger] blob(v)[i] == b[i] by {
        let k = i / 4;
        assert(0 <= k < v.len());
        lemma_bytes_of(b[k * 4], b[k * 4 + 1], b[k * 4 + 2], b[k * 4 + 3]);
        assert(blob(v)[i] == byte_of(v[k], i % 4));
        if i % 4 == 0 {
            assert(i == k * 4);
        } else if i % 4 == 1 {
            assert(i == k * 4 + 1);
        } else if i % 4 == 2 {
            assert(i == k * 4 + 2);
        } else {
            assert(i == k * 4 + 3);
        }
    }
    assert(blob(v) =~= b);
}

// ---------------------------------------------------------------------------
// Searching and fusing

/// Ranks files by the similarity of their vectors to that of a query: the best
/// first, at most `top_n` of them and never more than [`SEARCH_VECTORS_MAX`].
pub fn search_vectors(similar: &Vec<(i64, Score)>, top_n: usize) -> (r: Vec<(i64, Score)>)
    ensures
        r@ == best(
            similar@,
            if top_n < SEARCH_VECTORS_MAX {
                top_n as nat
            } else {
                SEARCH_VECTORS_MAX as nat
            },
        ),
{
    best_files(similar, search_limit(top_n))
}

/// How many files a vector search gives where `top_n` are asked for.
pub fn search_limit(top_n: usize) -> (r: usize)
    ensures
        r == if top_n < SEARCH_VECTORS_MAX {
            top_n
        } else {
            SEARCH_VECTORS_MAX
        },
{
    if top_n < SEARCH_VECTORS_MAX {
        top_n
    } else {
        SEARCH_VECTORS_MAX
    }
}

/// How many files of the vector search take part in a fusion that gives `top_n`:
/// three times as many, so that a file just outside still counts.
pub fn vector_candidates(top_n: usize) -> (r: usize)
    ensures
        r == if top_n * 3 <= usize::MAX {
            top_n * 3
        } else {
            usize::MAX as int
        },
{
    match top_n.checked_mul(3) {
        Some(n) => n,
        None => usize::MAX,
    }
}

/// The rankings that are fused, as one list of the files with their ranks: ranking
/// by ranking, each best first, ranks counted from one.
pub open spec fn placings(rankings: Seq<Seq<(i64, Score)>>) -> Seq<(i64, usize)>
    decreases rankings.len(),
{
    if rankings.len() == 0 {
        Seq::empty()
    } else {
        placings(rankings.drop_last()) + Seq::new(
            rankings.last().len(),
            |i: int| (rankings.last()[i].0, (i + 1) as usize),
        )
    }
}

/// The files of a list, each once, in the order in which they first occur.
pub open spec fn placed(list: Seq<(i64, usize)>) -> Seq<i64>
    decreases list.len(),
{
    if list.len() == 0 {
        Seq::empty()
    } else {
        let rest = placed(list.drop_last());
        if rest.contains(list.last().0) {
            rest
        } else {
            rest.push(list.last().0)
        }
    }
}

/// The ranks of a file, in the order of the list.
pub open spec fn ranks(list: Seq<(i64, usize)>, id: i64) -> Seq<usize>
    decreases list.len(),
{
    if list.len() == 0 {
        Seq::empty()
    } else if list.last().0 == id {
        ranks(list.drop_last(), id).push(list.last().1)
    } else {
        ranks(list.drop_last(), id)
    }
}

/// Each file of a list with its ranks.
pub open spec fn gathered(list: Seq<(i64, usize)>) -> Seq<(i64, Seq<usize>)> {
    placed(list).map_values(|id: i64| (id, ranks(list, id)))
}

/// Files with their ranks, as sequences.
pub open spec fn rank_views(files: Seq<(i64, Vec<usize>)>) -> Seq<(i64, Seq<usize>)> {
    files.map_values(|f: (i64, Vec<usize>)| (f.0, f.1@))
}

/// The rankings, as sequences.
pub open spec fn ranking_views(rankings: Seq<Vec<(i64, Score)>>) -> Seq<Seq<(i64, Score)>> {
    rankings.map_values(|r: Vec<(i64, Score)>| r@)
}

/// What [`gather_ranks`] knows after a part of the list: `slots` says where a file
/// stands.
spec fn gathering(
    list: Seq<(i64, usize)>,
    slots: Map<i64, usize>,
    files: Seq<(i64, Vec<usize>)>,
) -> bool {
    &&& rank_views(files) == gathered(list)
    &&& forall|id: i64| #[trigger] slots.contains_key(id) <==> placed(list).contains(id)
    &&& forall|id: i64| #[trigger]
        slots.contains_key(id) ==> slots[id] < files.len() && files[slots[id] as int].0 == id
}

proof fn lemma_placed(list: Seq<(i64, usize)>)
    ensures
        placed(list).no_duplicates(),
    decreases list.len(),
{
    if list.len() > 0 {
        lemma_placed(list.drop_last());
    }
}

proof fn lemma_not_placed(list: Seq<(i64, usize)>, id: i64)
    requires
        !placed(list).contains(id),
    ensures
        ranks(list, id).len() == 0,
    decreases list.len(),
{
    if list.len() > 0 {
        broadcast use vstd::seq_lib::lemma_seq_contains_after_push;

        lemma_not_placed(list.drop_last(), id);
    }
}

/// Notes one placing.
fn note_placing(
    slots: &mut HashMap<i64, usize>,
    files: &mut Vec<(i64, Vec<usize>)>,
    id: i64,
    rank: usize,
    Ghost(list): Ghost<Seq<(i64, usize)>>,
)
    requires
        gathering(list, old(slots)@, old(files)@),
    ensures
        gathering(list.push((id, rank)), final(slots)@, final(files)@),
{
    let ghost next = list.push((id, rank));
    let ghost slots0 = slots@;
    let ghost files0 = files@;
    let ghost ids = placed(list);
    proof {
        assert(next.drop_last() =~= list);
        lemma_placed(list);
        assert(files0.len() == ids.len()) by {
            assert(rank_views(files0).len() == gathered(list).len());
        }
        assert forall|k: int| 0 <= k < files0.len() implies (#[trigger] files0[k]).0 == ids[k]
            && files0[k].1@ == ranks(list, ids[k]) by {
            assert(rank_views(files0)[k] == gathered(list)[k]);
        }
    }
    let known: Option<usize> = match slots.get(&id) {
        Some(at) => Some(*at),
        None => None,
    };
    match known {
        Some(at) => {
            files[at].1.push(rank);
            proof {
                assert(placed(next) =~= ids);
                assert(files@.len() == files0.len());
                assert forall|k: int| 0 <= k < files@.len() implies rank_views(files@)[k]
                    == #[trigger] gathered(next)[k] by {
                    assert(files0[k].0 == ids[k]);
                    if k == at {
                        assert(ids[k] == id);
                    } else {
                        assert(ids[k] != ids[at as int]);
                        assert(files@[k] == files0[k]);
                    }
                }
                assert(rank_views(files@) =~= gathered(next));
                assert forall|x: i64| #[trigger] slots@.contains_key(x) implies slots@[x]
                    < files@.len() && files@[slots@[x] as int].0 == x by {
                    assert(files0[slots0[x] as int].0 == x);
                }
            }
        },
        None => {
            let at: usize = files.len();
            let mut one: Vec<usize> = Vec::new();
            one.push(rank);
            files.push((id, one));
            slots.insert(id, at);
            proof {
                lemma_not_placed(list, id);
                assert(placed(next) =~= ids.push(id));
                assert forall|k: int| 0 <= k < files@.len() implies rank_views(files@)[k]
                    == #[trigger] gathered(next)[k] by {
                    if k < files0.len() {
                        assert(files@[k] == files0[k]);
                        assert(files0[k].0 == ids[k]);
                        if ids[k] == id {
                            assert(ids.contains(id));
                        }
                    } else {
                        assert(ranks(next, id) =~= seq![rank]);
                        assert(files@[k].1@ =~= seq![rank]);
                    }
                }
                assert(rank_views(files@) =~= gathered(next));
                assert forall|x: i64| #[trigger] slots@.contains_key(x) <==> placed(next).contains(
                    x,
                ) by {
                    broadcast use vstd::seq_lib::lemma_seq_contains_after_push;

                }
                assert forall|x: i64| #[trigger] slots@.contains_key(x) implies slots@[x]
                    < files@.len() && files@[slots@[x] as int].0 == x by {
                    if x != id {
                        assert(slots0.contains_key(x));
                        assert(files@[slots0[x] as int] == files0[slots0[x] as int]);
                    }
                }
            }
        },
    }
}

/// Gathers the ranks of each file in several rankings.
pub fn gather_ranks(rankings: &Vec<Vec<(i64, Score)>>) -> (r: Vec<(i64, Vec<usize>)>)
    ensures
        rank_views(r@) == gathered(placings(ranking_views(rankings@))),
{
    let mut slots: HashMap<i64, usize> = HashMap::new();
    let mut files: Vec<(i64, Vec<usize>)> = Vec::new();
    let ghost all = ranking_views(rankings@);
    let ghost mut list: Seq<(i64, usize)> = Seq::empty();
    assert(rank_views(files@) =~= gathered(list));
    assert(list =~= placings(all.take(0)));
    let mut i: usize = 0;
    while i < rankings.len()
        invariant
            i <= rankings@.len(),
            all == ranking_views(rankings@),
            list == placings(all.take(i as int)),
            gathering(list, slots@, files@),
        decreases rankings@.len() - i,
    {
        let ranking = &rankings[i];
        let ghost start = list;
        let ghost added = Seq::new(ranking@.len(), |k: int| (ranking@[k].0, (k + 1) as usize));
        assert(start + added.take(0) =~= start);
        let n: usize = ranking.len();
        let mut j: usize = 0;
        while j < n
            invariant
                j <= n == ranking@.len(),
                added == Seq::new(ranking@.len(), |k: int| (ranking@[k].0, (k + 1) as usize)),
                list == start + added.take(j as int),
                gathering(list, slots@, files@),
            decreases n - j,
        {
            let id = ranking[j].0;
            note_placing(&mut slots, &mut files, id, j + 1, Ghost(list));
            proof {
                let next = list.push((id, (j + 1) as usize));
                assert(next =~= start + added.take(j + 1));
                list = next;
            }
            j += 1;
        }
        proof {
            assert(added.take(j as int) =~= added);
            assert(all.take(i + 1).drop_last() =~= all.take(i as int));
            assert(all.take(i + 1).last() == ranking@);
            assert(list =~= placings(all.take(i + 1)));
        }
        i += 1;
    }
    assert(all.take(i as int) =~= all);
    files
}

/// Whether `scored` gives each of the files a score that `fuse` gives its ranks.
pub open spec fn fused_by<F: Fn(&Vec<usize>) -> Score>(
    fuse: F,
    files: Seq<(i64, Seq<usize>)>,
    scored: Seq<(i64, Score)>,
) -> bool {
    &&& scored.len() == files.len()
    &&& forall|i: int|
        0 <= i < files.len() ==> (#[trigger] scored[i]).0 == files[i].0 && exists|v: Vec<usize>|
            v@ == files[i].1 && call_ensures(fuse, (&v,), scored[i].1)
}

/// Whether `r` fuses the rankings: `fuse` gives each file a score by its ranks, and
/// the best `top_n` files stay.
pub open spec fn is_fusion<F: Fn(&Vec<usize>) -> Score>(
    fuse: F,
    rankings: Seq<Seq<(i64, Score)>>,
    top_n: nat,
    r: Seq<(i64, Score)>,
) -> bool {
    exists|scored: Seq<(i64, Score)>| #[trigger]
        fused_by(fuse, gathered(placings(rankings)), scored) && r == best(scored, top_n)
}

/// Fuses several rankings into one: `fuse` gives each file a score by its ranks,
/// and the best `top_n` files stay.
pub fn rrf_fuse<F: Fn(&Vec<usize>) -> Score>(
    rankings: &Vec<Vec<(i64, Score)>>,
    fuse: F,
    top_n: usize,
) -> (r: Vec<(i64, Score)>)
    requires
        forall|v: Vec<usize>| #[trigger] call_requires(fuse, (&v,)),
    ensures
        is_fusion(fuse, ranking_views(rankings@), top_n as nat, r@),
{
    let files = gather_ranks(rankings);
    let ghost wanted = gathered(placings(ranking_views(rankings@)));
    let mut scored: Vec<(i64, Score)> = Vec::new();
    let mut i: usize = 0;
    while i < files.len()
        invariant
            i <= files@.len(),
            rank_views(files@) == wanted,
            scored@.len() == i,
            forall|v: Vec<usize>| #[trigger] call_requires(fuse, (&v,)),
            forall|k: int|
                0 <= k < i ==> (#[trigger] scored@[k]).0 == files@[k].0 && call_ensures(
                    fuse,
                    (&files@[k].1,),
                    scored@[k].1,
                ),
        decreases files@.len() - i,
    {
        let score = fuse(&files[i].1);
        scored.push((files[i].0, score));
        i += 1;
    }
    proof {
        assert(wanted.len() == files@.len());
        assert forall|k: int| 0 <= k < wanted.len() implies (#[trigger] scored@[k]).0 == wanted[k].0
            && exists|v: Vec<usize>|
            v@ == wanted[k].1 && call_ensures(fuse, (&v,), scored@[k].1) by {
            assert(wanted[k] == (files@[k].0, files@[k].1@));
            let v = files@[k].1;
            assert(v@ == wanted[k].1 && call_ensures(fuse, (&v,), scored@[k].1));
        }
        assert(fused_by(fuse, wanted, scored@));
    }
    best_files(&scored, top_n)
}

/// The seeds of a task: those of the full-text search where there are no vectors,
/// else its ranking fused with that of the vector search.
pub fn fuse_seeds<F: Fn(&Vec<usize>) -> Score>(
    bm25: Vec<(i64, Score)>,
    vector: Option<Vec<(i64, Score)>>,
    fuse: F,
    top_n: usize,
) -> (r: Vec<(i64, Score)>)
    requires
        forall|v: Vec<usize>| #[trigger] call_requires(fuse, (&v,)),
    ensures
        match vector {
            None => r@ == bm25@,
            Some(similar) => is_fusion(fuse, seq![bm25@, similar@], top_n as nat, r@),
        },
{
    match vector {
        None => bm25,
        Some(similar) => {
            let ghost both = seq![bm25@, similar@];
            let mut rankings: Vec<Vec<(i64, Score)>> = Vec::new();
            rankings.push(bm25);
            rankings.push(similar);
            assert(ranking_views(rankings@) =~= both);
            rrf_fuse(&rankings, fuse, top_n)
        },
    }
}

proof fn lemma_placed_from(list: Seq<(i64, usize)>, id: i64)
    ensures
        placed(list).contains(id) <==> exists|i: int|
            0 <= i < list.len() && (#[trigger] list[i]).0 == id,
    decreases list.len(),
{
    if list.len() > 0 {
        let init = list.drop_last();
        let rest = placed(init);
        lemma_placed_from(init, id);
        broadcast use vstd::seq_lib::lemma_seq_contains_after_push;

        if rest.contains(id) {
            let i = choose|i: int| 0 <= i < init.len() && (#[trigger] init[i]).0 == id;
            assert(list[i].0 == id);
        }
        if list.last().0 == id {
            assert(list[list.len() - 1].0 == id);
        }
        if exists|i: int| 0 <= i < list.len() && (#[trigger] list[i]).0 == id {
            let i = choose|i: int| 0 <= i < list.len() && (#[trigger] list[i]).0 == id;
            if i < init.len() {
                assert(init[i].0 == id);
            }
        }
    }
}

/// A fusion gives as many files as are asked for or as there are, best first, each
/// once, and each of them from one of the rankings.
pub proof fn law_fusion<F: Fn(&Vec<usize>) -> Score>(
    fuse: F,
    rankings: Seq<Seq<(i64, Score)>>,
    top_n: nat,
    r: Seq<(i64, Score)>,
)
    requires
        is_fusion(fuse, rankings, top_n, r),
    ensures
        is_ranked(r),
        r.len() == if placed(placings(rankings)).len() <= top_n {
            placed(placings(rankings)).len()
        } else {
            top_n
        },
        forall|i: int, j: int|
            0 <= i < j < r.len() ==> (#[trigger] r[i]).0 != (#[trigger] r[j]).0,
        forall|i: int|
            0 <= i < r.len() ==> placed(placings(rankings)).contains((#[trigger] r[i]).0),
{
    broadcast use vstd::seq_lib::group_to_multiset_ensures;

    let list = placings(rankings);
    let ids = placed(list);
    let scored = choose|scored: Seq<(i64, Score)>| #[trigger]
        fused_by(fuse, gathered(list), scored) && r == best(scored, top_n);
    let all = ranked(scored);
    law_ranked(scored);
    lemma_placed(list);
    assert forall|i: int| 0 <= i < scored.len() implies (#[trigger] scored[i]).0 == ids[i] by {
        assert(gathered(list)[i].0 == ids[i]);
    }
    assert(scored.no_duplicates()) by {
        assert forall|i: int, j: int| 0 <= i < j < scored.len() implies scored[i] != scored[j] by {
            assert(scored[i].0 == ids[i] && scored[j].0 == ids[j]);
        }
    }
    scored.lemma_multiset_has_no_duplicates();
    assert forall|i: int| 0 <= i < all.len() implies scored.contains(#[trigger] all[i]) by {
        assert(all.contains(all[i]));
        assert(all.to_multiset().count(all[i]) > 0);
    }
    assert(all.no_duplicates()) by {
        all.lemma_multiset_has_no_duplicates_conv();
    }
    assert forall|i: int, j: int| 0 <= i < j < r.len() implies (#[trigger] r[i]).0 != (
    #[trigger] r[j]).0 by {
        assert(r[i] == all[i] && r[j] == all[j]);
        let a = choose|a: int| 0 <= a < scored.len() && scored[a] == all[i];
        let b = choose|b: int| 0 <= b < scored.len() && scored[b] == all[j];
        assert(scored[a].0 == ids[a] && scored[b].0 == ids[b]);
        assert(a != b);
    }
    assert forall|i: int| 0 <= i < r.len() implies ids.contains((#[trigger] r[i]).0) by {
        assert(r[i] == all[i]);
        let a = choose|a: int| 0 <= a < scored.len() && scored[a] == all[i];
        assert(ids[a] == r[i].0);
    }
    assert forall|i: int, j: int| 0 <= i < j < r.len() implies !crate::top::beats(
        #[trigger] r[j],
        #[trigger] r[i],
    ) by {
        assert(r[i] == all[i] && r[j] == all[j]);
    }
}

/// The files of a fusion are those that occur in a ranking.
pub proof fn law_every_ranked_file_takes_part(list: Seq<(i64, usize)>, id: i64)
    ensures
        placed(list).contains(id) <==> exists|i: int|
            0 <= i < list.len() && (#[trigger] list[i]).0 == id,
        placed(list).contains(id) <==> ranks(list, id).len() > 0,
    decreases list.len(),
{
    lemma_placed_from(list, id);
    if !placed(list).contains(id) {
        lemma_not_placed(list, id);
    } else {
        let init = list.drop_last();
        if list.last().0 != id {
            let i = choose|i: int| 0 <= i < list.len() && (#[trigger] list[i]).0 == id;
            assert(init[i].0 == id);
            lemma_placed_from(init, id);
            law_every_ranked_file_takes_part(init, id);
        }
    }
}

// ---------------------------------------------------------------------------
// Embedding files

/// The part of a file that is embedded: its first [`EMBED_CHAR_LIMIT`] characters.
pub open spec fn embedded_part(content: Seq<char>) -> Seq<char> {
    if content.len() <= EMBED_CHAR_LIMIT {
        content
    } else {
        content.take(EMBED_CHAR_LIMIT as int)
    }
}

/// The part of a file that is embedded.
pub fn embed_text(content: &str) -> (r: String)
    ensures
        r@ == embedded_part(content@),
{
    let mut out = String::new();
    let mut n: usize = 0;
    for c in it: content.chars()
        invariant
            it.seq() == content@,
            n == it.index(),
            n <= EMBED_CHAR_LIMIT,
            out@ == content@.take(it.index()),
    {
        if n == EMBED_CHAR_LIMIT {
            assert(content@.len() > EMBED_CHAR_LIMIT);
            return out;
        }
        out.push(c);
        assert(out@ =~= content@.take(it.index() + 1));
        n += 1;
    }
    assert(content@.take(content@.len() as int) =~= content@);
    out
}

/// The batches that `n` files make from the `i`th on: first file and the one behind
/// the last.
pub open spec fn batches_from(i: nat, n: nat) -> Seq<(usize, usize)>
    decreases n - i,
{
    if i >= n {
        Seq::empty()
    } else if n - i <= EMBED_BATCH {
        seq![(i as usize, n as usize)]
    } else {
        seq![(i as usize, (i + EMBED_BATCH) as usize)] + batches_from(i + EMBED_BATCH as nat, n)
    }
}

/// Divides `n` files into batches of [`EMBED_BATCH`]; the last one may be smaller.
pub fn batches(n: usize) -> (r: Vec<(usize, usize)>)
    ensures
        r@ == batches_from(0, n as nat),
{
    let mut out: Vec<(usize, usize)> = Vec::new();
    let mut i: usize = 0;
    assert(out@ + batches_from(0, n as nat) =~= batches_from(0, n as nat));
    while i < n
        invariant
            i <= n,
            batches_from(0, n as nat) == out@ + batches_from(i as nat, n as nat),
        decreases n - i,
    {
        let to: usize = if n - i <= EMBED_BATCH {
            n
        } else {
            i + EMBED_BATCH
        };
        let ghost before = out@;
        out.push((i, to));
        proof {
            let tail = batches_from(to as nat, n as nat);
            assert(before + (seq![(i, to)] + tail) =~= before.push((i, to)) + tail);
            assert(seq![(i, to)] + Seq::<(usize, usize)>::empty() =~= seq![(i, to)]);
        }
        i = to;
    }
    assert(out@ + batches_from(n as nat, n as nat) =~= out@);
    out
}

/// The batches follow each other without a gap, and none is empty or too large.
pub proof fn law_batches(i: nat, n: nat, k: int)
    requires
        i <= n <= usize::MAX,
        0 <= k < batches_from(i, n).len(),
    ensures
        ({
            let b = batches_from(i, n);
            &&& b[k].0 == if k == 0 {
                i as int
            } else {
                b[k - 1].1 as int
            }
            &&& b[k].0 < b[k].1 <= b[k].0 + EMBED_BATCH
            &&& k == b.len() - 1 ==> b[k].1 == n
        }),
    decreases n - i,
{
    if n - i > EMBED_BATCH {
        let rest = batches_from(i + EMBED_BATCH as nat, n);
        assert(rest.len() > 0);
        if k > 0 {
            law_batches(i + EMBED_BATCH as nat, n, k - 1);
            assert(batches_from(i, n)[k] == rest[k - 1]);
            if k > 1 {
                assert(batches_from(i, n)[k - 1] == rest[k - 2]);
            }
        }
    }
}

/// A file that must be embedded.
#[derive(Debug)]
pub struct StaleFile {
    pub file_id: i64,
    pub path: String,
    /// The hash of its content.
    pub blob_sha: String,
}

/// A [`StaleFile`], with texts for its strings.
#[verifier::ext_equal]
pub struct StaleView {
    pub file_id: i64,
    pub path: Seq<char>,
    pub blob_sha: Seq<char>,
}

impl View for StaleFile {
    type V = StaleView;

    open spec fn view(&self) -> StaleView {
        StaleView { file_id: self.file_id, path: self.path@, blob_sha: self.blob_sha@ }
    }
}

/// The files, with texts for their strings.
pub open spec fn stale_views(files: Seq<StaleFile>) -> Seq<StaleView> {
    files.map_values(|f: StaleFile| f@)
}

/// Files, each with the hash of the content that was embedded of it.
pub open spec fn stored_views(rows: Seq<(StaleFile, Option<String>)>) -> Seq<
    (StaleView, Option<Seq<char>>),
> {
    rows.map_values(|row: (StaleFile, Option<String>)| (row.0@, setting(row.1)))
}

/// The files whose content is not the one that was embedded.
pub open spec fn to_embed(rows: Seq<(StaleView, Option<Seq<char>>)>) -> Seq<StaleView>
    decreases rows.len(),
{
    if rows.len() == 0 {
        Seq::empty()
    } else if is_changed(rows.last().1, rows.last().0.blob_sha) {
        to_embed(rows.drop_last()).push(rows.last().0)
    } else {
        to_embed(rows.drop_last())
    }
}

/// Picks the files that must be embedded: those without a vector, and those whose
/// content has changed since. `rows` are files with the hash of what was embedded.
pub fn stale_embeddings(rows: &Vec<(StaleFile, Option<String>)>) -> (r: Vec<StaleFile>)
    ensures
        stale_views(r@) == to_embed(stored_views(rows@)),
{
    let ghost all = stored_views(rows@);
    let mut out: Vec<StaleFile> = Vec::new();
    let mut i: usize = 0;
    assert(stale_views(out@) =~= Seq::empty());
    while i < rows.len()
        invariant
            i <= rows@.len(),
            all == stored_views(rows@),
            stale_views(out@) == to_embed(all.take(i as int)),
        decreases rows@.len() - i,
    {
        let ghost so_far = stale_views(out@);
        let ghost next = all.take(i + 1);
        assert(next.drop_last() =~= all.take(i as int));
        assert(next.last() == (rows@[i as int].0@, setting(rows@[i as int].1)));
        let file = &rows[i].0;
        if sha_changed(&rows[i].1, file.blob_sha.as_str()) {
            let one = StaleFile {
                file_id: file.file_id,
                path: file.path.clone(),
                blob_sha: file.blob_sha.clone(),
            };
            out.push(one);
            assert(stale_views(out@) =~= so_far.push(one@));
        }
        i += 1;
    }
    assert(all.take(i as int) =~= all);
    out
}

/// A file is embedded again exactly if it has no vector, or one of other content. So
/// one whose vector was stored with its hash is not, until its content changes.
pub proof fn law_embedded_once(rows: Seq<(StaleView, Option<Seq<char>>)>, file: StaleView)
    ensures
        to_embed(rows).contains(file) <==> exists|i: int|
            0 <= i < rows.len() && (#[trigger] rows[i]).0 == file && rows[i].1 != Some(
                file.blob_sha,
            ),
    decreases rows.len(),
{
    if rows.len() > 0 {
        broadcast use vstd::seq_lib::lemma_seq_contains_after_push;

        let init = rows.drop_last();
        law_embedded_once(init, file);
        assert(rows[rows.len() - 1] == rows.last());
        if to_embed(init).contains(file) {
            let i = choose|i: int|
                0 <= i < init.len() && (#[trigger] init[i]).0 == file && init[i].1 != Some(
                    file.blob_sha,
                );
            assert(rows[i] == init[i]);
        }
        if exists|i: int|
            0 <= i < rows.len() && (#[trigger] rows[i]).0 == file && rows[i].1 != Some(
                file.blob_sha,
            ) {
            let i = choose|i: int|
                0 <= i < rows.len() && (#[trigger] rows[i]).0 == file && rows[i].1 != Some(
                    file.blob_sha,
                );
            if i < init.len() {
                assert(init[i] == rows[i]);
            }
        }
    }
}

/// What is sent to be embedded: the texts of files, by number and hash.
#[derive(Debug)]
pub struct Batch {
    pub ids: Vec<i64>,
    pub shas: Vec<String>,
    pub texts: Vec<String>,
}

/// [`Batch`], as one list.
pub open spec fn batch_view(b: Batch) -> Seq<(i64, Seq<char>, Seq<char>)> {
    Seq::new(b.ids@.len(), |i: int| (b.ids@[i], b.shas@[i]@, b.texts@[i]@))
}

/// The files that can be read, by number and hash, with the part of them that is
/// embedded.
pub open spec fn batch_of(files: Seq<StaleFile>, contents: Seq<Option<String>>) -> Seq<
    (i64, Seq<char>, Seq<char>),
>
    decreases files.len(),
{
    if files.len() == 0 || contents.len() != files.len() {
        Seq::empty()
    } else {
        let rest = batch_of(files.drop_last(), contents.drop_last());
        match contents.last() {
            Some(content) => rest.push(
                (files.last().file_id, files.last().blob_sha@, embedded_part(content@)),
            ),
            None => rest,
        }
    }
}

/// Gathers what is sent to be embedded of a number of files. Those that cannot be
/// read are left out.
pub fn gather_batch(files: &Vec<StaleFile>, contents: &Vec<Option<String>>) -> (r: Batch)
    requires
        files@.len() == contents@.len(),
    ensures
        batch_view(r) == batch_of(files@, contents@),
        r.ids@.len() == r.shas@.len() == r.texts@.len(),
{
    let mut b = Batch { ids: Vec::new(), shas: Vec::new(), texts: Vec::new() };
    let mut i: usize = 0;
    assert(batch_view(b) =~= batch_of(files@.take(0), contents@.take(0)));
    while i < files.len()
        invariant
            i <= files@.len() == contents@.len(),
            b.ids@.len() == b.shas@.len() == b.texts@.len(),
            batch_view(b) == batch_of(files@.take(i as int), contents@.take(i as int)),
        decreases files@.len() - i,
    {
        let ghost so_far = batch_view(b);
        let ghost next_files = files@.take(i + 1);
        let ghost next_contents = contents@.take(i + 1);
        proof {
            assert(next_files.drop_last() =~= files@.take(i as int));
            assert(next_contents.drop_last() =~= contents@.take(i as int));
            assert(next_files.last() == files@[i as int]);
            assert(next_contents.last() == contents@[i as int]);
        }
        match &contents[i] {
            Some(content) => {
                let text = embed_text(content.as_str());
                let sha = files[i].blob_sha.clone();
                b.ids.push(files[i].file_id);
                b.shas.push(sha);
                b.texts.push(text);
                assert(batch_view(b) =~= so_far.push(
                    (files@[i as int].file_id, sha@, text@),
                ));
            },
            None => {},
        }
        i += 1;
    }
    assert(files@.take(i as int) =~= files@);
    assert(contents@.take(i as int) =~= contents@);
    b
}

/// What is stored of the vector of a file.
#[derive(Debug)]
pub struct EmbeddingRow {
    pub file_id: i64,
    /// The bytes of the vector.
    pub vector: Vec<u8>,
    /// The hash of the content that was embedded.
    pub content_sha: String,
}

/// The rows of a batch: one for each file that has a vector.
pub open spec fn is_rows(
    rows: Seq<EmbeddingRow>,
    ids: Seq<i64>,
    shas: Seq<Seq<char>>,
    vectors: Seq<Seq<u32>>,
) -> bool {
    &&& rows.len() == if ids.len() <= vectors.len() {
        ids.len()
    } else {
        vectors.len()
    }
    &&& forall|i: int|
        0 <= i < rows.len() ==> (#[trigger] rows[i]).file_id == ids[i] && rows[i].vector@ == blob(
            vectors[i],
        ) && rows[i].content_sha@ == shas[i]
}

/// Makes the rows of a batch of files from their vectors.
pub fn embedding_rows(
    ids: &Vec<i64>,
    shas: &Vec<String>,
    vectors: &Vec<Vec<u32>>,
) -> (r: Vec<EmbeddingRow>)
    requires
        ids@.len() == shas@.len(),
    ensures
        is_rows(r@, ids@, texts(shas@), vectors@.map_values(|v: Vec<u32>| v@)),
{
    let mut out: Vec<EmbeddingRow> = Vec::new();
    let mut i: usize = 0;
    while i < ids.len() && i < vectors.len()
        invariant
            i <= ids@.len() == shas@.len(),
            i <= vectors@.len(),
            out@.len() == i,
            forall|k: int|
                0 <= k < i ==> (#[trigger] out@[k]).file_id == ids@[k] && out@[k].vector@ == blob(
                    vectors@[k]@,
                ) && out@[k].content_sha@ == shas@[k]@,
        decreases ids@.len() - i,
    {
        let row = EmbeddingRow {
            file_id: ids[i],
            vector: vec_to_blob(&vectors[i]),
            content_sha: shas[i].clone(),
        };
        out.push(row);
        i += 1;
    }
    out
}

// ---------------------------------------------------------------------------
// The embedding service

/// The settings of the embedding service, as the environment holds them.
#[derive(Debug)]
pub struct EmbedVars {
    /// `EMBEDDING_SVC_URL`
    pub url: Option<String>,
    /// `EMBEDDING_API_KEY`
    pub api_key: Option<String>,
    /// `EMBEDDING_COLLECTION`
    pub collection: Option<String>,
    /// `EMBEDDING_TIMEOUT_SECS`
    pub timeout: Option<String>,
}

/// How to reach the embedding service.
pub struct RemoteEmbedder {
    url: String,
    api_key: Option<String>,
    collection: String,
    timeout_secs: u64,
}

/// The time to read within, by what is set.
pub open spec fn read_timeout(setting: Option<Seq<char>>) -> int {
    match setting {
        Some(text) => match number(text) {
            Some(secs) => secs,
            None => DEFAULT_READ_TIMEOUT_SECS as int,
        },
        None => DEFAULT_READ_TIMEOUT_SECS as int,
    }
}

/// The text of a setting.
pub open spec fn setting(s: Option<String>) -> Option<Seq<char>> {
    match s {
        Some(text) => Some(text@),
        None => None,
    }
}

impl RemoteEmbedder {
    /// The address of the service, without slashes at the end.
    pub closed spec fn url(self) -> Seq<char> {
        self.url@
    }

    /// The key to the service.
    pub closed spec fn spec_api_key(self) -> Option<Seq<char>> {
        setting(self.api_key)
    }

    /// The collection that the vectors belong to.
    pub closed spec fn spec_collection(self) -> Seq<char> {
        self.collection@
    }

    /// The time to read within, in seconds.
    pub closed spec fn spec_timeout_secs(self) -> int {
        self.timeout_secs as int
    }

    /// The service that the environment names; nothing where it names none.
    pub fn from_env(vars: EmbedVars) -> (r: Option<RemoteEmbedder>)
        ensures
            r is Some <==> vars.url is Some,
            r matches Some(e) ==> {
                &&& e.url() == trim_end(vars.url->0@, among("/"@))
                &&& e.spec_api_key() == setting(vars.api_key)
                &&& e.spec_collection() == match vars.collection {
                    Some(name) => name@,
                    None => "context-smith"@,
                }
                &&& e.spec_timeout_secs() == read_timeout(setting(vars.timeout))
            },
    {
        let timeout_secs: u64 = match &vars.timeout {
            Some(text) => match parse_number(text.as_str()) {
                Some(secs) => secs,
                None => DEFAULT_READ_TIMEOUT_SECS,
            },
            None => DEFAULT_READ_TIMEOUT_SECS,
        };
        let collection = match vars.collection {
            Some(name) => name,
            None => "context-smith".to_owned(),
        };
        match vars.url {
            Some(url) => Some(
                RemoteEmbedder {
                    url: trim_end_any(url.as_str(), "/"),
                    api_key: vars.api_key,
                    collection,
                    timeout_secs,
                },
            ),
            None => None,
        }
    }

    /// Where requests are sent to.
    pub fn endpoint(&self) -> (r: String)
        ensures
            r@ == self.url() + "/embed/batch"@,
    {
        let mut out = self.url.clone();
        out.append("/embed/batch");
        out
    }

    /// The key to the service.
    pub fn api_key(&self) -> (r: &Option<String>)
        ensures
            setting(*r) == self.spec_api_key(),
    {
        &self.api_key
    }

    /// The collection that the vectors belong to.
    pub fn collection(&self) -> (r: &str)
        ensures
            r@ == self.spec_collection(),
    {
        self.collection.as_str()
    }

    /// The time to read within, in seconds.
    pub fn timeout_secs(&self) -> (r: u64)
        ensures
            r == self.spec_timeout_secs(),
    {
        self.timeout_secs
    }
}

/// What to do after a request.
#[derive(Debug, Clone, Copy, PartialEq, Eq, Structural)]
pub enum RequestStep {
    /// Take the vectors.
    Take,
    /// Refuse the vectors: there is not one for each text.
    Refuse,
    /// Wait for a number of seconds and send the request again.
    Retry(u64),
    /// Give up.
    GiveUp,
}

/// What to do after a request, when it was sent `attempts` times before: `vectors`
/// is the number of vectors in the answer, if there was a readable one.
pub open spec fn step_after(attempts: u32, vectors: Option<usize>, texts: usize) -> RequestStep {
    match vectors {
        Some(n) => if n == texts {
            RequestStep::Take
        } else {
            RequestStep::Refuse
        },
        None => if attempts + 1 >= MAX_ATTEMPTS {
            RequestStep::GiveUp
        } else if attempts == 0 {
            RequestStep::Retry(1)
        } else {
            RequestStep::Retry(2)
        },
    }
}

/// Decides what to do after a request. The time to wait doubles with each attempt.
pub fn next_step(attempts: u32, vectors: Option<usize>, texts: usize) -> (r: RequestStep)
    ensures
        r == step_after(attempts, vectors, texts),
{
    match vectors {
        Some(n) => {
            if n == texts {
                RequestStep::Take
            } else {
                RequestStep::Refuse
            }
        },
        None => {
            if attempts >= MAX_ATTEMPTS - 1 {
                RequestStep::GiveUp
            } else {
                assert(1u64 << 0u32 == 1 && 1u64 << 1u32 == 2) by (bit_vector);
                RequestStep::Retry(1u64 << attempts)
            }
        },
    }
}

// ---------------------------------------------------------------------------
// Laws

/// The names of the modes.
pub proof fn law_mode_names()
    ensures
        EmbedMode::Index.name() == "index"@,
        EmbedMode::Search.name() == "search"@,
{
}

/// A stored vector has four bytes for each component, which weigh 1, 256, 65536 and
/// 16777216.
pub proof fn law_bytes_of_vector(v: Seq<u32>, i: int)
    requires
        0 <= i < v.len(),
    ensures
        blob(v).len() == 4 * v.len(),
        blob(v)[4 * i] + blob(v)[4 * i + 1] * 256 + blob(v)[4 * i + 2] * 65536 + blob(v)[4 * i + 3]
            * 16777216 == v[i],
{
    let b = blob(v);
    assert((4 * i) / 4 == i && (4 * i) % 4 == 0);
    assert((4 * i + 1) / 4 == i && (4 * i + 1) % 4 == 1);
    assert((4 * i + 2) / 4 == i && (4 * i + 2) % 4 == 2);
    assert((4 * i + 3) / 4 == i && (4 * i + 3) % 4 == 3);
    assert(b[4 * i] == byte_of(v[i], 0));
    assert(b[4 * i + 1] == byte_of(v[i], 1));
    assert(b[4 * i + 2] == byte_of(v[i], 2));
    assert(b[4 * i + 3] == byte_of(v[i], 3));
}

/// A vector that is read has a component for each four bytes, by the same weights.
pub proof fn law_vector_of_bytes(b: Seq<u8>, i: int)
    requires
        0 <= 4 * i,
        4 * i + 3 < b.len(),
    ensures
        unblob(b).len() == b.len() / 4,
        unblob(b)[i] == b[4 * i] + b[4 * i + 1] * 256 + b[4 * i + 2] * 65536 + b[4 * i + 3]
            * 16777216,
{
    lemma_bytes_of(b[4 * i], b[4 * i + 1], b[4 * i + 2], b[4 * i + 3]);
}

/// Each ranking that is fused gives its files the ranks from one on, and the rankings
/// follow each other.
pub proof fn law_placings(a: Seq<Seq<(i64, Score)>>, ranking: Seq<(i64, Score)>, i: int)
    requires
        0 <= i < ranking.len() <= usize::MAX,
    ensures
        placings(Seq::empty()).len() == 0,
        placings(a.push(ranking)).len() == placings(a).len() + ranking.len(),
        placings(a.push(ranking)).take(placings(a).len() as int) == placings(a),
        placings(a.push(ranking))[placings(a).len() + i].0 == ranking[i].0,
        placings(a.push(ranking))[placings(a).len() + i].1 == i + 1,
{
    assert(a.push(ranking).drop_last() =~= a);
    assert(placings(a.push(ranking)).take(placings(a).len() as int) =~= placings(a));
}

/// The ranks that are gathered for a file are all that it has, in the order of the list,
/// and those of no other file.
pub proof fn law_ranks(list: Seq<(i64, usize)>, id: i64)
    ensures
        ranks(list, id) == list.filter(|p: (i64, usize)| p.0 == id).map_values(
            |p: (i64, usize)| p.1,
        ),
        forall|k: int|
            0 <= k < gathered(list).len() ==> (#[trigger] gathered(list)[k]).1 == ranks(
                list,
                gathered(list)[k].0,
            ),
        list.filter(|p: (i64, usize)| p.0 == id).len() > 0 <==> exists|k: int|
            0 <= k < gathered(list).len() && (#[trigger] gathered(list)[k]).0 == id,
    decreases list.len(),
{
    lemma_ranks_filter(list, id);
    law_every_ranked_file_takes_part(list, id);
    let ids = placed(list);
    assert(ranks(list, id).len() == list.filter(|p: (i64, usize)| p.0 == id).len());
    if ids.contains(id) {
        let k = choose|k: int| 0 <= k < ids.len() && ids[k] == id;
        assert(gathered(list)[k].0 == id);
    }
    if exists|k: int| 0 <= k < gathered(list).len() && (#[trigger] gathered(list)[k]).0 == id {
        let k = choose|k: int|
            0 <= k < gathered(list).len() && (#[trigger] gathered(list)[k]).0 == id;
        assert(ids[k] == id);
    }
}

proof fn lemma_ranks_filter(list: Seq<(i64, usize)>, id: i64)
    ensures
        ranks(list, id) == list.filter(|p: (i64, usize)| p.0 == id).map_values(
            |p: (i64, usize)| p.1,
        ),
    decreases list.len(),
{
    reveal(Seq::filter);
    let p = |p: (i64, usize)| p.0 == id;
    let f = |p: (i64, usize)| p.1;
    if list.len() == 0 {
        assert(list.filter(p).map_values(f) =~= Seq::empty());
    } else {
        lemma_ranks_filter(list.drop_last(), id);
        let before = list.drop_last().filter(p);
        assert(before.push(list.last()).map_values(f) =~= before.map_values(f).push(list.last().1));
    }
}

/// Of a file the first 8000 characters are embedded, and all of one that has no more.
pub proof fn law_embedded_part(content: Seq<char>)
    ensures
        embedded_part(content).is_prefix_of(content),
        content.len() <= 8000 ==> embedded_part(content) == content,
        content.len() > 8000 ==> embedded_part(content).len() == 8000,
{
}

/// Files are embedded in batches of 64, from the first file on; the last batch holds what
/// is left.
pub proof fn law_batch_sizes(n: nat, k: int)
    requires
        n <= usize::MAX,
        0 <= k < batches_from(0, n).len(),
    ensures
        batches_from(0, n)[k].0 == 64 * k,
        batches_from(0, n)[k].1 == if 64 * (k + 1) <= n {
            64 * (k + 1)
        } else {
            n as int
        },
        64 * (batches_from(0, n).len() - 1) < n <= 64 * batches_from(0, n).len(),
{
    lemma_batch_sizes(0, n, k);
}

proof fn lemma_batch_sizes(i: nat, n: nat, k: int)
    requires
        n <= usize::MAX,
        i <= n,
        0 <= k < batches_from(i, n).len(),
    ensures
        batches_from(i, n)[k].0 == i + 64 * k,
        batches_from(i, n)[k].1 == if i + 64 * (k + 1) <= n {
            i + 64 * (k + 1)
        } else {
            n as int
        },
        i + 64 * (batches_from(i, n).len() - 1) < n <= i + 64 * batches_from(i, n).len(),
    decreases n - i,
{
    if n - i > 64 {
        let rest = batches_from(i + 64, n);
        assert(batches_from(i, n) == seq![(i as usize, (i + 64) as usize)] + rest);
        assert(rest.len() > 0);
        if k > 0 {
            lemma_batch_sizes(i + 64, n, k - 1);
            assert(batches_from(i, n)[k] == rest[k - 1]);
        } else {
            lemma_batch_sizes(i + 64, n, 0);
        }
    }
}

/// The limits of a search by vectors and of a request.
pub proof fn law_limits()
    ensures
        SEARCH_VECTORS_MAX == 3000,
        CONNECT_TIMEOUT_SECS == 5,
        RANK_OFFSET == 60,
{
}

/// The files that must be embedded keep their order.
pub proof fn law_stale_keep_their_order(
    rows: Seq<(StaleView, Option<Seq<char>>)>,
    file: StaleView,
    sha: Option<Seq<char>>,
)
    ensures
        sha == Some(file.blob_sha) ==> to_embed(rows.push((file, sha))) == to_embed(rows),
        sha != Some(file.blob_sha) ==> to_embed(rows.push((file, sha))) == to_embed(rows).push(file),
        to_embed(Seq::empty()).len() == 0,
{
    assert(rows.push((file, sha)).drop_last() =~= rows);
    assert(rows.push((file, sha)).last() == (file, sha));
    match sha {
        Some(s) => {
            if s != file.blob_sha {
                assert(sha != Some(file.blob_sha));
            }
        },
        None => {},
    }
}

/// A file that could be read takes part in a batch, with its number, its hash and the part
/// of it that is embedded; one that could not takes no part. The order stays.
pub proof fn law_batch_of(
    files: Seq<StaleFile>,
    contents: Seq<Option<String>>,
    f: StaleFile,
    c: Option<String>,
)
    requires
        files.len() == contents.len(),
    ensures
        c is None ==> batch_of(files.push(f), contents.push(c)) == batch_of(files, contents),
        c matches Some(text) ==> batch_of(files.push(f), contents.push(c)) == batch_of(
            files,
            contents,
        ).push((f.file_id, f.blob_sha@, embedded_part(text@))),
        batch_of(Seq::empty(), Seq::empty()).len() == 0,
{
    assert(files.push(f).drop_last() =~= files);
    assert(contents.push(c).drop_last() =~= contents);
}

/// The time to read within is what the setting says where that is a number, else thirty
/// seconds.
pub proof fn law_read_timeout(n: nat, text: Seq<char>)
    ensures
        n <= u64::MAX ==> read_timeout(Some(decimal(n))) == n,
        number(text) is None ==> read_timeout(Some(text)) == 30,
        read_timeout(None) == 30,
{
    law_decimal(n);
}

/// An answer with one vector for each text is taken, and any other readable answer
/// refused. Without a readable answer a request is sent three times at most: again after
/// one second, and again after two.
pub proof fn law_requests(attempts: u32, n: usize, texts: usize)
    ensures
        step_after(attempts, Some(texts), texts) == RequestStep::Take,
        n != texts ==> step_after(attempts, Some(n), texts) == RequestStep::Refuse,
        step_after(0, None, texts) == RequestStep::Retry(1),
        step_after(1, None, texts) == RequestStep::Retry(2),
        attempts >= 2 ==> step_after(attempts, None, texts) == RequestStep::GiveUp,
{
}

/// Each file of a fusion has a score that `fuse` gives the ranks of the file.
pub proof fn law_scores_of_fusion<F: Fn(&Vec<usize>) -> Score>(
    fuse: F,
    rankings: Seq<Seq<(i64, Score)>>,
    top_n: nat,
    r: Seq<(i64, Score)>,
    i: int,
    id: i64,
)
    requires
        is_fusion(fuse, rankings, top_n, r),
        0 <= i < r.len(),
        r[i].0 == id,
    ensures
        exists|v: Vec<usize>|
            v@ == placings(rankings).filter(|p: (i64, usize)| p.0 == id).map_values(
                |p: (i64, usize)| p.1,
            ) && #[trigger] call_ensures(fuse, (&v,), r[i].1),
{
    broadcast use vstd::seq_lib::group_to_multiset_ensures;

    let list = placings(rankings);
    let scored = choose|scored: Seq<(i64, Score)>| #[trigger]
        fused_by(fuse, gathered(list), scored) && r == best(scored, top_n);
    law_ranked(scored);
    let all = ranked(scored);
    assert(r[i] == all[i]);
    assert(all.contains(all[i]));
    assert(all.to_multiset().count(all[i]) > 0);
    assert(scored.contains(all[i]));
    let a = choose|a: int| 0 <= a < scored.len() && scored[a] == all[i];
    let files = gathered(list);
    assert(scored[a].0 == files[a].0);
    lemma_ranks_filter(list, id);
    assert(files[a].1 == ranks(list, id));
    let v = choose|v: Vec<usize>|
        v@ == files[a].1 && call_ensures(fuse, (&v,), scored[a].1);
    assert(v@ == ranks(list, id));
    assert(call_ensures(fuse, (&v,), r[i].1));
}

/// The rows of a batch: as many as there are both files and vectors for, each with the
/// number of its file, the bytes of its vector and the hash of its content.
pub proof fn law_rows_of_batch(
    rows: Seq<EmbeddingRow>,
    ids: Seq<i64>,
    shas: Seq<Seq<char>>,
    vectors: Seq<Seq<u32>>,
    i: int,
)
    requires
        is_rows(rows, ids, shas, vectors),
        0 <= i < ids.len(),
        0 <= i < vectors.len(),
    ensures
        rows.len() <= ids.len(),
        rows.len() <= vectors.len(),
        i < rows.len(),
        rows[i].file_id == ids[i],
        rows[i].vector@ == blob(vectors[i]),
        rows[i].content_sha@ == shas[i],
{
}

} // verus!
