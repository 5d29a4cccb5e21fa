//! The decisions of the commands: what arguments are taken, where the index is, and
//! which files are looked at for a task.
use std::collections::HashMap;
use vstd::prelude::*;

use crate::budget::{candidates, Candidate, CandidateView};
use crate::dep_builder::numbered;
use crate::dep_graph::{law_seeds_stay, spread};
use crate::git::GitRepo;
use crate::path::{
    components, join_path, law_components_under, law_names_between_slashes, under,
};
use crate::score::Score;
use crate::text::{join, trim, trimmed};

verus! {

broadcast use vstd::std_specs::hash::group_hash_axioms;

/// How many files a search gives as seeds.
pub const SEED_COUNT: usize = 20;

/// Over how many hops the scores of the seeds are spread.
pub const EXPAND_DEPTH: u8 = 2;

/// Takes an argument that must not be blank.
pub fn non_empty_string(s: &str) -> (r: Result<String, String>)
    ensures
        trim(s@).len() > 0 ==> r is Ok && r->Ok_0@ == s@,
        trim(s@).len() == 0 ==> r is Err && r->Err_0@ == "value must not be empty"@,
{
    let bare = trimmed(s);
    if bare.as_str().is_empty() {
        Err("value must not be empty".to_owned())
    } else {
        Ok(s.to_owned())
    }
}

/// Takes a token budget, which must not be zero.
pub fn check_budget(budget: usize) -> (r: Result<usize, String>)
    ensures
        budget > 0 ==> r is Ok && r->Ok_0 == budget,
        budget == 0 ==> r is Err && r->Err_0@ == "budget must be greater than 0"@,
{
    if budget == 0 {
        Err("budget must be greater than 0".to_owned())
    } else {
        Ok(budget)
    }
}

/// Where the index of a repository is: where it is said to be, or else in the
/// directory `.contextsmith` of the repository.
pub open spec fn index_path(root: Seq<char>, index: Option<Seq<char>>) -> Seq<char> {
    match index {
        Some(path) => path,
        None => under(under(root, ".contextsmith"@), "index.db"@),
    }
}

/// Finds out where the index of a repository is.
pub fn resolve_index_path(repo: &GitRepo, index: Option<String>) -> (r: String)
    ensures
        r@ == index_path(
            repo.spec_root(),
            match index {
                Some(path) => Some(path@),
                None => None,
            },
        ),
{
    match index {
        Some(path) => path,
        None => {
            let dir = repo.file_path(".contextsmith");
            join_path(dir.as_str(), "index.db")
        },
    }
}

/// Takes the path of an index, which must exist.
pub fn require_index(path: String, exists: bool) -> (r: Result<String, String>)
    ensures
        exists ==> r is Ok && r->Ok_0@ == path@,
        !exists ==> r is Err && r->Err_0@ == "Index not found at "@ + path@
            + ". Run `contextsmith index --repo <path>` first."@,
{
    if exists {
        Ok(path)
    } else {
        let mut message = "Index not found at ".to_owned();
        message.append(path.as_str());
        message.append(". Run `contextsmith index --repo <path>` first.");
        Err(message)
    }
}

/// Takes the seeds of a task, of which there must be one.
pub fn require_seeds(task: &str, seeds: Vec<(i64, Score)>) -> (r: Result<
    Vec<(i64, Score)>,
    String,
>)
    ensures
        seeds@.len() > 0 ==> r is Ok && r->Ok_0@ == seeds@,
        seeds@.len() == 0 ==> r is Err && r->Err_0@ == "No matching files found for task: "@
            + task@,
{
    if seeds.len() > 0 {
        Ok(seeds)
    } else {
        let mut message = "No matching files found for task: ".to_owned();
        message.append(task);
        Err(message)
    }
}

/// The scores with those of the seeds, where these are higher.
pub open spec fn merged(scores: Map<i64, Score>, seeds: Seq<(i64, Score)>) -> Map<i64, Score>
    decreases seeds.len(),
{
    if seeds.len() == 0 {
        scores
    } else {
        let rest = merged(scores, seeds.drop_last());
        let (id, score) = seeds.last();
        if rest.contains_key(id) && score.order() <= rest[id].order() {
            rest
        } else {
            rest.insert(id, score)
        }
    }
}

/// Raises the scores to those of the seeds.
pub fn merge_seeds(scores: &mut HashMap<i64, Score>, seeds: &Vec<(i64, Score)>)
    ensures
        final(scores)@ == merged(old(scores)@, seeds@),
{
    let ghost start = scores@;
    let mut i: usize = 0;
    assert(seeds@.take(0) =~= Seq::empty());
    while i < seeds.len()
        invariant
            i <= seeds@.len(),
            scores@ == merged(start, seeds@.take(i as int)),
        decreases seeds@.len() - i,
    {
        let ghost next = seeds@.take(i + 1);
        assert(next.drop_last() =~= seeds@.take(i as int));
        assert(next.last() == seeds@[i as int]);
        let (id, score) = seeds[i];
        let raise = match scores.get(&id) {
            Some(s) => score.above(*s),
            None => true,
        };
        if raise {
            scores.insert(id, score);
        }
        i += 1;
    }
    assert(seeds@.take(i as int) =~= seeds@);
}

/// The files that have a positive score, with it.
pub open spec fn relevant(
    files: Seq<(i64, Seq<char>)>,
    scores: Map<i64, Score>,
) -> Seq<(i64, Seq<char>, Score)>
    decreases files.len(),
{
    if files.len() == 0 {
        Seq::empty()
    } else {
        let rest = relevant(files.drop_last(), scores);
        let (id, path) = files.last();
        if scores.contains_key(id) && scores[id].order() > 0 {
            rest.push((id, path, scores[id]))
        } else {
            rest
        }
    }
}

/// Files with their scores, with texts for their paths.
pub open spec fn scored_views(files: Seq<(i64, String, Score)>) -> Seq<(i64, Seq<char>, Score)> {
    files.map_values(|f: (i64, String, Score)| (f.0, f.1@, f.2))
}

/// Picks the files that have a positive score. Only these are read.
pub fn relevant_files(
    files: &Vec<(i64, String)>,
    scores: &HashMap<i64, Score>,
) -> (r: Vec<(i64, String, Score)>)
    ensures
        scored_views(r@) == relevant(numbered(files@), scores@),
{
    let ghost all = numbered(files@);
    let mut out: Vec<(i64, String, Score)> = Vec::new();
    let mut i: usize = 0;
    assert(scored_views(out@) =~= relevant(all.take(0), scores@));
    while i < files.len()
        invariant
            i <= files@.len(),
            all == numbered(files@),
            scored_views(out@) == relevant(all.take(i as int), scores@),
        decreases files@.len() - i,
    {
        let ghost next = all.take(i + 1);
        let ghost so_far = scored_views(out@);
        assert(next.drop_last() =~= all.take(i as int));
        assert(next.last() == (files@[i as int].0, files@[i as int].1@));
        let id = files[i].0;
        match scores.get(&id) {
            Some(score) => {
                if score.above(Score::zero()) {
                    let path = files[i].1.clone();
                    out.push((id, path, *score));
                    assert(scored_views(out@) =~= so_far.push((id, path@, *score)));
                }
            },
            None => {},
        }
        i += 1;
    }
    assert(all.take(i as int) =~= all);
    out
}

/// The candidates for a bundle: the files that could be read, each with its text
/// and its score as it is shown.
pub open spec fn read_files(
    files: Seq<(i64, Seq<char>, Score)>,
    contents: Seq<Option<(Seq<char>, Seq<char>)>>,
) -> Seq<CandidateView>
    decreases files.len(),
{
    if files.len() == 0 || contents.len() != files.len() {
        Seq::empty()
    } else {
        let rest = read_files(files.drop_last(), contents.drop_last());
        let (id, path, score) = files.last();
        match contents.last() {
            Some((content, score_text)) => rest.push(
                CandidateView { file_id: id, path, score, score_text, content },
            ),
            None => rest,
        }
    }
}

/// What was read, with texts for the strings.
pub open spec fn contents_view(contents: Seq<Option<(String, String)>>) -> Seq<
    Option<(Seq<char>, Seq<char>)>,
> {
    contents.map_values(
        |c: Option<(String, String)>|
            match c {
                Some((content, score_text)) => Some((content@, score_text@)),
                None => None,
            },
    )
}

/// Makes candidates of files and what was read of them: the text, and the score as
/// it is shown. Files that could not be read are left out.
pub fn make_candidates(
    files: &Vec<(i64, String, Score)>,
    contents: Vec<Option<(String, String)>>,
) -> (r: Vec<Candidate>)
    requires
        files@.len() == contents@.len(),
    ensures
        candidates(r@) == read_files(scored_views(files@), contents_view(contents@)),
{
    let ghost all = scored_views(files@);
    let ghost given = contents_view(contents@);
    let mut out: Vec<Candidate> = Vec::new();
    let mut i: usize = 0;
    assert(candidates(out@) =~= read_files(all.take(0), given.take(0)));
    while i < files.len()
        invariant
            i <= files@.len() == contents@.len(),
            all == scored_views(files@),
            given == contents_view(contents@),
            candidates(out@) == read_files(all.take(i as int), given.take(i as int)),
        decreases files@.len() - i,
    {
        let ghost so_far = candidates(out@);
        proof {
            assert(all.take(i + 1).drop_last() =~= all.take(i as int));
            assert(given.take(i + 1).drop_last() =~= given.take(i as int));
            assert(all.take(i + 1).last() == all[i as int]);
            assert(given.take(i + 1).last() == given[i as int]);
        }
        match &contents[i] {
            Some((content, score_text)) => {
                let one = Candidate {
                    file_id: files[i].0,
                    path: files[i].1.clone(),
                    score: files[i].2,
                    score_text: score_text.clone(),
                    content: content.clone(),
                };
                out.push(one);
                assert(candidates(out@) =~= so_far.push(one@));
            },
            None => {},
        }
        i += 1;
    }
    assert(all.take(i as int) =~= all);
    assert(given.take(i as int) =~= given);
    out
}

// ---------------------------------------------------------------------------
// Laws

/// Scores that were spread from the seeds are not below those of the seeds, so
/// that merging these changes nothing.
pub proof fn law_spread_scores_hold_the_seeds(
    edges: Seq<(i64, i64)>,
    seeds: Seq<(i64, Score)>,
    n: nat,
    scores: Map<i64, Score>,
    some: Seq<(i64, Score)>,
)
    requires
        spread(edges, seeds, n, scores),
        forall|s: (i64, Score)| #[trigger] some.contains(s) ==> seeds.contains(s),
    ensures
        merged(scores, some) == scores,
    decreases some.len(),
{
    if some.len() > 0 {
        let init = some.drop_last();
        assert forall|s: (i64, Score)| #[trigger] init.contains(s) implies seeds.contains(s) by {
            broadcast use vstd::seq_lib::lemma_seq_contains_after_push;

            assert(some =~= init.push(some.last()));
            assert(some.contains(s));
        }
        law_spread_scores_hold_the_seeds(edges, seeds, n, scores, init);
        let (id, score) = some.last();
        assert(some[some.len() - 1] == (id, score));
        assert(some.contains((id, score)));
        assert(seeds.contains((id, score)));
        law_seeds_stay(edges, seeds, n, scores, id, score);
    }
}

/// A file is picked exactly if its score is positive.
pub proof fn law_relevant_files_are_positive(
    files: Seq<(i64, Seq<char>)>,
    scores: Map<i64, Score>,
    f: (i64, Seq<char>, Score),
)
    ensures
        relevant(files, scores).contains(f) <==> files.contains((f.0, f.1)) && scores.contains_key(
            f.0,
        ) && f.2 == scores[f.0] && scores[f.0].order() > 0,
    decreases files.len(),
{
    if files.len() > 0 {
        let init = files.drop_last();
        let rest = relevant(init, scores);
        let all = relevant(files, scores);
        law_relevant_files_are_positive(init, scores, f);
        broadcast use vstd::seq_lib::lemma_seq_contains_after_push;

        assert(files =~= init.push(files.last()));
        assert(rest.contains(f) ==> all.contains(f));
        assert(init.contains((f.0, f.1)) ==> files.contains((f.0, f.1)));
    }
}

/// After merging, a file has the highest of its score before and the scores of the seeds
/// that are it; it has one exactly if it had one before or is a seed.
pub proof fn law_merged_is_highest(
    scores: Map<i64, Score>,
    seeds: Seq<(i64, Score)>,
    x: i64,
)
    ensures
        merged(scores, seeds).contains_key(x) <==> scores.contains_key(x) || exists|i: int|
            0 <= i < seeds.len() && (#[trigger] seeds[i]).0 == x,
        scores.contains_key(x) ==> merged(scores, seeds)[x].order() >= scores[x].order(),
        forall|i: int|
            0 <= i < seeds.len() && (#[trigger] seeds[i]).0 == x ==> merged(
                scores,
                seeds,
            )[x].order() >= seeds[i].1.order(),
        merged(scores, seeds).contains_key(x) ==> (scores.contains_key(x) && merged(
            scores,
            seeds,
        )[x] == scores[x]) || exists|i: int|
            0 <= i < seeds.len() && (#[trigger] seeds[i]).0 == x && seeds[i].1 == merged(
                scores,
                seeds,
            )[x],
    decreases seeds.len(),
{
    if seeds.len() > 0 {
        let init = seeds.drop_last();
        let (id, score) = seeds[seeds.len() - 1];
        let rest = merged(scores, init);
        let all = merged(scores, seeds);
        law_merged_is_highest(scores, init, x);
        assert(seeds.last() == (id, score));
        if exists|i: int| 0 <= i < init.len() && (#[trigger] init[i]).0 == x {
            let i = choose|i: int| 0 <= i < init.len() && (#[trigger] init[i]).0 == x;
            assert(seeds[i].0 == x);
        }
        if exists|i: int| 0 <= i < seeds.len() && (#[trigger] seeds[i]).0 == x {
            let i = choose|i: int| 0 <= i < seeds.len() && (#[trigger] seeds[i]).0 == x;
            if i < init.len() {
                assert(init[i].0 == x);
            }
        }
        assert forall|i: int|
            0 <= i < seeds.len() && (#[trigger] seeds[i]).0 == x implies all[x].order()
            >= seeds[i].1.order() by {
            if i < init.len() {
                assert(init[i] == seeds[i]);
            }
        }
        if rest.contains_key(x) && all[x] == rest[x] && !(scores.contains_key(x) && rest[x]
            == scores[x]) {
            let i = choose|i: int|
                0 <= i < init.len() && (#[trigger] init[i]).0 == x && init[i].1 == rest[x];
            assert(seeds[i].0 == x && seeds[i].1 == all[x]);
        }
        if x == id {
            assert(seeds[seeds.len() - 1].0 == x);
        }
    }
}

/// The files with a positive score are picked in the order in which they are listed.
pub proof fn law_relevant_keep_their_order(
    a: Seq<(i64, Seq<char>)>,
    b: Seq<(i64, Seq<char>)>,
    scores: Map<i64, Score>,
)
    ensures
        relevant(a + b, scores) == relevant(a, scores) + relevant(b, scores),
        a.len() == 1 && scores.contains_key(a[0].0) && scores[a[0].0].order() > 0 ==> relevant(
            a,
            scores,
        ) == seq![(a[0].0, a[0].1, scores[a[0].0])],
        a.len() == 1 && !(scores.contains_key(a[0].0) && scores[a[0].0].order() > 0) ==> relevant(
            a,
            scores,
        ).len() == 0,
    decreases b.len(),
{
    if b.len() == 0 {
        assert(a + b =~= a);
        assert(relevant(a, scores) + relevant(b, scores) =~= relevant(a, scores));
    } else {
        assert((a + b).drop_last() =~= a + b.drop_last());
        assert((a + b).last() == b.last());
        law_relevant_keep_their_order(a, b.drop_last(), scores);
        assert(relevant(a + b, scores) =~= relevant(a, scores) + relevant(b, scores));
    }
    if a.len() == 1 {
        reveal_with_fuel(relevant, 2);
        assert(a.drop_last() =~= Seq::empty());
        assert(a.last() == a[0]);
        if scores.contains_key(a[0].0) && scores[a[0].0].order() > 0 {
            assert(relevant(a, scores) =~= seq![(a[0].0, a[0].1, scores[a[0].0])]);
        }
    }
}

/// A file that could be read becomes one candidate, with its number, its path, its score
/// and what was read; one that could not be read becomes none. The order stays.
pub proof fn law_candidates_are_what_was_read(
    a: Seq<(i64, Seq<char>, Score)>,
    x: Seq<Option<(Seq<char>, Seq<char>)>>,
    f: (i64, Seq<char>, Score),
    c: Option<(Seq<char>, Seq<char>)>,
)
    requires
        a.len() == x.len(),
    ensures
        c is None ==> read_files(a.push(f), x.push(c)) == read_files(a, x),
        c matches Some(got) ==> ({
            let r = read_files(a.push(f), x.push(c));
            &&& r.len() == read_files(a, x).len() + 1
            &&& r.drop_last() == read_files(a, x)
            &&& r.last().file_id == f.0
            &&& r.last().path == f.1
            &&& r.last().score == f.2
            &&& r.last().content == got.0
            &&& r.last().score_text == got.1
        }),
        read_files(Seq::empty(), Seq::empty()).len() == 0,
{
    assert(a.push(f).drop_last() =~= a);
    assert(x.push(c).drop_last() =~= x);
    if let Some(got) = c {
        assert(read_files(a.push(f), x.push(c)).drop_last() =~= read_files(a, x));
    }
}

/// The index of a repository is `index.db` in its directory `.contextsmith`, unless
/// another place is named.
pub proof fn law_place_of_index(root: Seq<char>, named: Seq<char>)
    ensures
        index_path(root, Some(named)) == named,
        components(index_path(root, None)) == components(root) + seq![
            ".contextsmith"@,
            "index.db"@,
        ],
{
    reveal_strlit(".contextsmith");
    reveal_strlit("index.db");
    reveal_strlit(".");
    assert("."@.len() == 1 && ".contextsmith"@.len() == 13 && "index.db"@.len() == 8);
    let a = seq![".contextsmith"@];
    let b = seq!["index.db"@];
    assert(!".contextsmith"@.contains('/'));
    assert(!"index.db"@.contains('/'));
    law_names_between_slashes(a);
    law_names_between_slashes(b);
    assert(join(a, "/"@) == ".contextsmith"@);
    assert(join(b, "/"@) == "index.db"@);
    law_components_under(root, ".contextsmith"@);
    law_components_under(under(root, ".contextsmith"@), "index.db"@);
    assert(components(root) + a + b =~= components(root) + seq![".contextsmith"@, "index.db"@]);
}

/// Twenty seeds are searched for, and their scores are spread over two hops.
pub proof fn law_extent_of_search()
    ensures
        SEED_COUNT == 20,
        EXPAND_DEPTH == 2,
{
}

} // verus!
