//! The best of many scored files, without holding all of them.
use vstd::prelude::*;

use crate::score::Score;

verus! {

/// Whether `a` stands before `b`: a higher score comes first, and of two equal
/// scores that of the file with the smaller number.
pub open spec fn beats(a: (i64, Score), b: (i64, Score)) -> bool {
    ||| a.1.order() > b.1.order()
    ||| a.1.order() == b.1.order() && a.0 < b.0
}

/// A ranked list with one more entry, behind all that it does not beat.
pub open spec fn ranked_with(s: Seq<(i64, Score)>, e: (i64, Score)) -> Seq<(i64, Score)>
    decreases s.len(),
{
    if s.len() > 0 && beats(e, s.last()) {
        ranked_with(s.drop_last(), e).push(s.last())
    } else {
        s.push(e)
    }
}

/// The entries, best first.
pub open spec fn ranked(entries: Seq<(i64, Score)>) -> Seq<(i64, Score)>
    decreases entries.len(),
{
    if entries.len() == 0 {
        Seq::empty()
    } else {
        ranked_with(ranked(entries.drop_last()), entries.last())
    }
}

/// The first `n` of a list, or all if it has fewer.
pub open spec fn first_of(s: Seq<(i64, Score)>, n: nat) -> Seq<(i64, Score)> {
    if s.len() <= n {
        s
    } else {
        s.take(n as int)
    }
}

/// The best `n` of the entries, best first.
pub open spec fn best(entries: Seq<(i64, Score)>, n: nat) -> Seq<(i64, Score)> {
    first_of(ranked(entries), n)
}

/// Whether no entry beats one that stands before it.
pub open spec fn is_ranked(s: Seq<(i64, Score)>) -> bool {
    forall|i: int, j: int| 0 <= i < j < s.len() ==> !beats(#[trigger] s[j], #[trigger] s[i])
}

proof fn lemma_ranked_with(s: Seq<(i64, Score)>, e: (i64, Score))
    requires
        is_ranked(s),
    ensures
        is_ranked(ranked_with(s, e)),
        ranked_with(s, e).len() == s.len() + 1,
        ranked_with(s, e).to_multiset() == s.to_multiset().insert(e),
    decreases s.len(),
{
    broadcast use vstd::seq_lib::group_to_multiset_ensures;

    let t = ranked_with(s, e);
    if s.len() > 0 && beats(e, s.last()) {
        let init = s.drop_last();
        let last = s.last();
        assert forall|i: int, j: int| 0 <= i < j < init.len() implies !beats(
            #[trigger] init[j],
            #[trigger] init[i],
        ) by {
            assert(init[j] == s[j] && init[i] == s[i]);
        }
        lemma_ranked_with(init, e);
        let u = ranked_with(init, e);
        assert(s =~= init.push(last));
        assert(t.to_multiset() =~= s.to_multiset().insert(e));
        assert forall|i: int| 0 <= i < u.len() implies !beats(last, #[trigger] u[i]) by {
            assert(u.to_multiset().count(u[i]) > 0) by {
                assert(u.contains(u[i]));
            }
            if u[i] != e {
                assert(init.to_multiset().count(u[i]) > 0);
                assert(init.contains(u[i]));
                let k = choose|k: int| 0 <= k < init.len() && init[k] == u[i];
                assert(s[k] == u[i]);
                assert(s[s.len() - 1] == last);
            }
        }
        assert forall|i: int, j: int| 0 <= i < j < t.len() implies !beats(
            #[trigger] t[j],
            #[trigger] t[i],
        ) by {
            if j < u.len() {
                assert(t[j] == u[j] && t[i] == u[i]);
            } else {
                assert(t[j] == last && t[i] == u[i]);
            }
        }
    } else {
        assert forall|i: int, j: int| 0 <= i < j < t.len() implies !beats(
            #[trigger] t[j],
            #[trigger] t[i],
        ) by {
            if j < s.len() {
                assert(t[j] == s[j] && t[i] == s[i]);
            } else {
                assert(t[j] == e && t[i] == s[i]);
                assert(!beats(s[s.len() - 1], s[i]) || i == s.len() - 1);
            }
        }
    }
}

/// Ranking loses and adds no entry, and puts none before one that beats it.
pub proof fn law_ranked(entries: Seq<(i64, Score)>)
    ensures
        is_ranked(ranked(entries)),
        ranked(entries).len() == entries.len(),
        ranked(entries).to_multiset() == entries.to_multiset(),
    decreases entries.len(),
{
    broadcast use vstd::seq_lib::group_to_multiset_ensures;

    if entries.len() > 0 {
        law_ranked(entries.drop_last());
        lemma_ranked_with(ranked(entries.drop_last()), entries.last());
        assert(entries =~= entries.drop_last().push(entries.last()));
    } else {
        assert(ranked(entries) =~= entries);
    }
}

proof fn lemma_first_of_with(s: Seq<(i64, Score)>, e: (i64, Score), n: nat)
    requires
        is_ranked(s),
    ensures
        first_of(ranked_with(first_of(s, n), e), n) == first_of(ranked_with(s, e), n),
    decreases s.len(),
{
    if s.len() > n {
        let t = ranked_with(s, e);
        let cut = s.take(n as int);
        lemma_ranked_with(s, e);
        if beats(e, s.last()) {
            let init = s.drop_last();
            assert forall|i: int, j: int| 0 <= i < j < init.len() implies !beats(
                #[trigger] init[j],
                #[trigger] init[i],
            ) by {
                assert(init[j] == s[j] && init[i] == s[i]);
            }
            lemma_first_of_with(init, e, n);
            lemma_ranked_with(init, e);
            assert(first_of(init, n) =~= cut);
            assert(t.take(n as int) =~= ranked_with(init, e).take(n as int));
        } else {
            assert(t.take(n as int) =~= cut);
            if n > 0 {
                assert(cut.last() == s[n - 1]);
                assert(!beats(s[s.len() - 1], s[n - 1]) || n == s.len());
                assert(!beats(e, cut.last()));
                assert(ranked_with(cut, e) =~= cut.push(e));
            }
            assert(ranked_with(cut, e).len() == n + 1) by {
                assert forall|i: int, j: int| 0 <= i < j < cut.len() implies !beats(
                    #[trigger] cut[j],
                    #[trigger] cut[i],
                ) by {
                    assert(cut[j] == s[j] && cut[i] == s[i]);
                }
                lemma_ranked_with(cut, e);
            }
            assert(ranked_with(cut, e).take(n as int) =~= cut);
        }
    }
}

proof fn lemma_ranked_with_at(s: Seq<(i64, Score)>, e: (i64, Score), at: int)
    requires
        0 <= at <= s.len(),
        forall|k: int| at <= k < s.len() ==> beats(e, #[trigger] s[k]),
        at > 0 ==> !beats(e, s[at - 1]),
    ensures
        ranked_with(s, e) == s.insert(at, e),
    decreases s.len(),
{
    if at < s.len() {
        let init = s.drop_last();
        assert(beats(e, s[s.len() - 1]));
        assert forall|k: int| at <= k < init.len() implies beats(e, #[trigger] init[k]) by {
            assert(init[k] == s[k]);
        }
        lemma_ranked_with_at(init, e, at);
        assert(init.insert(at, e).push(s.last()) =~= s.insert(at, e));
    } else {
        assert(s.push(e) =~= s.insert(at, e));
    }
}

fn wins(a: (i64, Score), b: (i64, Score)) -> (r: bool)
    ensures
        r == beats(a, b),
{
    if a.1.above(b.1) {
        true
    } else if b.1.above(a.1) {
        false
    } else {
        a.0 < b.0
    }
}

/// The best files of those that were offered, at most a given number of them.
#[derive(Debug)]
pub struct TopFiles {
    limit: usize,
    kept: Vec<(i64, Score)>,
}

impl TopFiles {
    /// How many files are kept at most.
    pub closed spec fn limit(self) -> nat {
        self.limit as nat
    }

    /// The files that are kept, best first.
    pub closed spec fn kept(self) -> Seq<(i64, Score)> {
        self.kept@
    }

    /// Whether the best of `offered` are kept.
    pub open spec fn holds(self, offered: Seq<(i64, Score)>) -> bool {
        self.kept() == best(offered, self.limit())
    }

    /// Keeps up to `limit` files; none has been offered yet.
    pub fn new(limit: usize) -> (r: TopFiles)
        ensures
            r.limit() == limit,
            r.kept() == Seq::<(i64, Score)>::empty(),
            r.holds(Seq::empty()),
    {
        TopFiles { limit, kept: Vec::new() }
    }

    #[verifier::type_invariant]
    closed spec fn wf(self) -> bool {
        self.kept@.len() <= self.limit
    }

    /// Offers a file. The worst one leaves where there are too many then.
    pub fn offer(&mut self, id: i64, score: Score)
        ensures
            final(self).limit() == old(self).limit(),
            final(self).kept() == first_of(
                ranked_with(old(self).kept(), (id, score)),
                old(self).limit(),
            ),
            final(self).kept().len() <= final(self).limit(),
            forall|offered: Seq<(i64, Score)>|
                #![trigger old(self).holds(offered)]
                old(self).holds(offered) ==> final(self).holds(offered.push((id, score))),
    {
        proof {
            use_type_invariant(&*self);
        }
        let e = (id, score);
        let ghost before = self.kept@;
        let mut kept: Vec<(i64, Score)> = Vec::new();
        core::mem::swap(&mut kept, &mut self.kept);
        let mut at: usize = kept.len();
        while at > 0 && wins(e, kept[at - 1])
            invariant
                at <= kept@.len(),
                kept@ == before,
                forall|k: int| at <= k < before.len() ==> beats(e, #[trigger] before[k]),
            decreases at,
        {
            at -= 1;
        }
        proof {
            lemma_ranked_with_at(before, e, at as int);
        }
        kept.insert(at, e);
        if kept.len() > self.limit {
            kept.pop();
        }
        self.kept = kept;
        proof {
            let n = self.limit as nat;
            assert(self.kept@ =~= first_of(ranked_with(before, e), n));
            assert forall|offered: Seq<(i64, Score)>|
                #![trigger old(self).holds(offered)]
                old(self).holds(offered) implies self.holds(offered.push(e)) by {
                law_ranked(offered);
                lemma_first_of_with(ranked(offered), e, n);
                assert(offered.push(e).drop_last() =~= offered);
            }
        }
    }

    /// The files that are kept, best first.
    pub fn finish(self) -> (r: Vec<(i64, Score)>)
        ensures
            r@ == self.kept(),
    {
        self.kept
    }
}

/// The best `n` of scored files, best first.
pub fn best_files(scored: &Vec<(i64, Score)>, n: usize) -> (r: Vec<(i64, Score)>)
    ensures
        r@ == best(scored@, n as nat),
{
    let mut top = TopFiles::new(n);
    let mut i: usize = 0;
    assert(scored@.take(0) =~= Seq::empty());
    while i < scored.len()
        invariant
            i <= scored@.len(),
            top.limit() == n,
            top.holds(scored@.take(i as int)),
        decreases scored@.len() - i,
    {
        let (id, score) = scored[i];
        let ghost before = top;
        top.offer(id, score);
        proof {
            assert(before.holds(scored@.take(i as int)));
            assert(scored@.take(i as int).push((id, score)) =~= scored@.take(i + 1));
        }
        i += 1;
    }
    assert(scored@.take(i as int) =~= scored@);
    top.finish()
}

/// No file that is left out beats one that is among the best.
pub proof fn law_best_are_best(entries: Seq<(i64, Score)>, n: nat, i: int, j: int)
    requires
        0 <= i < best(entries, n).len(),
        best(entries, n).len() <= j < ranked(entries).len(),
    ensures
        is_ranked(best(entries, n)),
        best(entries, n).len() == if entries.len() <= n {
            entries.len()
        } else {
            n
        },
        !beats(ranked(entries)[j], best(entries, n)[i]),
{
    law_ranked(entries);
    let all = ranked(entries);
    let top = best(entries, n);
    assert forall|a: int, b: int| 0 <= a < b < top.len() implies !beats(
        #[trigger] top[b],
        #[trigger] top[a],
    ) by {
        assert(top[a] == all[a] && top[b] == all[b]);
    }
    assert(top[i] == all[i]);
}

/// The best files are as many as may be kept. With the rest they are all that were
/// offered, and in the whole the higher scores come first, and of equal scores the smaller
/// numbers.
pub proof fn law_best_come_first(entries: Seq<(i64, Score)>, n: nat) -> (rest: Seq<(i64, Score)>)
    ensures
        (best(entries, n) + rest).to_multiset() == entries.to_multiset(),
        rest.len() > 0 ==> best(entries, n).len() == n,
        best(entries, n).len() <= n,
        forall|i: int, j: int|
            0 <= i < j < (best(entries, n) + rest).len() ==> {
                let a = #[trigger] (best(entries, n) + rest)[i];
                let b = #[trigger] (best(entries, n) + rest)[j];
                &&& a.1.order() >= b.1.order()
                &&& a.1.order() == b.1.order() ==> a.0 <= b.0
            },
{
    law_ranked(entries);
    let all = ranked(entries);
    let top = best(entries, n);
    let rest = all.skip(top.len() as int);
    assert(top + rest =~= all);
    assert forall|i: int, j: int| 0 <= i < j < all.len() implies {
        let a = #[trigger] all[i];
        let b = #[trigger] all[j];
        &&& a.1.order() >= b.1.order()
        &&& a.1.order() == b.1.order() ==> a.0 <= b.0
    } by {
        assert(!beats(all[j], all[i]));
    }
    rest
}

} // verus!
