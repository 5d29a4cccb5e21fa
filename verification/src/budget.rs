//! Token budgets: how many tokens a text is taken to cost, and which files fit.
use vstd::prelude::*;

use crate::rank::{ahead, is_ranking, rank};
use crate::score::Score;
use crate::text::byte_len;

verus! {

/// A file that may go into a bundle.
#[derive(Debug, Clone)]
pub struct Candidate {
    pub file_id: i64,
    pub path: String,
    pub score: Score,
    /// The score as it is shown to a reader.
    pub score_text: String,
    pub content: String,
}

/// What a [`Candidate`] holds.
#[verifier::ext_equal]
pub struct CandidateView {
    pub file_id: i64,
    pub path: Seq<char>,
    pub score: Score,
    pub score_text: Seq<char>,
    pub content: Seq<char>,
}

impl View for Candidate {
    type V = CandidateView;

    open spec fn view(&self) -> CandidateView {
        CandidateView {
            file_id: self.file_id,
            path: self.path@,
            score: self.score,
            score_text: self.score_text@,
            content: self.content@,
        }
    }
}

/// What a list of candidates holds.
pub open spec fn candidates(v: Seq<Candidate>) -> Seq<CandidateView> {
    v.map_values(|c: Candidate| c@)
}

/// Whether a character is an ASCII character.
pub open spec fn is_ascii_char(c: char) -> bool {
    (c as u32) < 128
}

/// How many characters of `s` are ASCII characters.
pub open spec fn ascii_count(s: Seq<char>) -> nat
    decreases s.len(),
{
    if s.len() == 0 {
        0
    } else {
        ascii_count(s.drop_last()) + if is_ascii_char(s.last()) {
            1nat
        } else {
            0nat
        }
    }
}

/// A quarter of a token for each ASCII character, rounded down in all, and one
/// token for each other character.
pub open spec fn weight(s: Seq<char>) -> int {
    ascii_count(s) / 4 + (s.len() - ascii_count(s))
}

/// The estimated number of tokens of a text: its weight, but at least 1 unless
/// the text is empty.
pub open spec fn tokens(s: Seq<char>) -> int {
    if s.len() == 0 {
        0
    } else if weight(s) < 1 {
        1
    } else {
        weight(s)
    }
}

/// The greatest number, up to `n`, of leading characters of `s` that cost at
/// most `max` tokens.
pub open spec fn fitting(s: Seq<char>, n: nat, max: int) -> nat
    decreases n,
{
    if n == 0 || tokens(s.take(n as int)) <= max {
        n
    } else {
        fitting(s, (n - 1) as nat, max)
    }
}

/// The longest prefix of `s` that costs at most `max` tokens.
pub open spec fn cut(s: Seq<char>, max: int) -> Seq<char> {
    s.take(fitting(s, s.len(), max) as int)
}

/// There are no more ASCII characters than characters.
pub proof fn lemma_ascii_count(s: Seq<char>)
    ensures
        ascii_count(s) <= s.len(),
        0 <= weight(s) <= s.len(),
        s.len() / 4 <= weight(s),
        0 <= tokens(s) <= s.len(),
    decreases s.len(),
{
    if s.len() > 0 {
        lemma_ascii_count(s.drop_last());
    }
}

/// A longer prefix costs at least as much.
pub proof fn lemma_tokens_grow(s: Seq<char>, i: int, j: int)
    requires
        0 <= i <= j <= s.len(),
    ensures
        weight(s.take(i)) <= weight(s.take(j)),
        tokens(s.take(i)) <= tokens(s.take(j)),
    decreases j,
{
    if i < j {
        lemma_tokens_grow(s, i, j - 1);
        assert(s.take(j).drop_last() =~= s.take(j - 1));
        lemma_ascii_count(s.take(j - 1));
    }
}

/// What [`cut`] cuts: the prefix fits, and no longer prefix does.
pub proof fn lemma_cut(s: Seq<char>, max: int)
    requires
        max >= 0,
    ensures
        cut(s, max).is_prefix_of(s),
        tokens(cut(s, max)) <= max,
        forall|n: int| cut(s, max).len() < n <= s.len() ==> tokens(#[trigger] s.take(n)) > max,
{
    lemma_fitting(s, s.len(), max);
    assert(s.take(s.len() as int) =~= s);
}

proof fn lemma_fitting(s: Seq<char>, n: nat, max: int)
    requires
        max >= 0,
        n <= s.len(),
    ensures
        fitting(s, n, max) <= n,
        tokens(s.take(fitting(s, n, max) as int)) <= max,
        forall|k: int| fitting(s, n, max) < k <= n ==> tokens(#[trigger] s.take(k)) > max,
    decreases n,
{
    if n == 0 || tokens(s.take(n as int)) <= max {
    } else {
        lemma_fitting(s, (n - 1) as nat, max);
    }
}

/// [`cut`] is the only prefix that fits and cannot be made longer by one
/// character.
pub proof fn lemma_cut_is(s: Seq<char>, max: int, n: int)
    requires
        max >= 0,
        0 <= n <= s.len(),
        tokens(s.take(n)) <= max,
        n < s.len() ==> tokens(s.take(n + 1)) > max,
    ensures
        cut(s, max) == s.take(n),
{
    lemma_cut(s, max);
    let k = cut(s, max).len() as int;
    if n < k {
        lemma_tokens_grow(s, n + 1, k);
        assert(cut(s, max) =~= s.take(k));
    }
    if k < n {
        assert(tokens(s.take(n)) > max);
    }
}

/// The items of `v` in the order in which `idx` lists their positions.
pub open spec fn arrange<T>(v: Seq<T>, idx: Seq<usize>) -> Seq<T> {
    Seq::new(idx.len(), |i: int| v[idx[i] as int])
}

/// The scores of a list of candidates.
pub open spec fn scores_of(v: Seq<Candidate>) -> Seq<Score> {
    v.map_values(|c: Candidate| c.score)
}

/// The candidates that are taken when there is `room` for so many tokens: one
/// after another, without the empty ones, as long as they fit; the first that
/// does not fit is cut to what fits and ends the selection.
pub open spec fn greedy(cs: Seq<CandidateView>, room: int) -> Seq<CandidateView>
    decreases cs.len(),
{
    if cs.len() == 0 {
        Seq::empty()
    } else if cs[0].content.len() == 0 {
        greedy(cs.drop_first(), room)
    } else if tokens(cs[0].content) <= room {
        seq![cs[0]] + greedy(cs.drop_first(), room - tokens(cs[0].content))
    } else if room > 0 {
        seq![CandidateView { content: cut(cs[0].content, room), ..cs[0] }]
    } else {
        Seq::empty()
    }
}

/// What a list of candidates costs in all.
pub open spec fn total_tokens(cs: Seq<CandidateView>) -> int
    decreases cs.len(),
{
    if cs.len() == 0 {
        0
    } else {
        tokens(cs[0].content) + total_tokens(cs.drop_first())
    }
}

/// The candidates with some content.
pub open spec fn filled(cs: Seq<CandidateView>) -> Seq<CandidateView>
    decreases cs.len(),
{
    if cs.len() == 0 {
        Seq::empty()
    } else if cs[0].content.len() == 0 {
        filled(cs.drop_first())
    } else {
        seq![cs[0]] + filled(cs.drop_first())
    }
}

/// Estimates how many tokens a text costs.
///
/// English and source code come to about four ASCII characters a token. Other
/// characters often cost a token each, and are counted so: the estimate stays
/// on the safe side of the budget, without a tokenizer of any one model.
pub fn estimate_tokens(content: &str) -> (r: usize)
    ensures
        r == tokens(content@),
{
    let n: usize = byte_len(content);
    let mut ascii: usize = 0;
    let mut wide: usize = 0;
    for c in it: content.chars()
        invariant
            it.seq() == content@,
            content@.len() <= n,
            ascii == ascii_count(content@.take(it.index())),
            ascii + wide == it.index(),
    {
        assert(content@.take(it.index() + 1).drop_last() =~= content@.take(it.index()));
        if (c as u32) < 128 {
            ascii += 1;
        } else {
            wide += 1;
        }
    }
    assert(content@.take(content@.len() as int) =~= content@);
    let total: usize = ascii / 4 + wide;
    if content.is_empty() {
        0
    } else if total < 1 {
        1
    } else {
        total
    }
}

/// Cuts a text down to the longest prefix that costs at most `max_tokens`.
pub fn truncate_to_tokens(content: &str, max_tokens: usize) -> (r: String)
    ensures
        r@ == cut(content@, max_tokens as int),
{
    let n: usize = byte_len(content);
    let mut out = String::new();
    if max_tokens == 0 {
        proof {
            if content@.len() > 0 {
                assert(content@.take(1).len() == 1);
            }
            lemma_cut_is(content@, 0, 0);
            assert(content@.take(0) =~= out@);
        }
        return out;
    }
    let mut ascii: usize = 0;
    let mut wide: usize = 0;
    for c in it: content.chars()
        invariant
            it.seq() == content@,
            content@.len() <= n,
            max_tokens > 0,
            out@ == content@.take(it.index()),
            ascii == ascii_count(out@),
            ascii + wide == it.index(),
            tokens(out@) <= max_tokens,
    {
        proof {
            assert(content@.take(it.index() + 1).drop_last() =~= content@.take(it.index()));
        }
        if (c as u32) < 128 {
            ascii += 1;
        } else {
            wide += 1;
        }
        if ascii / 4 + wide > max_tokens {
            proof {
                lemma_cut_is(content@, max_tokens as int, it.index());
            }
            return out;
        }
        out.push(c);
        assert(out@ =~= content@.take(it.index() + 1));
    }
    proof {
        assert(content@.take(content@.len() as int) =~= content@);
        lemma_cut_is(content@, max_tokens as int, content@.len() as int);
    }
    out
}

impl Candidate {
    /// The estimated number of tokens of the content.
    pub fn tokens(&self) -> (r: usize)
        ensures
            r == tokens(self@.content),
    {
        estimate_tokens(self.content.as_str())
    }
}

/// Takes candidates by descending score until the budget is used up; among
/// equal scores the earlier candidate comes first. The first candidate that no
/// longer fits is cut to the rest of the budget, and is the last.
pub fn allocate(candidates: Vec<Candidate>, budget: usize) -> (r: Vec<Candidate>)
    ensures
        exists|idx: Seq<usize>|
            {
                &&& #[trigger] is_ranking(scores_of(candidates@), idx)
                &&& self::candidates(r@) == greedy(
                    arrange(self::candidates(candidates@), idx),
                    budget as int,
                )
            },
        total_tokens(self::candidates(r@)) <= budget,
        forall|i: int, j: int|
            0 <= i < j < r@.len() ==> (#[trigger] r@[i]).score.order() >= (
            #[trigger] r@[j]).score.order(),
{
    let mut scores: Vec<Score> = Vec::new();
    let mut k: usize = 0;
    while k < candidates.len()
        invariant
            k <= candidates@.len(),
            scores@ =~= scores_of(candidates@).take(k as int),
        decreases candidates@.len() - k,
    {
        scores.push(candidates[k].score);
        k += 1;
    }
    assert(scores@ =~= scores_of(candidates@));
    let idx = rank(&scores);
    let ghost all = arrange(self::candidates(candidates@), idx@);
    let ghost want = greedy(all, budget as int);
    proof {
        law_within_budget(all, budget as int);
        law_ranked_descending(candidates@, idx@);
        law_descending(all, budget as int);
    }
    let mut out: Vec<Candidate> = Vec::new();
    let mut room: usize = budget;
    let mut i: usize = 0;
    assert(all.skip(0) =~= all);
    assert(self::candidates(out@) + greedy(all, budget as int) =~= greedy(all, budget as int));
    while i < idx.len()
        invariant
            i <= idx@.len(),
            is_ranking(scores_of(candidates@), idx@),
            all == arrange(self::candidates(candidates@), idx@),
            want == greedy(all, budget as int),
            total_tokens(want) <= budget,
            forall|i: int, j: int|
                0 <= i < j < want.len() ==> (#[trigger] want[i]).score.order() >= (
                #[trigger] want[j]).score.order(),
            greedy(all, budget as int) == self::candidates(out@) + greedy(
                all.skip(i as int),
                room as int,
            ),
        decreases idx@.len() - i,
    {
        let at: usize = idx[i];
        assert(at < candidates@.len());
        let c = &candidates[at];
        let ghost rest = all.skip(i as int);
        let ghost so_far = self::candidates(out@);
        assert(rest[0] == c@);
        assert(rest.drop_first() =~= all.skip(i + 1));
        if !c.content.as_str().is_empty() {
            let t: usize = c.tokens();
            if t > room {
                if room > 0 {
                    let part = truncate_to_tokens(c.content.as_str(), room);
                    let last = Candidate {
                        file_id: c.file_id,
                        path: c.path.clone(),
                        score: c.score,
                        score_text: c.score_text.clone(),
                        content: part,
                    };
                    out.push(last);
                    assert(self::candidates(out@) =~= so_far.push(last@));
                    assert(so_far + seq![last@] =~= so_far.push(last@));
                } else {
                    assert(so_far + Seq::<CandidateView>::empty() =~= so_far);
                }
                proof {
                    lemma_shown_scores(out@, want);
                }
                return out;
            }
            let taken = Candidate {
                file_id: c.file_id,
                path: c.path.clone(),
                score: c.score,
                score_text: c.score_text.clone(),
                content: c.content.clone(),
            };
            out.push(taken);
            room -= t;
            proof {
                assert(self::candidates(out@) =~= so_far.push(c@));
                let tail = greedy(all.skip(i + 1), room as int);
                assert(so_far + (seq![c@] + tail) =~= so_far.push(c@) + tail);
            }
        }
        i += 1;
    }
    assert(all.skip(i as int).len() == 0);
    assert(self::candidates(out@) + Seq::<CandidateView>::empty() =~= self::candidates(out@));
    proof {
        lemma_shown_scores(out@, want);
    }
    out
}

proof fn lemma_shown_scores(v: Seq<Candidate>, cs: Seq<CandidateView>)
    requires
        candidates(v) == cs,
        forall|i: int, j: int|
            0 <= i < j < cs.len() ==> (#[trigger] cs[i]).score.order() >= (
            #[trigger] cs[j]).score.order(),
    ensures
        forall|i: int, j: int|
            0 <= i < j < v.len() ==> (#[trigger] v[i]).score.order() >= (
            #[trigger] v[j]).score.order(),
{
    assert forall|i: int, j: int| 0 <= i < j < v.len() implies (#[trigger] v[i]).score.order() >= (
    #[trigger] v[j]).score.order() by {
        assert(cs[i] == v[i]@);
        assert(cs[j] == v[j]@);
    }
}

// ---------------------------------------------------------------------------
// What every allocation keeps

/// A selection never costs more than the budget.
pub proof fn law_within_budget(cs: Seq<CandidateView>, room: int)
    requires
        room >= 0,
    ensures
        total_tokens(greedy(cs, room)) <= room,
    decreases cs.len(),
{
    if cs.len() == 0 {
    } else if cs[0].content.len() == 0 {
        law_within_budget(cs.drop_first(), room);
    } else if tokens(cs[0].content) <= room {
        let rest = greedy(cs.drop_first(), room - tokens(cs[0].content));
        law_within_budget(cs.drop_first(), room - tokens(cs[0].content));
        let g = seq![cs[0]] + rest;
        assert(g.drop_first() =~= rest);
    } else if room > 0 {
        let c = CandidateView { content: cut(cs[0].content, room), ..cs[0] };
        lemma_cut(cs[0].content, room);
        assert(seq![c].drop_first() =~= Seq::<CandidateView>::empty());
        assert(total_tokens(seq![c]) == tokens(c.content) + total_tokens(
            Seq::<CandidateView>::empty(),
        ));
    }
}

/// When everything fits, everything but the empty files is taken, unchanged.
pub proof fn law_all_taken_when_all_fit(cs: Seq<CandidateView>, room: int)
    requires
        total_tokens(cs) <= room,
    ensures
        greedy(cs, room) == filled(cs),
    decreases cs.len(),
{
    if cs.len() > 0 {
        lemma_total_not_negative(cs.drop_first());
        law_all_taken_when_all_fit(
            cs.drop_first(),
            if cs[0].content.len() == 0 {
                room
            } else {
                room - tokens(cs[0].content)
            },
        );
    }
}

proof fn lemma_total_not_negative(cs: Seq<CandidateView>)
    ensures
        total_tokens(cs) >= 0,
    decreases cs.len(),
{
    if cs.len() > 0 {
        lemma_ascii_count(cs[0].content);
        lemma_total_not_negative(cs.drop_first());
    }
}

/// Every file in a selection has content, and so costs at least one token.
pub proof fn law_nothing_empty_selected(cs: Seq<CandidateView>, room: int, i: int)
    requires
        0 <= i < greedy(cs, room).len(),
    ensures
        greedy(cs, room)[i].content.len() > 0,
        tokens(greedy(cs, room)[i].content) >= 1,
    decreases cs.len(),
{
    if cs[0].content.len() == 0 {
        law_nothing_empty_selected(cs.drop_first(), room, i);
    } else if tokens(cs[0].content) <= room {
        if i > 0 {
            let left = room - tokens(cs[0].content);
            assert(greedy(cs, room)[i] == greedy(cs.drop_first(), left)[i - 1]);
            law_nothing_empty_selected(cs.drop_first(), left, i - 1);
        }
    } else {
        let s = cs[0].content;
        lemma_cut(s, room);
        lemma_ascii_count(s.take(1));
        if cut(s, room).len() == 0 {
            assert(tokens(s.take(1)) > room);
        }
    }
}

/// A selection holds its files in the order of the list, all of them whole but
/// the last, which may be cut short.
pub proof fn law_selected_in_order(cs: Seq<CandidateView>, room: int) -> (at: Seq<int>)
    ensures
        at.len() == greedy(cs, room).len(),
        forall|i: int| 0 <= i < at.len() ==> 0 <= #[trigger] at[i] < cs.len(),
        forall|i: int, j: int| 0 <= i < j < at.len() ==> #[trigger] at[i] < #[trigger] at[j],
        forall|i: int| 0 <= i < at.len() - 1 ==> greedy(cs, room)[i] == cs[#[trigger] at[i]],
        at.len() > 0 ==> {
            let last = greedy(cs, room).last();
            let whole = cs[at.last()];
            &&& last.content.is_prefix_of(whole.content)
            &&& last == CandidateView { content: last.content, ..whole }
        },
    decreases cs.len(),
{
    if cs.len() == 0 {
        Seq::empty()
    } else if cs[0].content.len() == 0 {
        let sub = law_selected_in_order(cs.drop_first(), room);
        let at = Seq::new(sub.len(), |i: int| sub[i] + 1);
        assert forall|i: int| 0 <= i < at.len() implies cs[#[trigger] at[i]]
            == cs.drop_first()[sub[i]] by {}
        at
    } else if tokens(cs[0].content) <= room {
        let left = room - tokens(cs[0].content);
        let sub = law_selected_in_order(cs.drop_first(), left);
        let at = seq![0int] + Seq::new(sub.len(), |i: int| sub[i] + 1);
        let g = greedy(cs, room);
        let h = greedy(cs.drop_first(), left);
        assert(g =~= seq![cs[0]] + h);
        assert forall|i: int| 0 <= i < at.len() implies 0 <= #[trigger] at[i] < cs.len() by {
            if i > 0 {
                assert(0 <= sub[i - 1] < cs.drop_first().len());
            }
        }
        assert forall|i: int, j: int| 0 <= i < j < at.len() implies #[trigger] at[i]
            < #[trigger] at[j] by {
            assert(0 <= sub[j - 1]);
            if i > 0 {
                assert(sub[i - 1] < sub[j - 1]);
            }
        }
        assert forall|i: int| 0 <= i < at.len() - 1 implies g[i] == cs[#[trigger] at[i]] by {
            if i > 0 {
                assert(h[i - 1] == cs.drop_first()[sub[i - 1]]);
            }
        }
        if sub.len() > 0 {
            assert(g.last() == h.last());
            assert(cs[at.last()] == cs.drop_first()[sub.last()]);
        } else {
            assert(g.last() == cs[0]);
            assert(at.last() == 0);
            assert(cs[0].content.is_prefix_of(cs[0].content));
        }
        at
    } else if room > 0 {
        lemma_cut(cs[0].content, room);
        seq![0int]
    } else {
        Seq::empty()
    }
}

/// Once some file has content and there is room, something is selected.
pub proof fn law_something_selected(cs: Seq<CandidateView>, room: int, i: int)
    requires
        room > 0,
        0 <= i < cs.len(),
        cs[i].content.len() > 0,
    ensures
        greedy(cs, room).len() > 0,
    decreases cs.len(),
{
    if cs[0].content.len() == 0 {
        law_something_selected(cs.drop_first(), room, i - 1);
    }
}

/// A selection is in descending order of score when the list is.
pub proof fn law_descending(cs: Seq<CandidateView>, room: int)
    requires
        forall|i: int, j: int|
            0 <= i < j < cs.len() ==> (#[trigger] cs[i]).score.order() >= (
            #[trigger] cs[j]).score.order(),
    ensures
        forall|i: int, j: int|
            0 <= i < j < greedy(cs, room).len() ==> (#[trigger] greedy(cs, room)[i]).score.order()
                >= (#[trigger] greedy(cs, room)[j]).score.order(),
{
    let g = greedy(cs, room);
    let at = law_selected_in_order(cs, room);
    assert forall|i: int, j: int| 0 <= i < j < g.len() implies (#[trigger] g[i]).score.order() >= (
    #[trigger] g[j]).score.order() by {
        assert(g[i] == cs[at[i]]);
        assert(at[i] < at[j]);
        if j < g.len() - 1 {
            assert(g[j] == cs[at[j]]);
        }
    }
}

/// A ranking arranges candidates in descending order of score.
pub proof fn law_ranked_descending(v: Seq<Candidate>, idx: Seq<usize>)
    requires
        is_ranking(scores_of(v), idx),
    ensures
        forall|i: int, j: int|
            0 <= i < j < idx.len() ==> (#[trigger] arrange(candidates(v), idx)[i]).score.order()
                >= (#[trigger] arrange(candidates(v), idx)[j]).score.order(),
{
    assert forall|i: int, j: int| 0 <= i < j < idx.len() implies (#[trigger] arrange(
        candidates(v),
        idx,
    )[i]).score.order() >= (#[trigger] arrange(candidates(v), idx)[j]).score.order() by {
        assert(ahead(scores_of(v), idx[i] as int, idx[j] as int));
    }
}

/// Whether no character of a text is an ASCII character.
pub open spec fn all_wide(s: Seq<char>) -> bool {
    forall|i: int| 0 <= i < s.len() ==> !is_ascii_char(#[trigger] s[i])
}

/// The estimate is at least a quarter of the number of characters and at least one
/// for a text that is not empty; where no character is an ASCII character it is
/// their number.
pub proof fn law_estimate_is_cautious(s: Seq<char>)
    ensures
        s.len() / 4 <= tokens(s) <= s.len(),
        s.len() > 0 ==> tokens(s) >= 1,
        all_wide(s) ==> tokens(s) == s.len(),
{
    lemma_ascii_count(s);
    if all_wide(s) {
        lemma_wide_count(s);
    }
}

proof fn lemma_wide_count(s: Seq<char>)
    requires
        all_wide(s),
    ensures
        ascii_count(s) == 0,
    decreases s.len(),
{
    if s.len() > 0 {
        let init = s.drop_last();
        assert forall|i: int| 0 <= i < init.len() implies !is_ascii_char(#[trigger] init[i]) by {
            assert(init[i] == s[i]);
        }
        lemma_wide_count(init);
        assert(!is_ascii_char(s[s.len() - 1]));
    }
}

/// The files that have some content.
pub open spec fn with_content() -> spec_fn(CandidateView) -> bool {
    |c: CandidateView| c.content.len() > 0
}

/// The ASCII characters.
pub open spec fn ascii_chars() -> spec_fn(char) -> bool {
    |c: char| (c as u32) <= 127
}

proof fn lemma_filled_is_filter(cs: Seq<CandidateView>)
    ensures
        filled(cs) == cs.filter(with_content()),
    decreases cs.len(),
{
    if cs.len() == 0 {
        reveal(Seq::filter);
        assert(cs.filter(with_content()) =~= filled(cs));
    } else {
        let first = seq![cs[0]];
        let rest = cs.drop_first();
        lemma_filled_is_filter(rest);
        assert(cs =~= first + rest);
        Seq::filter_distributes_over_add(first, rest, with_content());
        reveal_with_fuel(Seq::filter, 2);
        assert(first.drop_last() =~= Seq::empty());
        if cs[0].content.len() > 0 {
            assert(first.filter(with_content()) =~= first);
        } else {
            assert(first.filter(with_content()) =~= Seq::empty());
            assert(Seq::<CandidateView>::empty() + rest.filter(with_content()) =~= rest.filter(
                with_content(),
            ));
        }
    }
}

/// Costs add up.
pub proof fn law_costs_add_up(a: Seq<CandidateView>, b: Seq<CandidateView>, c: CandidateView)
    ensures
        total_tokens(a + b) == total_tokens(a) + total_tokens(b),
        total_tokens(seq![c]) == tokens(c.content),
    decreases a.len(),
{
    if a.len() == 0 {
        assert(a + b =~= b);
    } else {
        law_costs_add_up(a.drop_first(), b, c);
        assert((a + b).drop_first() =~= a.drop_first() + b);
    }
    assert(seq![c].drop_first() =~= Seq::<CandidateView>::empty());
    assert(total_tokens(seq![c].drop_first()) == 0);
}

/// Whether `g` takes the first of the files in `full`, with room for `room` tokens, and
/// as much of them as fits.
spec fn takes_the_first(full: Seq<CandidateView>, room: int, g: Seq<CandidateView>) -> bool {
    &&& g.len() <= full.len()
    &&& forall|i: int|
        0 <= i < g.len() ==> (#[trigger] g[i]) == (CandidateView {
            content: g[i].content,
            ..full[i]
        }) && g[i].content.is_prefix_of(full[i].content) && g[i].content.len() > 0
    &&& forall|i: int| 0 <= i < g.len() - 1 ==> (#[trigger] g[i]) == full[i]
    &&& forall|n: int|
        #![trigger full[g.len() - 1].content.take(n)]
        g.len() > 0 && g.last().content.len() < n <= full[g.len() - 1].content.len()
            ==> total_tokens(g.drop_last()) + tokens(full[g.len() - 1].content.take(n)) > room
    &&& g.len() < full.len() && (g.len() == 0 || g.last().content == full[g.len() - 1].content)
        ==> total_tokens(g) >= room
}

proof fn lemma_takes_the_first(cs: Seq<CandidateView>, room: int)
    requires
        room >= 0,
    ensures
        takes_the_first(filled(cs), room, greedy(cs, room)),
    decreases cs.len(),
{
    let full = filled(cs);
    let g = greedy(cs, room);
    if cs.len() == 0 {
    } else if cs[0].content.len() == 0 {
        lemma_takes_the_first(cs.drop_first(), room);
    } else if tokens(cs[0].content) <= room {
        let left = room - tokens(cs[0].content);
        let rest = filled(cs.drop_first());
        let h = greedy(cs.drop_first(), left);
        lemma_takes_the_first(cs.drop_first(), left);
        assert(g =~= seq![cs[0]] + h);
        assert(full =~= seq![cs[0]] + rest);
        assert forall|i: int| 0 <= i < g.len() implies (#[trigger] g[i]) == (CandidateView {
            content: g[i].content,
            ..full[i]
        }) && g[i].content.is_prefix_of(full[i].content) && g[i].content.len() > 0 by {
            if i > 0 {
                assert(g[i] == h[i - 1] && full[i] == rest[i - 1]);
            } else {
                assert(cs[0].content.is_prefix_of(cs[0].content));
            }
        }
        assert forall|i: int| 0 <= i < g.len() - 1 implies (#[trigger] g[i]) == full[i] by {
            if i > 0 {
                assert(h[i - 1] == rest[i - 1]);
            }
        }
        law_costs_add_up(seq![cs[0]], h, cs[0]);
        if h.len() > 0 {
            law_costs_add_up(seq![cs[0]], h.drop_last(), cs[0]);
            assert(g.drop_last() =~= seq![cs[0]] + h.drop_last());
            assert(g.last() == h.last());
            assert(full[g.len() - 1] == rest[h.len() - 1]);
        } else {
            assert(g.last() == cs[0] && full[g.len() - 1] == cs[0]);
        }
    } else if room > 0 {
        let c = CandidateView { content: cut(cs[0].content, room), ..cs[0] };
        lemma_cut(cs[0].content, room);
        law_nothing_empty_selected(cs, room, 0);
        assert(g =~= seq![c]);
        assert(full[0] == cs[0]);
        assert(g.drop_last() =~= Seq::<CandidateView>::empty());
        if c.content == cs[0].content {
            assert(cs[0].content.take(cs[0].content.len() as int) =~= cs[0].content);
        }
    } else {
        assert(full[0] == cs[0]);
    }
}

/// A selection takes the first files that have content, and leaves none of them out:
/// the `i`th selected file is the `i`th of these, whole but for the last one. One more
/// character of a file that was cut would exceed the budget; and where a file is left
/// out and none was cut, the budget is used up.
pub proof fn law_selection_is_a_prefix(cs: Seq<CandidateView>, room: int)
    requires
        room >= 0,
    ensures
        ({
            let full = cs.filter(with_content());
            let g = greedy(cs, room);
            &&& g.len() <= full.len()
            &&& forall|i: int|
                0 <= i < g.len() ==> (#[trigger] g[i]).file_id == full[i].file_id && g[i].path
                    == full[i].path && g[i].score == full[i].score && g[i].score_text
                    == full[i].score_text && g[i].content.len() > 0
                    && g[i].content.is_prefix_of(full[i].content)
            &&& forall|i: int| 0 <= i < g.len() - 1 ==> (#[trigger] g[i]).content == full[i].content
            &&& forall|n: int|
                #![trigger full[g.len() - 1].content.take(n)]
                g.len() > 0 && g.last().content.len() < n <= full[g.len() - 1].content.len()
                    ==> total_tokens(g.drop_last()) + tokens(full[g.len() - 1].content.take(n))
                    > room
            &&& g.len() < full.len() && (g.len() == 0 || g.last().content
                == full[g.len() - 1].content) ==> total_tokens(g) >= room
            &&& total_tokens(g) <= room
        }),
{
    lemma_filled_is_filter(cs);
    lemma_takes_the_first(cs, room);
    law_within_budget(cs, room);
}

proof fn lemma_ascii_filter(s: Seq<char>)
    ensures
        ascii_count(s) == s.filter(ascii_chars()).len(),
    decreases s.len(),
{
    reveal(Seq::filter);
    if s.len() > 0 {
        lemma_ascii_filter(s.drop_last());
    }
}

/// What a text is taken to cost: four ASCII characters make a token, every other
/// character makes one, and no text but the empty one costs nothing.
pub proof fn law_four_ascii_characters_make_a_token(s: Seq<char>)
    ensures
        ({
            let narrow = s.filter(ascii_chars()).len();
            let wide = s.len() - narrow;
            &&& narrow <= s.len()
            &&& s.len() == 0 ==> tokens(s) == 0
            &&& s.len() > 0 && 4 * wide + narrow < 4 ==> tokens(s) == 1
            &&& 4 * wide + narrow >= 4 ==> 4 * tokens(s) <= 4 * wide + narrow < 4 * tokens(s) + 4
        }),
{
    lemma_ascii_filter(s);
    lemma_ascii_count(s);
}

/// A text is cut to its longest prefix that costs no more than allowed.
pub proof fn law_longest_prefix_is_kept(s: Seq<char>, max: int, n: int)
    requires
        max >= 0,
        0 <= n <= s.len(),
    ensures
        cut(s, max) == s.take(cut(s, max).len() as int),
        n <= cut(s, max).len() <==> tokens(s.take(n)) <= max,
{
    lemma_cut(s, max);
    let k = cut(s, max).len() as int;
    assert(s.take(k) =~= cut(s, max));
    if n <= k {
        lemma_tokens_grow(s, n, k);
    }
}

/// The positions of the candidates that have some content.
spec fn content_at(v: Seq<Candidate>) -> spec_fn(usize) -> bool {
    |i: usize| v[i as int].content@.len() > 0
}

proof fn lemma_filled_positions(v: Seq<Candidate>, idx: Seq<usize>)
    requires
        forall|k: int| 0 <= k < idx.len() ==> #[trigger] idx[k] < v.len(),
    ensures
        arrange(candidates(v), idx).filter(with_content()) == arrange(
            candidates(v),
            idx.filter(content_at(v)),
        ),
        forall|k: int|
            0 <= k < idx.filter(content_at(v)).len() ==> idx.contains(
                #[trigger] idx.filter(content_at(v))[k],
            ),
        forall|j: usize|
            idx.contains(j) && content_at(v)(j) ==> #[trigger] idx.filter(content_at(v)).contains(j),
    decreases idx.len(),
{
    broadcast use vstd::seq_lib::lemma_seq_contains_after_push;

    reveal(Seq::filter);
    let all = arrange(candidates(v), idx);
    let p = content_at(v);
    if idx.len() == 0 {
        assert(all.filter(with_content()) =~= arrange(candidates(v), idx.filter(p)));
    } else {
        let init = idx.drop_last();
        let last = idx[idx.len() - 1];
        assert forall|k: int| 0 <= k < init.len() implies #[trigger] init[k] < v.len() by {
            assert(init[k] == idx[k]);
        }
        lemma_filled_positions(v, init);
        assert(idx =~= init.push(last));
        assert(all.drop_last() =~= arrange(candidates(v), init));
        assert(last < v.len());
        assert(all.last() == v[last as int]@);
        assert(candidates(v)[last as int] == v[last as int]@);
        let kept = init.filter(p);
        assert(arrange(candidates(v), kept.push(last)) =~= arrange(candidates(v), kept).push(
            v[last as int]@,
        ));
        assert forall|k: int| 0 <= k < idx.filter(p).len() implies idx.contains(
            #[trigger] idx.filter(p)[k],
        ) by {
            if k < kept.len() {
                assert(idx.filter(p)[k] == kept[k]);
                assert(init.contains(kept[k]));
            } else {
                assert(idx.filter(p)[k] == last);
            }
        }
    }
}

proof fn lemma_filtered_ranking(v: Seq<Candidate>, idx: Seq<usize>)
    requires
        forall|k: int| 0 <= k < idx.len() ==> #[trigger] idx[k] < v.len(),
        forall|i: int, j: int|
            0 <= i < j < idx.len() ==> ahead(
                scores_of(v),
                #[trigger] idx[i] as int,
                #[trigger] idx[j] as int,
            ),
    ensures
        forall|i: int, j: int|
            0 <= i < j < idx.filter(content_at(v)).len() ==> ahead(
                scores_of(v),
                #[trigger] idx.filter(content_at(v))[i] as int,
                #[trigger] idx.filter(content_at(v))[j] as int,
            ),
    decreases idx.len(),
{
    reveal(Seq::filter);
    if idx.len() > 0 {
        let init = idx.drop_last();
        let last = idx[idx.len() - 1];
        let p = content_at(v);
        assert forall|k: int| 0 <= k < init.len() implies #[trigger] init[k] < v.len() by {
            assert(init[k] == idx[k]);
        }
        assert forall|i: int, j: int| 0 <= i < j < init.len() implies ahead(
            scores_of(v),
            #[trigger] init[i] as int,
            #[trigger] init[j] as int,
        ) by {
            assert(init[i] == idx[i] && init[j] == idx[j]);
        }
        lemma_filtered_ranking(v, init);
        lemma_filled_positions(v, init);
        let kept = init.filter(p);
        let all = idx.filter(p);
        assert forall|i: int, j: int| 0 <= i < j < all.len() implies ahead(
            scores_of(v),
            #[trigger] all[i] as int,
            #[trigger] all[j] as int,
        ) by {
            assert(all[i] == kept[i]);
            if j < kept.len() {
                assert(all[j] == kept[j]);
            } else {
                assert(all[j] == last);
                assert(init.contains(kept[i]));
                let k = choose|k: int| 0 <= k < init.len() && init[k] == kept[i];
                assert(ahead(scores_of(v), idx[k] as int, idx[idx.len() - 1] as int));
            }
        }
    }
}

/// The selected candidates are those with the highest scores of all that have content: a
/// candidate that is left out has no higher score than any that is selected, and stands
/// behind it in the list where the scores are equal. `at` says where each of the selected
/// stands in the list, of which it keeps all but perhaps a part of the content.
pub proof fn law_highest_scores_are_selected(
    v: Seq<Candidate>,
    idx: Seq<usize>,
    room: int,
) -> (at: Seq<usize>)
    requires
        is_ranking(scores_of(v), idx),
        room >= 0,
    ensures
        ({
            let g = greedy(arrange(candidates(v), idx), room);
            &&& at.len() == g.len()
            &&& forall|k: int|
                0 <= k < at.len() ==> {
                    let c = v[(#[trigger] at[k]) as int];
                    &&& at[k] < v.len()
                    &&& g[k].file_id == c.file_id
                    &&& g[k].path == c.path@
                    &&& g[k].score == c.score
                    &&& g[k].score_text == c.score_text@
                    &&& g[k].content.is_prefix_of(c.content@)
                    &&& g[k].content.len() > 0
                }
            &&& forall|k: int, l: int|
                0 <= k < l < at.len() ==> {
                    let (a, b) = (#[trigger] at[k], #[trigger] at[l]);
                    &&& v[a as int].score.order() >= v[b as int].score.order()
                    &&& v[a as int].score.order() == v[b as int].score.order() ==> a < b
                }
            &&& forall|k: int, j: usize|
                0 <= k < at.len() && j < v.len() && v[j as int].content@.len() > 0
                    && !#[trigger] at.contains(j) ==> {
                    let a = #[trigger] at[k];
                    &&& v[a as int].score.order() >= v[j as int].score.order()
                    &&& v[a as int].score.order() == v[j as int].score.order() ==> a < j
                }
        }),
{
    let all = arrange(candidates(v), idx);
    let g = greedy(all, room);
    let full = idx.filter(content_at(v));
    law_selection_is_a_prefix(all, room);
    lemma_filled_positions(v, idx);
    lemma_filtered_ranking(v, idx);
    let at = full.take(g.len() as int);
    assert forall|k: int| 0 <= k < full.len() implies (#[trigger] full[k]) < v.len() by {
        assert(idx.contains(full[k]));
    }
    assert forall|k: int| 0 <= k < at.len() implies {
        let c = v[(#[trigger] at[k]) as int];
        &&& at[k] < v.len()
        &&& g[k].file_id == c.file_id
        &&& g[k].path == c.path@
        &&& g[k].score == c.score
        &&& g[k].score_text == c.score_text@
        &&& g[k].content.is_prefix_of(c.content@)
        &&& g[k].content.len() > 0
    } by {
        assert(at[k] == full[k]);
        let one = all.filter(with_content())[k];
        assert(one == v[full[k] as int]@);
        assert(g[k].file_id == one.file_id);
    }
    assert forall|k: int, l: int| 0 <= k < l < at.len() implies {
        let (a, b) = (#[trigger] at[k], #[trigger] at[l]);
        &&& v[a as int].score.order() >= v[b as int].score.order()
        &&& v[a as int].score.order() == v[b as int].score.order() ==> a < b
    } by {
        assert(ahead(scores_of(v), full[k] as int, full[l] as int));
    }
    assert forall|k: int, j: usize|
        0 <= k < at.len() && j < v.len() && v[j as int].content@.len() > 0
            && !#[trigger] at.contains(j) implies {
        let a = #[trigger] at[k];
        &&& v[a as int].score.order() >= v[j as int].score.order()
        &&& v[a as int].score.order() == v[j as int].score.order() ==> a < j
    } by {
        assert(idx.contains(j));
        assert(content_at(v)(j));
        assert(full.contains(j));
        let l = choose|l: int| 0 <= l < full.len() && full[l] == j;
        if l < at.len() {
            assert(at[l] == j);
        }
        assert(ahead(scores_of(v), full[k] as int, full[l] as int));
    }
    at
}

} // verus!
