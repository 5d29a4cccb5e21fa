//! Writes the texts of a context bundle: the summary, one file of Markdown for each
//! selected source, and the citations.
use vstd::hash_map::StringHashMap;
use vstd::prelude::*;

use crate::budget::{candidates, tokens, total_tokens, Candidate, CandidateView};
use crate::path::{extension, extension_of, last_index};
use crate::score::Score;
use crate::text::{byte_len, decimal, digit, to_decimal};

verus! {

// ---------------------------------------------------------------------------
// The summary

/// The score of a file as the summary shows it.
pub open spec fn score_note(c: CandidateView, explain: bool) -> Seq<char> {
    if explain {
        " (score="@ + c.score_text + ")"@
    } else {
        ""@
    }
}

/// The line of the summary for the `n`th file.
pub open spec fn file_line(n: nat, c: CandidateView, explain: bool) -> Seq<char> {
    decimal(n) + ". `"@ + c.path + "`"@ + score_note(c, explain) + " — "@ + decimal(
        tokens(c.content) as nat,
    ) + " tokens\n"@
}

/// The lines of the summary for the files.
pub open spec fn file_lines(cs: Seq<CandidateView>, explain: bool) -> Seq<char>
    decreases cs.len(),
{
    if cs.len() == 0 {
        Seq::empty()
    } else {
        file_lines(cs.drop_last(), explain) + file_line(cs.len(), cs.last(), explain)
    }
}

/// The head of the summary.
pub open spec fn summary_head(task: Seq<char>, budget: nat, used: nat) -> Seq<char> {
    "# Context Bundle\n\n**Task:** "@ + task + "\n\n**Budget:** "@ + decimal(budget)
        + " tokens  \n**Used:** "@ + decimal(used) + " tokens\n\n## Selected Files\n\n"@
}

/// The part of the summary with the recent diff.
pub open spec fn diff_section(diff: Seq<char>) -> Seq<char> {
    if diff.len() == 0 {
        Seq::empty()
    } else {
        "\n## Recent Diff\n\n```diff\n"@ + diff + "\n```\n"@
    }
}

/// The summary of a bundle.
pub open spec fn task_md(
    task: Seq<char>,
    budget: nat,
    cs: Seq<CandidateView>,
    diff: Seq<char>,
    explain: bool,
) -> Seq<char> {
    summary_head(task, budget, total_tokens(cs) as nat) + file_lines(cs, explain) + diff_section(
        diff,
    )
}

proof fn lemma_total_push(cs: Seq<CandidateView>, c: CandidateView)
    ensures
        total_tokens(cs.push(c)) == total_tokens(cs) + tokens(c.content),
    decreases cs.len(),
{
    let all = cs.push(c);
    if cs.len() == 0 {
        assert(all.drop_first() =~= Seq::empty());
        assert(total_tokens(all.drop_first()) == 0);
    } else {
        assert(all.drop_first() =~= cs.drop_first().push(c));
        lemma_total_push(cs.drop_first(), c);
    }
}

/// The tokens of all selected files.
pub fn used_tokens(selected: &Vec<Candidate>) -> (r: u128)
    ensures
        r == total_tokens(candidates(selected@)),
{
    let ghost all = candidates(selected@);
    let mut used: u128 = 0;
    let mut i: usize = 0;
    assert(total_tokens(all.take(0)) == 0);
    while i < selected.len()
        invariant
            i <= selected@.len(),
            all == candidates(selected@),
            used == total_tokens(all.take(i as int)),
            used <= i * (u64::MAX as int),
        decreases selected@.len() - i,
    {
        let t: usize = selected[i].tokens();
        proof {
            assert(all.take(i + 1) =~= all.take(i as int).push(all[i as int]));
            assert(all[i as int] == selected@[i as int]@);
            lemma_total_push(all.take(i as int), all[i as int]);
            assert(i * (u64::MAX as int) + u64::MAX == (i + 1) * (u64::MAX as int))
                by (nonlinear_arith);
            assert((i + 1) * (u64::MAX as int) <= u128::MAX) by (nonlinear_arith)
                requires
                    0 <= i < u64::MAX,
            ;
        }
        used += t as u128;
        i += 1;
    }
    assert(all.take(i as int) =~= all);
    used
}

/// Writes the summary of a bundle: the task, the selected files and the recent diff.
pub fn render_task_md(
    task: &str,
    budget: usize,
    selected: &Vec<Candidate>,
    diff_summary: &str,
    explain: bool,
) -> (r: String)
    ensures
        r@ == task_md(task@, budget as nat, candidates(selected@), diff_summary@, explain),
{
    let ghost all = candidates(selected@);
    let used = used_tokens(selected);
    let mut out = "# Context Bundle\n\n**Task:** ".to_owned();
    out.append(task);
    out.append("\n\n**Budget:** ");
    out.append(to_decimal(budget as u128).as_str());
    out.append(" tokens  \n**Used:** ");
    out.append(to_decimal(used).as_str());
    out.append(" tokens\n\n## Selected Files\n\n");
    let ghost head = out@;
    assert(head =~= summary_head(task@, budget as nat, used as nat));
    assert(head + file_lines(all.take(0), explain) =~= head);
    let mut i: usize = 0;
    while i < selected.len()
        invariant
            i <= selected@.len(),
            all == candidates(selected@),
            out@ == head + file_lines(all.take(i as int), explain),
        decreases selected@.len() - i,
    {
        let c = &selected[i];
        let ghost so_far = out@;
        out.append(to_decimal(i as u128 + 1).as_str());
        out.append(". `");
        out.append(c.path.as_str());
        out.append("`");
        if explain {
            out.append(" (score=");
            out.append(c.score_text.as_str());
            out.append(")");
        }
        out.append(" — ");
        out.append(to_decimal(c.tokens() as u128).as_str());
        out.append(" tokens\n");
        proof {
            let next = all.take(i + 1);
            assert(next.drop_last() =~= all.take(i as int));
            assert(next.last() == c@);
            reveal_strlit("");
            assert(out@ =~= so_far + file_line((i + 1) as nat, c@, explain));
            assert(head + (file_lines(all.take(i as int), explain) + file_line(
                (i + 1) as nat,
                c@,
                explain,
            )) =~= so_far + file_line((i + 1) as nat, c@, explain));
        }
        i += 1;
    }
    assert(all.take(i as int) =~= all);
    let ghost body = out@;
    if !diff_summary.is_empty() {
        out.append("\n## Recent Diff\n\n```diff\n");
        out.append(diff_summary);
        out.append("\n```\n");
    }
    assert(out@ =~= body + diff_section(diff_summary@));
    out
}

// ---------------------------------------------------------------------------
// Names of files

/// Whether a character is a letter or a number, by the Unicode tables that
/// `char::is_alphanumeric` goes by.
pub uninterp spec fn alphanumeric(c: char) -> bool;

/// `char::is_alphanumeric` depends on the character alone. Of the ASCII characters
/// it accepts the digits and the letters.
pub assume_specification[ char::is_alphanumeric ](c: char) -> (r: bool)
    ensures
        r == alphanumeric(c),
        (c as u32) < 128 ==> r == ('0' <= c <= '9' || 'a' <= c <= 'z' || 'A' <= c <= 'Z'),
;

/// A path as a file name: everything but letters and numbers becomes `_`.
pub open spec fn base_slug(path: Seq<char>) -> Seq<char> {
    Seq::new(
        path.len(),
        |i: int|
            if alphanumeric(path[i]) {
                path[i]
            } else {
                '_'
            },
    )
}

/// A name with the number `count`: none at first, then the numbers from zero on.
pub open spec fn slug(base: Seq<char>, count: nat) -> Seq<char> {
    if count == 0 {
        base
    } else {
        base + "_"@ + decimal((count - 1) as nat)
    }
}

/// The first number from `count` on with which the name is not taken. As many names
/// as are taken can be passed over at most.
pub open spec fn free_count(taken: Seq<Seq<char>>, base: Seq<char>, count: nat) -> nat
    decreases taken.len() - count,
{
    if count < taken.len() && taken.contains(slug(base, count)) {
        free_count(taken, base, count + 1)
    } else {
        count
    }
}

/// The names that the files at these paths get: that of the path, with the first
/// number with which no earlier file has it.
pub open spec fn slugs(paths: Seq<Seq<char>>) -> Seq<Seq<char>>
    decreases paths.len(),
{
    if paths.len() == 0 {
        Seq::empty()
    } else {
        let taken = slugs(paths.drop_last());
        let base = base_slug(paths.last());
        taken.push(slug(base, free_count(taken, base, 0)))
    }
}

/// Makes a file name of a path: everything but letters and numbers becomes `_`.
pub fn make_base_slug(path: &str) -> (r: String)
    ensures
        r@ == base_slug(path@),
{
    let mut out = String::new();
    for c in it: path.chars()
        invariant
            it.seq() == path@,
            out@ == base_slug(path@.take(it.index())),
    {
        let ghost so_far = path@.take(it.index());
        assert(path@.take(it.index() + 1) =~= so_far.push(c));
        if c.is_alphanumeric() {
            out.push(c);
        } else {
            out.push('_');
        }
        assert(out@ =~= base_slug(so_far.push(c)));
    }
    assert(path@.take(path@.len() as int) =~= path@);
    out
}

/// Gives a name the number `count`: none at first, then the numbers from zero on.
pub fn make_slug(base: &str, count: usize) -> (r: String)
    ensures
        r@ == slug(base@, count as nat),
{
    let mut out = base.to_owned();
    if count > 0 {
        out.append("_");
        out.append(to_decimal((count - 1) as u128).as_str());
    }
    out
}

// ---------------------------------------------------------------------------
// Code blocks

/// How many backticks `s` ends with.
pub open spec fn run_at_end(s: Seq<char>) -> nat
    decreases s.len(),
{
    if s.len() > 0 && s.last() == '`' {
        run_at_end(s.drop_last()) + 1
    } else {
        0
    }
}

/// The length of the longest run of backticks in `s`.
pub open spec fn longest_run(s: Seq<char>) -> nat
    decreases s.len(),
{
    if s.len() == 0 {
        0
    } else if longest_run(s.drop_last()) < run_at_end(s) {
        run_at_end(s)
    } else {
        longest_run(s.drop_last())
    }
}

/// The length of the fence around a code block with this content.
pub open spec fn fence_length(content: Seq<char>) -> nat {
    if longest_run(content) < 2 {
        3
    } else {
        longest_run(content) + 1
    }
}

/// The fence around a code block: one backtick more than the longest run in its
/// content, and at least three.
pub open spec fn fence(content: Seq<char>) -> Seq<char> {
    Seq::new(fence_length(content), |i: int| '`')
}

/// Makes the fence around a code block.
pub fn safe_fence(content: &str) -> (r: String)
    ensures
        r@ == fence(content@),
{
    let mut max: usize = 2;
    let mut cur: usize = 0;
    let n: usize = byte_len(content);
    for c in it: content.chars()
        invariant
            it.seq() == content@,
            content@.len() <= n,
            cur == run_at_end(content@.take(it.index())),
            cur <= it.index(),
            max == if longest_run(content@.take(it.index())) < 2 {
                2
            } else {
                longest_run(content@.take(it.index())) as int
            },
    {
        let ghost so_far = content@.take(it.index());
        assert(content@.take(it.index() + 1) =~= so_far.push(c));
        assert(so_far.push(c).drop_last() =~= so_far);
        if c == '`' {
            cur += 1;
            if cur > max {
                max = cur;
            }
        } else {
            cur = 0;
        }
    }
    assert(content@.take(content@.len() as int) =~= content@);
    let mut out = String::new();
    let mut i: usize = 0;
    while i < max
        invariant
            i <= max,
            out@ =~= Seq::new(i as nat, |k: int| '`'),
        decreases max - i,
    {
        out.push('`');
        i += 1;
    }
    out.push('`');
    assert(out@ =~= fence(content@));
    out
}

/// The language of a code block: the extension of the path, or `txt`.
pub open spec fn block_language(path: Seq<char>) -> Seq<char> {
    match extension(path) {
        Some(ext) => ext,
        None => "txt"@,
    }
}

/// The Markdown for a selected file.
pub open spec fn file_md(c: CandidateView) -> Seq<char> {
    "<!-- "@ + c.path + " -->\n"@ + fence(c.content) + block_language(c.path) + "\n"@ + c.content
        + "\n"@ + fence(c.content) + "\n"@
}

/// Writes the Markdown for a selected file.
pub fn render_file_md(c: &Candidate) -> (r: String)
    ensures
        r@ == file_md(c@),
{
    let fence = safe_fence(c.content.as_str());
    let ext = match extension_of(c.path.as_str()) {
        Some(ext) => ext,
        None => "txt".to_owned(),
    };
    let mut out = "<!-- ".to_owned();
    out.append(c.path.as_str());
    out.append(" -->\n");
    out.append(fence.as_str());
    out.append(ext.as_str());
    out.append("\n");
    out.append(c.content.as_str());
    out.append("\n");
    out.append(fence.as_str());
    out.append("\n");
    out
}

// ---------------------------------------------------------------------------
// The bundle

/// Why a file is in a bundle.
#[derive(Debug)]
pub struct Citation {
    pub path: String,
    pub score: Score,
    pub tokens: usize,
    pub reason: String,
}

/// A [`Citation`], with texts for its strings.
#[verifier::ext_equal]
pub struct CitationView {
    pub path: Seq<char>,
    pub score: Score,
    pub tokens: int,
    pub reason: Seq<char>,
}

impl View for Citation {
    type V = CitationView;

    open spec fn view(&self) -> CitationView {
        CitationView {
            path: self.path@,
            score: self.score,
            tokens: self.tokens as int,
            reason: self.reason@,
        }
    }
}

/// The citation of a file.
pub open spec fn citation(c: CandidateView) -> CitationView {
    CitationView {
        path: c.path,
        score: c.score,
        tokens: tokens(c.content),
        reason: "bm25_score="@ + c.score_text,
    }
}

/// A file of a bundle.
#[derive(Debug)]
pub struct BundleFile {
    pub name: String,
    pub text: String,
}

/// The texts of a bundle.
#[derive(Debug)]
pub struct Bundle {
    /// The summary.
    pub task_md: String,
    /// The files with the code.
    pub code: Vec<BundleFile>,
    /// Why each file was selected.
    pub citations: Vec<Citation>,
}

/// The paths of the files.
pub open spec fn paths_of(cs: Seq<CandidateView>) -> Seq<Seq<char>> {
    cs.map_values(|c: CandidateView| c.path)
}

/// The files with the code, by name and text.
pub open spec fn code_files(cs: Seq<CandidateView>) -> Seq<(Seq<char>, Seq<char>)> {
    Seq::new(cs.len(), |i: int| (slugs(paths_of(cs))[i] + ".md"@, file_md(cs[i])))
}

/// Files by name and text.
pub open spec fn file_texts(files: Seq<BundleFile>) -> Seq<(Seq<char>, Seq<char>)> {
    files.map_values(|f: BundleFile| (f.name@, f.text@))
}

/// Citations, with texts for their strings.
pub open spec fn citation_views(list: Seq<Citation>) -> Seq<CitationView> {
    list.map_values(|c: Citation| c@)
}

/// Gives a name the first number with which it is not taken, and takes it. Up to
/// `from` all numbers are taken.
fn take_name(used: &mut StringHashMap<bool>, base: &str, from: usize, Ghost(taken): Ghost<
    Seq<Seq<char>>,
>) -> (r: (String, usize))
    requires
        forall|s: Seq<char>| #[trigger] old(used)@.contains_key(s) <==> taken.contains(s),
        forall|k: nat| k < from ==> taken.contains(#[trigger] slug(base@, k)),
        taken.len() < usize::MAX,
    ensures
        r.1 == free_count(taken, base@, 0),
        r.0@ == slug(base@, r.1 as nat),
        forall|s: Seq<char>| #[trigger]
            final(used)@.contains_key(s) <==> taken.push(r.0@).contains(s),
        forall|k: nat| k < r.1 ==> taken.contains(#[trigger] slug(base@, k)),
        r.1 <= taken.len(),
{
    let mut count: usize = from;
    let mut name = make_slug(base, count);
    proof {
        lemma_all_taken(taken, base@, from as nat);
    }
    while used.contains_key(name.as_str())
        invariant
            used@ == old(used)@,
            name@ == slug(base@, count as nat),
            count <= taken.len() < usize::MAX,
            forall|s: Seq<char>| #[trigger] used@.contains_key(s) <==> taken.contains(s),
            forall|k: nat| k < count ==> taken.contains(#[trigger] slug(base@, k)),
        decreases taken.len() - count,
    {
        assert forall|k: nat| k < count + 1 implies taken.contains(#[trigger] slug(base@, k)) by {
            if k == count {
                assert(taken.contains(name@));
            }
        }
        proof {
            lemma_all_taken(taken, base@, (count + 1) as nat);
        }
        count += 1;
        name = make_slug(base, count);
    }
    proof {
        broadcast use vstd::seq_lib::lemma_seq_contains_after_push;

        lemma_free_count(taken, base@, 0, count as nat);
    }
    let key = name.clone();
    used.insert(key, true);
    (name, count)
}

/// Writes the files with the code. Files whose paths give the same name get a number.
pub fn write_code_files(selected: &Vec<Candidate>) -> (r: Vec<BundleFile>)
    ensures
        file_texts(r@) == code_files(candidates(selected@)),
        forall|i: int, j: int| 0 <= i < j < r@.len() ==> r@[i].name@ != r@[j].name@,
{
    let ghost all = candidates(selected@);
    let ghost paths = paths_of(all);
    let mut used: StringHashMap<bool> = StringHashMap::new();
    let mut counts: StringHashMap<usize> = StringHashMap::new();
    let mut out: Vec<BundleFile> = Vec::new();
    let n: usize = selected.len();
    let mut i: usize = 0;
    while i < n
        invariant
            i <= n == selected@.len(),
            all == candidates(selected@),
            paths == paths_of(all),
            file_texts(out@) =~= code_files(all).take(i as int),
            forall|s: Seq<char>| #[trigger]
                used@.contains_key(s) <==> slugs(paths.take(i as int)).contains(s),
            forall|b: Seq<char>, k: nat|
                counts@.contains_key(b) && k < counts@[b] ==> slugs(
                    paths.take(i as int),
                ).contains(#[trigger] slug(b, k)),
        decreases n - i,
    {
        let c = &selected[i];
        assert(all[i as int] == c@);
        let base = make_base_slug(c.path.as_str());
        let ghost taken = slugs(paths.take(i as int));
        let ghost next = paths.take(i + 1);
        proof {
            assert(next.drop_last() =~= paths.take(i as int));
            assert(base_slug(next.last()) == base@);
            lemma_slugs_len(paths.take(i as int));
        }
        let from: usize = match counts.get(base.as_str()) {
            Some(k) => *k,
            None => 0,
        };
        let ghost so_far = file_texts(out@);
        let (mut name, count) = take_name(&mut used, base.as_str(), from, Ghost(taken));
        proof {
            assert(slugs(next) == taken.push(name@));
            lemma_slugs_len(paths);
            lemma_slugs_take(paths, i + 1);
            assert(slugs(paths)[i as int] == slugs(next)[i as int]);
        }
        name.append(".md");
        let file = BundleFile { name, text: render_file_md(c) };
        out.push(file);
        assert(file_texts(out@) =~= so_far.push((file.name@, file.text@)));
        let ghost counts0 = counts@;
        counts.insert(base, count + 1);
        proof {
            broadcast use vstd::seq_lib::lemma_seq_contains_after_push;

            assert forall|b: Seq<char>, k: nat|
                counts@.contains_key(b) && k < counts@[b] implies slugs(next).contains(
                #[trigger] slug(b, k),
            ) by {
                if b == base@ && k == count {
                    assert(slugs(next).contains(slug(b, k)));
                } else {
                    assert(taken.contains(slug(b, k)));
                }
            }
        }
        i += 1;
    }
    proof {
        assert(code_files(all).take(i as int) =~= code_files(all));
        assert forall|i: int, j: int| 0 <= i < j < out@.len() implies out@[i].name@
            != out@[j].name@ by {
            law_slugs_differ(paths, i, j);
            assert(file_texts(out@)[i].0 == out@[i].name@);
            assert(file_texts(out@)[j].0 == out@[j].name@);
            let a = slugs(paths)[i];
            let b = slugs(paths)[j];
            if a + ".md"@ == b + ".md"@ {
                assert(a.len() == b.len());
                assert(a =~= (a + ".md"@).take(a.len() as int));
                assert(b =~= (b + ".md"@).take(b.len() as int));
            }
        }
    }
    out
}

/// Writes the citations.
pub fn write_citations(selected: &Vec<Candidate>) -> (r: Vec<Citation>)
    ensures
        citation_views(r@) == candidates(selected@).map_values(|c: CandidateView| citation(c)),
{
    let ghost all = candidates(selected@);
    let ghost wanted = all.map_values(|c: CandidateView| citation(c));
    let mut out: Vec<Citation> = Vec::new();
    let mut i: usize = 0;
    while i < selected.len()
        invariant
            i <= selected@.len(),
            all == candidates(selected@),
            wanted == all.map_values(|c: CandidateView| citation(c)),
            citation_views(out@) =~= wanted.take(i as int),
        decreases selected@.len() - i,
    {
        let c = &selected[i];
        assert(all[i as int] == c@);
        let ghost so_far = citation_views(out@);
        let mut reason = "bm25_score=".to_owned();
        reason.append(c.score_text.as_str());
        let cite = Citation { path: c.path.clone(), score: c.score, tokens: c.tokens(), reason };
        out.push(cite);
        assert(citation_views(out@) =~= so_far.push(cite@));
        assert(cite@ == citation(c@));
        i += 1;
    }
    assert(wanted.take(i as int) =~= wanted);
    out
}

/// Writes the texts of a bundle.
pub fn write_bundle(
    task: &str,
    budget: usize,
    selected: &Vec<Candidate>,
    diff_summary: &str,
    explain: bool,
) -> (r: Bundle)
    ensures
        r.task_md@ == task_md(
            task@,
            budget as nat,
            candidates(selected@),
            diff_summary@,
            explain,
        ),
        file_texts(r.code@) == code_files(candidates(selected@)),
        forall|i: int, j: int|
            0 <= i < j < r.code@.len() ==> r.code@[i].name@ != r.code@[j].name@,
        citation_views(r.citations@) == candidates(selected@).map_values(
            |c: CandidateView| citation(c),
        ),
{
    Bundle {
        task_md: render_task_md(task, budget, selected, diff_summary, explain),
        code: write_code_files(selected),
        citations: write_citations(selected),
    }
}

// ---------------------------------------------------------------------------
// Laws

/// Whether the characters from `i` up to `j` are backticks.
pub open spec fn all_backticks(s: Seq<char>, i: int, j: int) -> bool {
    forall|k: int| i <= k < j ==> #[trigger] s[k] == '`'
}

proof fn lemma_run_at_end(s: Seq<char>, i: int)
    requires
        0 <= i <= s.len(),
        all_backticks(s, i, s.len() as int),
    ensures
        run_at_end(s) >= s.len() - i,
    decreases s.len(),
{
    if i < s.len() {
        assert(s[s.len() - 1] == '`');
        assert(all_backticks(s.drop_last(), i, s.len() - 1)) by {
            assert forall|k: int| i <= k < s.len() - 1 implies #[trigger] s.drop_last()[k] == '`' by {
                assert(s[k] == '`');
            }
        }
        lemma_run_at_end(s.drop_last(), i);
    }
}

proof fn lemma_longest_run(s: Seq<char>, i: int, j: int)
    requires
        0 <= i <= j <= s.len(),
        all_backticks(s, i, j),
    ensures
        longest_run(s) >= j - i,
    decreases s.len(),
{
    if j < s.len() {
        let t = s.drop_last();
        assert(all_backticks(t, i, j)) by {
            assert forall|k: int| i <= k < j implies #[trigger] t[k] == '`' by {
                assert(s[k] == '`');
            }
        }
        lemma_longest_run(t, i, j);
    } else if s.len() > 0 {
        lemma_run_at_end(s, i);
    }
}

/// No part of the content is as long a run of backticks as the fence, so the
/// content cannot close the code block that it stands in.
pub proof fn law_content_cannot_close_fence(content: Seq<char>, i: int, j: int)
    requires
        0 <= i <= j <= content.len(),
        all_backticks(content, i, j),
    ensures
        j - i < fence(content).len(),
        fence(content).len() >= 3,
{
    lemma_longest_run(content, i, j);
}

proof fn lemma_run_is_there(s: Seq<char>)
    ensures
        run_at_end(s) <= s.len(),
        all_backticks(s, s.len() - run_at_end(s), s.len() as int),
    decreases s.len(),
{
    if s.len() > 0 && s.last() == '`' {
        let t = s.drop_last();
        lemma_run_is_there(t);
        assert forall|k: int| s.len() - run_at_end(s) <= k < s.len() implies #[trigger] s[k] == '`' by {
            if k < t.len() {
                assert(t[k] == '`');
            }
        }
    }
}

proof fn lemma_longest_is_there(s: Seq<char>) -> (i: int)
    ensures
        0 <= i <= i + longest_run(s) <= s.len(),
        all_backticks(s, i, i + longest_run(s)),
    decreases s.len(),
{
    if s.len() == 0 {
        0
    } else if longest_run(s.drop_last()) < run_at_end(s) {
        lemma_run_is_there(s);
        s.len() - run_at_end(s)
    } else {
        let t = s.drop_last();
        let i = lemma_longest_is_there(t);
        assert forall|k: int| i <= k < i + longest_run(s) implies #[trigger] s[k] == '`' by {
            assert(t[k] == '`');
        }
        i
    }
}

/// The fence is no longer than it must be: it has three backticks, or the content
/// holds a run with one backtick less.
pub proof fn law_fence_is_shortest(content: Seq<char>)
    ensures
        fence(content).len() == 3 || exists|i: int|
            0 <= i <= i + fence(content).len() - 1 <= content.len() && #[trigger] all_backticks(
                content,
                i,
                i + fence(content).len() - 1,
            ),
{
    let i = lemma_longest_is_there(content);
    if fence(content).len() > 3 {
        assert(fence(content).len() - 1 == longest_run(content));
        assert(all_backticks(content, i, i + fence(content).len() - 1));
    }
}

proof fn lemma_decimal(n: nat)
    ensures
        decimal(n).len() > 0,
        forall|i: int| 0 <= i < decimal(n).len() ==> '0' <= #[trigger] decimal(n)[i] <= '9',
    decreases n,
{
    if n >= 10 {
        lemma_decimal(n / 10);
        let head = decimal(n / 10);
        assert forall|i: int| 0 <= i < decimal(n).len() implies '0' <= #[trigger] decimal(n)[i]
            <= '9' by {
            if i < head.len() {
                assert(decimal(n)[i] == head[i]);
            }
        }
    }
}

proof fn lemma_decimal_injective(a: nat, b: nat)
    requires
        decimal(a) == decimal(b),
    ensures
        a == b,
    decreases a,
{
    lemma_decimal(a / 10);
    lemma_decimal(b / 10);
    assert(decimal(a).last() == digit((a % 10) as int));
    assert(decimal(b).last() == digit((b % 10) as int));
    assert(digit((a % 10) as int) as u32 == a % 10 + 48);
    assert(digit((b % 10) as int) as u32 == b % 10 + 48);
    if a < 10 {
        assert(decimal(a).len() == 1);
        if b >= 10 {
            assert(decimal(b).len() == decimal(b / 10).len() + 1);
        }
    } else if b < 10 {
        assert(decimal(a).len() == decimal(a / 10).len() + 1);
    } else {
        assert(decimal(a).drop_last() =~= decimal(a / 10));
        assert(decimal(b).drop_last() =~= decimal(b / 10));
        lemma_decimal_injective(a / 10, b / 10);
    }
}

proof fn lemma_last_underscore(base: Seq<char>, digits: Seq<char>)
    requires
        forall|i: int| 0 <= i < digits.len() ==> #[trigger] digits[i] != '_',
    ensures
        last_index(base + "_"@ + digits, '_') == base.len(),
    decreases digits.len(),
{
    reveal_strlit("_");
    let s = base + "_"@ + digits;
    if digits.len() == 0 {
        assert(s.last() == '_');
    } else {
        assert(s.last() == digits[digits.len() - 1]);
        let init = digits.drop_last();
        assert forall|i: int| 0 <= i < init.len() implies #[trigger] init[i] != '_' by {
            assert(init[i] == digits[i]);
        }
        lemma_last_underscore(base, init);
        assert(s.drop_last() =~= base + "_"@ + init);
    }
}

proof fn lemma_numbered_injective(a: Seq<char>, m: nat, b: Seq<char>, n: nat)
    requires
        a + "_"@ + decimal(m) == b + "_"@ + decimal(n),
    ensures
        a == b,
        m == n,
{
    lemma_decimal(m);
    lemma_decimal(n);
    assert forall|i: int| 0 <= i < decimal(m).len() implies #[trigger] decimal(m)[i] != '_' by {
        assert('0' <= decimal(m)[i] <= '9');
    }
    assert forall|i: int| 0 <= i < decimal(n).len() implies #[trigger] decimal(n)[i] != '_' by {
        assert('0' <= decimal(n)[i] <= '9');
    }
    lemma_last_underscore(a, decimal(m));
    lemma_last_underscore(b, decimal(n));
    reveal_strlit("_");
    let s = a + "_"@ + decimal(m);
    let t = b + "_"@ + decimal(n);
    assert(a =~= s.take(a.len() as int));
    assert(b =~= t.take(b.len() as int));
    assert(decimal(m) =~= s.skip(a.len() as int + 1));
    assert(decimal(n) =~= t.skip(b.len() as int + 1));
    lemma_decimal_injective(m, n);
}

/// The same name given twice differs the second time.
pub proof fn law_slug_numbers_differ(base: Seq<char>, m: nat, n: nat)
    requires
        m != n,
    ensures
        slug(base, m) != slug(base, n),
{
    reveal_strlit("_");
    if m > 0 && n > 0 {
        if slug(base, m) == slug(base, n) {
            lemma_numbered_injective(base, (m - 1) as nat, base, (n - 1) as nat);
        }
    } else if m == 0 {
        assert(slug(base, n).len() > base.len());
    } else {
        assert(slug(base, m).len() > base.len());
    }
}

/// Numbers up to `n` with which a name is taken take as many names.
proof fn lemma_all_taken(taken: Seq<Seq<char>>, base: Seq<char>, n: nat)
    requires
        forall|k: nat| k < n ==> taken.contains(#[trigger] slug(base, k)),
    ensures
        n <= taken.len(),
{
    let names = Seq::new(n, |k: int| slug(base, k as nat));
    assert forall|i: int, j: int| 0 <= i < j < n implies names[i] != names[j] by {
        law_slug_numbers_differ(base, i as nat, j as nat);
    }
    assert(names.no_duplicates());
    names.unique_seq_to_set();
    assert forall|s: Seq<char>| names.to_set().contains(s) implies taken.to_set().contains(s) by {
        let k = choose|k: int| 0 <= k < names.len() && names[k] == s;
        assert(taken.contains(slug(base, k as nat)));
    }
    taken.lemma_cardinality_of_set();
    vstd::set_lib::lemma_len_subset(names.to_set(), taken.to_set());
}

proof fn lemma_free_count(taken: Seq<Seq<char>>, base: Seq<char>, from: nat, n: nat)
    requires
        from <= n,
        forall|k: nat| k < n ==> taken.contains(#[trigger] slug(base, k)),
        !taken.contains(slug(base, n)),
    ensures
        free_count(taken, base, from) == n,
    decreases n - from,
{
    lemma_all_taken(taken, base, n);
    if from < n {
        assert(taken.contains(slug(base, from)));
        lemma_free_count(taken, base, from + 1, n);
    }
}

proof fn lemma_slugs_len(paths: Seq<Seq<char>>)
    ensures
        slugs(paths).len() == paths.len(),
    decreases paths.len(),
{
    if paths.len() > 0 {
        lemma_slugs_len(paths.drop_last());
    }
}

proof fn lemma_slugs_take(paths: Seq<Seq<char>>, n: int)
    requires
        0 <= n <= paths.len(),
    ensures
        slugs(paths.take(n)) == slugs(paths).take(n),
    decreases paths.len(),
{
    lemma_slugs_len(paths);
    if n < paths.len() {
        let init = paths.drop_last();
        lemma_slugs_len(init);
        lemma_slugs_take(init, n);
        assert(init.take(n) =~= paths.take(n));
        assert(slugs(init).take(n) =~= slugs(paths).take(n));
    } else {
        assert(paths.take(n) =~= paths);
        assert(slugs(paths).take(n) =~= slugs(paths));
    }
}

/// A file gets the name of its path with the first number with which no earlier
/// file has it.
pub proof fn law_slug_is_first_free(paths: Seq<Seq<char>>, i: int)
    requires
        0 <= i < paths.len(),
    ensures
        exists|n: nat|
            slugs(paths)[i] == #[trigger] slug(base_slug(paths[i]), n) && !slugs(paths).take(
                i,
            ).contains(slug(base_slug(paths[i]), n)) && forall|k: nat|
                k < n ==> slugs(paths).take(i).contains(#[trigger] slug(base_slug(paths[i]), k)),
{
    let before = paths.take(i);
    let upto = paths.take(i + 1);
    lemma_slugs_take(paths, i);
    lemma_slugs_take(paths, i + 1);
    lemma_slugs_len(paths);
    lemma_slugs_len(before);
    assert(upto.drop_last() =~= before);
    let taken = slugs(before);
    let base = base_slug(paths[i]);
    let n = free_count(taken, base, 0);
    lemma_free_is_free(taken, base, 0);
    assert(slugs(paths)[i] == slugs(upto)[i]);
    assert(slugs(paths)[i] == slug(base, n));
}

proof fn lemma_free_is_free(taken: Seq<Seq<char>>, base: Seq<char>, from: nat)
    requires
        forall|k: nat| k < from ==> taken.contains(#[trigger] slug(base, k)),
    ensures
        !taken.contains(slug(base, free_count(taken, base, from))),
        forall|k: nat|
            k < free_count(taken, base, from) ==> taken.contains(#[trigger] slug(base, k)),
    decreases taken.len() - from,
{
    lemma_all_taken(taken, base, from);
    if taken.contains(slug(base, from)) {
        let next: nat = from + 1;
        assert forall|k: nat| k < next implies taken.contains(#[trigger] slug(base, k)) by {}
        lemma_all_taken(taken, base, next);
        lemma_free_is_free(taken, base, next);
    }
}

/// The names of two files differ.
pub proof fn law_slugs_differ(paths: Seq<Seq<char>>, i: int, j: int)
    requires
        0 <= i < j < paths.len(),
    ensures
        slugs(paths)[i] != slugs(paths)[j],
{
    lemma_slugs_len(paths);
    law_slug_is_first_free(paths, j);
    assert(slugs(paths).take(j)[i] == slugs(paths)[i]);
}

/// Files at one path get different names, one without a number and the others
/// with the numbers from zero on.
pub proof fn law_same_path_numbered(path: Seq<char>, n: nat, i: int)
    requires
        0 <= i < n,
    ensures
        slugs(Seq::new(n, |k: int| path))[i] == slug(base_slug(path), i as nat),
    decreases n,
{
    let paths = Seq::new(n, |k: int| path);
    let base = base_slug(path);
    let init = Seq::new((n - 1) as nat, |k: int| path);
    assert(paths.drop_last() =~= init);
    let taken = slugs(init);
    lemma_slugs_len(init);
    if i < n - 1 {
        law_same_path_numbered(path, (n - 1) as nat, i);
    } else {
        assert forall|k: int| 0 <= k < n - 1 implies #[trigger] taken[k] == slug(base, k as nat) by {
            law_same_path_numbered(path, (n - 1) as nat, k);
        }
        assert forall|k: nat| k < n - 1 implies taken.contains(#[trigger] slug(base, k)) by {
            assert(taken[k as int] == slug(base, k));
        }
        let last: nat = (n - 1) as nat;
        if taken.contains(slug(base, last)) {
            let k = choose|k: int| 0 <= k < taken.len() && taken[k] == slug(base, last);
            law_slug_numbers_differ(base, k as nat, last);
        }
        lemma_free_count(taken, base, 0, last);
    }
}

/// The summary names the task, the budget and the tokens that the selected files have in
/// all, then the files. A diff stands behind them in a code block; where there is none
/// nothing does.
pub proof fn law_summary(
    task: Seq<char>,
    budget: nat,
    cs: Seq<CandidateView>,
    diff: Seq<char>,
    explain: bool,
)
    ensures
        ({
            let text = task_md(task, budget, cs, diff, explain);
            let files = "# Context Bundle\n\n**Task:** "@ + task + "\n\n**Budget:** "@ + decimal(
                budget,
            ) + " tokens  \n**Used:** "@ + decimal(total_tokens(cs) as nat)
                + " tokens\n\n## Selected Files\n\n"@ + file_lines(cs, explain);
            &&& diff.len() == 0 ==> text == files
            &&& diff.len() > 0 ==> text == files + ("\n## Recent Diff\n\n```diff\n"@ + diff
                + "\n```\n"@)
        }),
{
    let files = summary_head(task, budget, total_tokens(cs) as nat) + file_lines(cs, explain);
    assert(files + Seq::<char>::empty() =~= files);
}

/// A further file adds one line to the list of the summary, with its number, counted from
/// one, its path, its tokens and, where scores are to be shown, its score.
pub proof fn law_line_of_file(cs: Seq<CandidateView>, c: CandidateView)
    ensures
        file_lines(Seq::empty(), true).len() == 0,
        file_lines(Seq::empty(), false).len() == 0,
        file_lines(cs.push(c), false) == file_lines(cs, false) + (decimal(cs.len() + 1) + ". `"@
            + c.path + "` — "@ + decimal(tokens(c.content) as nat) + " tokens\n"@),
        file_lines(cs.push(c), true) == file_lines(cs, true) + (decimal(cs.len() + 1) + ". `"@
            + c.path + "` (score="@ + c.score_text + ") — "@ + decimal(tokens(c.content) as nat)
            + " tokens\n"@),
{
    reveal_strlit("");
    reveal_strlit("`");
    reveal_strlit(" — ");
    reveal_strlit("` — ");
    reveal_strlit(" (score=");
    reveal_strlit("` (score=");
    reveal_strlit(")");
    reveal_strlit(") — ");
    let all = cs.push(c);
    assert(all.drop_last() =~= cs);
    let n: nat = cs.len() + 1;
    let t = decimal(tokens(c.content) as nat);
    assert(file_line(n, c, false) =~= decimal(n) + ". `"@ + c.path + "` — "@ + t + " tokens\n"@);
    assert(file_line(n, c, true) =~= decimal(n) + ". `"@ + c.path + "` (score="@ + c.score_text
        + ") — "@ + t + " tokens\n"@);
}

/// The name of a file keeps the letters and numbers of the path, and has `_` at every
/// other place.
pub proof fn law_name_of_path(path: Seq<char>, i: int)
    requires
        0 <= i < path.len(),
    ensures
        base_slug(path).len() == path.len(),
        alphanumeric(path[i]) ==> base_slug(path)[i] == path[i],
        !alphanumeric(path[i]) ==> base_slug(path)[i] == '_',
{
}

/// A file has the name that its path gives, unless an earlier file has it. It then has a
/// number behind `_`, the smallest with which no earlier file has it.
pub proof fn law_numbers_of_names(paths: Seq<Seq<char>>, i: int)
    requires
        0 <= i < paths.len(),
    ensures
        ({
            let names = slugs(paths);
            let base = base_slug(paths[i]);
            if names.take(i).contains(base) {
                exists|n: nat|
                    names[i] == base + "_"@ + #[trigger] decimal(n) && forall|k: nat|
                        k < n ==> names.take(i).contains(base + "_"@ + #[trigger] decimal(k))
            } else {
                names[i] == base
            }
        }),
        slugs(paths).len() == paths.len(),
{
    lemma_slugs_len(paths);
    law_slug_is_first_free(paths, i);
    let names = slugs(paths);
    let base = base_slug(paths[i]);
    let n = choose|n: nat|
        names[i] == #[trigger] slug(base, n) && !names.take(i).contains(slug(base, n)) && forall|
            k: nat,
        |
            k < n ==> names.take(i).contains(#[trigger] slug(base, k));
    assert(slug(base, 0) == base);
    if names.take(i).contains(base) {
        let m = (n - 1) as nat;
        assert(names[i] == base + "_"@ + decimal(m));
        assert forall|k: nat| k < m implies names.take(i).contains(
            base + "_"@ + #[trigger] decimal(k),
        ) by {
            assert(names.take(i).contains(slug(base, k + 1)));
        }
    } else if n > 0 {
        assert(names.take(i).contains(slug(base, 0)));
    }
}

/// Each selected file is written to one file of the bundle. It names the path in a comment
/// and holds the content as it is, in a code block of the language that the extension
/// stands for.
pub proof fn law_code_file(cs: Seq<CandidateView>, i: int, fence: Seq<char>)
    requires
        0 <= i < cs.len(),
        forall|k: int| 0 <= k < fence.len() ==> #[trigger] fence[k] == '`',
        fence.len() == self::fence(cs[i].content).len(),
    ensures
        code_files(cs).len() == cs.len(),
        code_files(cs)[i].0 == slugs(cs.map_values(|c: CandidateView| c.path))[i] + ".md"@,
        code_files(cs)[i].1 == "<!-- "@ + cs[i].path + " -->\n"@ + fence + match extension(
            cs[i].path,
        ) {
            Some(ext) => ext,
            None => "txt"@,
        } + "\n"@ + cs[i].content + "\n"@ + fence + "\n"@,
{
    assert(fence =~= self::fence(cs[i].content));
    assert(cs.map_values(|c: CandidateView| c.path) =~= paths_of(cs));
}

/// The citation of a file names its path, its score and its tokens, and the score that it
/// was found with as the reason.
pub proof fn law_citation(c: CandidateView)
    ensures
        citation(c).path == c.path,
        citation(c).score == c.score,
        citation(c).tokens == tokens(c.content),
        citation(c).reason == "bm25_score="@ + c.score_text,
{
}

} // verus!
