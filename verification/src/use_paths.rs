//! Expands grouped Rust `use` paths: `crate::{a, b::{c, d}}` stands for
//! `crate::a`, `crate::b::c` and `crate::b::d`.
use vstd::prelude::*;

use crate::path::last_index;
use crate::text::{
    before, before_first, chars_of, find, is_white, law_before, law_strip, law_trim, lemma_find,
    lemma_find_is, slice, strip_suffixes, texts, trim, trim_end, trim_start, trimmed, white,
    without_suffixes,
};

verus! {

/// The number of opening braces.
pub open spec fn braces(s: Seq<char>) -> nat
    decreases s.len(),
{
    if s.len() == 0 {
        0
    } else {
        braces(s.drop_last()) + if s.last() == '{' {
            1nat
        } else {
            0nat
        }
    }
}

/// How deep the first `i` characters lead into braces.
pub open spec fn depth(s: Seq<char>, i: int) -> nat
    decreases i,
{
    if i <= 0 {
        0
    } else {
        let d = depth(s, i - 1);
        if s[i - 1] == '{' {
            d + 1
        } else if s[i - 1] == '}' && d > 0 {
            (d - 1) as nat
        } else {
            d
        }
    }
}

/// Where the first comma outside all braces stands, at or after `from`; the
/// length of `s` if there is none.
pub open spec fn next_comma(s: Seq<char>, from: int) -> int
    decreases s.len() - from,
{
    if from >= s.len() {
        s.len() as int
    } else if s[from] == ',' && depth(s, from) == 0 {
        from
    } else {
        next_comma(s, from + 1)
    }
}

/// The pieces of `s` from `from` on, between the commas outside all braces.
pub open spec fn comma_pieces(s: Seq<char>, from: int) -> Seq<Seq<char>>
    decreases s.len() - from,
{
    let i = next_comma(s, from);
    if 0 <= from <= i < s.len() {
        seq![s.subrange(from, i)] + comma_pieces(s, i + 1)
    } else {
        seq![s.skip(from)]
    }
}

/// The opening brace.
pub open spec fn opening() -> spec_fn(char) -> bool {
    |c: char| c == '{'
}

/// What stands before the first opening brace.
pub open spec fn prefix(s: Seq<char>) -> Seq<char> {
    s.take(find(s, opening()))
}

/// Where the last closing brace stands; the end of `s` if there is none.
pub open spec fn group_end(s: Seq<char>) -> int {
    let i = last_index(s, '}');
    if i < 0 {
        s.len() as int
    } else {
        i
    }
}

/// What stands between the first opening and the last closing brace.
pub open spec fn group(s: Seq<char>) -> Seq<char> {
    let b = find(s, opening());
    if b < group_end(s) {
        s.subrange(b + 1, group_end(s))
    } else {
        Seq::empty()
    }
}

/// The paths that the group stands for, one level of braces expanded.
pub open spec fn members(s: Seq<char>) -> Seq<Seq<char>> {
    let parts = comma_pieces(group(s), 0);
    Seq::new(parts.len(), |i: int| prefix(s) + trim(parts[i]))
}

/// A path without braces, without its alias and without the glob at its end.
pub open spec fn plain_path(s: Seq<char>) -> Seq<char> {
    strip_suffixes(trim(before(s, " as "@)), "::*"@)
}

/// The paths that `s` stands for: itself if it has no braces, else those that its
/// members from the `i`th on stand for.
pub open spec fn expanded_from(s: Seq<char>, i: int) -> Seq<Seq<char>>
    decreases braces(s), members(s).len() - i,
{
    if find(s, opening()) >= s.len() {
        seq![plain_path(s)]
    } else if 0 <= i < members(s).len() {
        proof {
            lemma_members_shallower(s);
        }
        expanded_from(members(s)[i], 0) + expanded_from(s, i + 1)
    } else {
        Seq::empty()
    }
}

/// The paths that a grouped path stands for.
pub open spec fn expanded(s: Seq<char>) -> Seq<Seq<char>> {
    expanded_from(s, 0)
}

/// Whether the braces can be expanded: wherever one is open, the last closing
/// brace stands behind it.
pub open spec fn expandable(s: Seq<char>) -> bool
    decreases braces(s),
{
    if find(s, opening()) >= s.len() {
        true
    } else {
        proof {
            lemma_members_shallower(s);
        }
        &&& find(s, opening()) < group_end(s)
        &&& forall|i: int| 0 <= i < members(s).len() ==> expandable(#[trigger] members(s)[i])
    }
}

proof fn lemma_braces_concat(a: Seq<char>, b: Seq<char>)
    ensures
        braces(a + b) == braces(a) + braces(b),
    decreases b.len(),
{
    if b.len() == 0 {
        assert(a + b =~= a);
    } else {
        lemma_braces_concat(a, b.drop_last());
        assert((a + b).drop_last() =~= a + b.drop_last());
    }
}

proof fn lemma_braces_subrange(s: Seq<char>, i: int, j: int)
    requires
        0 <= i <= j <= s.len(),
    ensures
        braces(s.subrange(i, j)) <= braces(s),
{
    lemma_braces_concat(s.subrange(0, i), s.subrange(i, j));
    lemma_braces_concat(s.subrange(0, j), s.subrange(j, s.len() as int));
    assert(s.subrange(0, i) + s.subrange(i, j) =~= s.subrange(0, j));
    assert(s.subrange(0, j) + s.subrange(j, s.len() as int) =~= s);
}

proof fn lemma_braces_trim(s: Seq<char>)
    ensures
        braces(trim(s)) <= braces(s),
{
    lemma_braces_trim_start(s);
    lemma_braces_trim_end(trim_start(s, white()));
}

proof fn lemma_braces_trim_start(s: Seq<char>)
    ensures
        braces(trim_start(s, white())) <= braces(s),
    decreases s.len(),
{
    if s.len() > 0 && white()(s[0]) {
        lemma_braces_trim_start(s.drop_first());
        lemma_braces_subrange(s, 1, s.len() as int);
        assert(s.drop_first() =~= s.subrange(1, s.len() as int));
    }
}

proof fn lemma_braces_trim_end(s: Seq<char>)
    ensures
        braces(trim_end(s, white())) <= braces(s),
    decreases s.len(),
{
    if s.len() > 0 && white()(s.last()) {
        lemma_braces_trim_end(s.drop_last());
    }
}

proof fn lemma_next_comma(s: Seq<char>, from: int)
    requires
        0 <= from <= s.len(),
    ensures
        from <= next_comma(s, from) <= s.len(),
    decreases s.len() - from,
{
    if from < s.len() && !(s[from] == ',' && depth(s, from) == 0) {
        lemma_next_comma(s, from + 1);
    }
}

proof fn lemma_pieces_braces(s: Seq<char>, from: int, k: int)
    requires
        0 <= from <= s.len(),
        0 <= k < comma_pieces(s, from).len(),
    ensures
        braces(comma_pieces(s, from)[k]) <= braces(s),
    decreases s.len() - from,
{
    let i = next_comma(s, from);
    lemma_next_comma(s, from);
    if i < s.len() {
        if k == 0 {
            lemma_braces_subrange(s, from, i);
        } else {
            lemma_pieces_braces(s, i + 1, k - 1);
            assert(comma_pieces(s, from)[k] == comma_pieces(s, i + 1)[k - 1]);
        }
    } else {
        lemma_braces_subrange(s, from, s.len() as int);
        assert(s.skip(from) =~= s.subrange(from, s.len() as int));
    }
}

proof fn lemma_no_braces(s: Seq<char>)
    requires
        forall|i: int| 0 <= i < s.len() ==> s[i] != '{',
    ensures
        braces(s) == 0,
    decreases s.len(),
{
    if s.len() > 0 {
        lemma_no_braces(s.drop_last());
    }
}

proof fn lemma_last_index(s: Seq<char>, c: char)
    ensures
        -1 <= last_index(s, c) < s.len(),
        last_index(s, c) >= 0 ==> s[last_index(s, c)] == c,
    decreases s.len(),
{
    if s.len() > 0 && s.last() != c {
        lemma_last_index(s.drop_last(), c);
    }
}

/// Each member of a group holds fewer opening braces than the whole.
pub proof fn lemma_members_shallower(s: Seq<char>)
    requires
        find(s, opening()) < s.len(),
    ensures
        forall|i: int| 0 <= i < members(s).len() ==> braces(#[trigger] members(s)[i]) < braces(s),
{
    let b = find(s, opening());
    lemma_find(s, opening());
    lemma_last_index(s, '}');
    let g = group(s);
    let parts = comma_pieces(g, 0);
    // The opening brace itself is in none of the members.
    lemma_braces_concat(s.take(b + 1), s.skip(b + 1));
    assert(s.take(b + 1) + s.skip(b + 1) =~= s);
    assert(s.take(b + 1).drop_last() =~= s.take(b));
    assert forall|i: int| 0 <= i < s.take(b).len() implies s.take(b)[i] != '{' by {
        assert(!opening()(s[i]));
    }
    lemma_no_braces(s.take(b));
    assert(braces(s) == 1 + braces(s.skip(b + 1)));
    if b < group_end(s) {
        lemma_braces_subrange(s.skip(b + 1), 0, group_end(s) - b - 1);
        assert(s.skip(b + 1).subrange(0, group_end(s) - b - 1) =~= g);
    }
    assert forall|i: int| 0 <= i < members(s).len() implies braces(#[trigger] members(s)[i])
        < braces(s) by {
        lemma_pieces_braces(g, 0, i);
        lemma_braces_trim(parts[i]);
        lemma_braces_concat(prefix(s), trim(parts[i]));
    }
}

// ---------------------------------------------------------------------------
// Expanding

proof fn lemma_depth_bounded(s: Seq<char>, i: int)
    requires
        0 <= i,
    ensures
        depth(s, i) <= i,
    decreases i,
{
    if i > 0 {
        lemma_depth_bounded(s, i - 1);
    }
}

/// Splits at the commas that stand outside all braces.
pub fn split_brace_aware(s: &str) -> (r: Vec<String>)
    ensures
        texts(r@) == comma_pieces(s@, 0),
{
    let cs = chars_of(s);
    let mut out: Vec<String> = Vec::new();
    let mut start: usize = 0;
    let mut level: usize = 0;
    let mut i: usize = 0;
    assert(texts(out@) + comma_pieces(cs@, 0) =~= comma_pieces(cs@, 0));
    while i < cs.len()
        invariant
            start <= i <= cs@.len(),
            level == depth(cs@, i as int),
            next_comma(cs@, start as int) == next_comma(cs@, i as int),
            comma_pieces(cs@, 0) == texts(out@) + comma_pieces(cs@, start as int),
        decreases cs@.len() - i,
    {
        let c = cs[i];
        proof {
            lemma_depth_bounded(cs@, i as int);
        }
        if c == '{' {
            level += 1;
        } else if c == '}' {
            if level > 0 {
                level -= 1;
            }
        } else if c == ',' && level == 0 {
            let piece = slice(&cs, start, i);
            let ghost so_far = texts(out@);
            out.push(piece);
            proof {
                assert(texts(out@) =~= so_far.push(piece@));
                let tail = comma_pieces(cs@, i + 1);
                assert(so_far + (seq![piece@] + tail) =~= so_far.push(piece@) + tail);
            }
            start = i + 1;
        }
        i += 1;
    }
    let piece = slice(&cs, start, cs.len());
    let ghost so_far = texts(out@);
    out.push(piece);
    proof {
        assert(texts(out@) =~= so_far.push(piece@));
        assert(piece@ =~= cs@.skip(start as int));
        assert(so_far + seq![piece@] =~= so_far.push(piece@));
    }
    out
}

fn opening_brace(cs: &Vec<char>) -> (r: usize)
    ensures
        r == find(cs@, opening()),
        r <= cs@.len(),
{
    let mut i: usize = 0;
    while i < cs.len() && cs[i] != '{'
        invariant
            i <= cs@.len(),
            forall|j: int| 0 <= j < i ==> cs@[j] != '{',
        decreases cs@.len() - i,
    {
        i += 1;
    }
    proof {
        assert forall|j: int| 0 <= j < i implies !opening()(#[trigger] cs@[j]) by {}
        lemma_find_is(cs@, opening(), i as int);
    }
    i
}

fn closing_brace(cs: &Vec<char>) -> (r: usize)
    ensures
        r == group_end(cs@),
        r <= cs@.len(),
{
    let mut i: usize = cs.len();
    assert(cs@.take(i as int) =~= cs@);
    while i > 0 && cs[i - 1] != '}'
        invariant
            i <= cs@.len(),
            last_index(cs@, '}') == last_index(cs@.take(i as int), '}'),
        decreases i,
    {
        assert(cs@.take(i as int).last() == cs@[i - 1]);
        assert(cs@.take(i as int).drop_last() =~= cs@.take(i - 1));
        i -= 1;
    }
    if i == 0 {
        cs.len()
    } else {
        assert(cs@.take(i as int).last() == cs@[i - 1]);
        i - 1
    }
}

/// The members of a group; nothing where its braces cannot be expanded.
fn group_members(cs: &Vec<char>, open: usize) -> (r: Option<Vec<String>>)
    requires
        open == find(cs@, opening()),
        open < cs@.len(),
    ensures
        r is Some <==> open < group_end(cs@),
        r matches Some(ms) ==> texts(ms@) == members(cs@),
{
    let end = closing_brace(cs);
    if end <= open {
        return None;
    }
    let head = slice(cs, 0, open);
    assert(head@ =~= prefix(cs@));
    let inner = slice(cs, open + 1, end);
    let parts = split_brace_aware(inner.as_str());
    let mut out: Vec<String> = Vec::new();
    let mut i: usize = 0;
    while i < parts.len()
        invariant
            i <= parts@.len(),
            head@ == prefix(cs@),
            texts(parts@) == comma_pieces(group(cs@), 0),
            texts(out@) =~= members(cs@).take(i as int),
        decreases parts@.len() - i,
    {
        assert(texts(parts@)[i as int] == parts@[i as int]@);
        let ghost so_far = texts(out@);
        let part = trimmed(parts[i].as_str());
        let mut member = head.clone();
        member.append(part.as_str());
        out.push(member);
        assert(texts(out@) =~= so_far.push(member@));
        i += 1;
    }
    assert(members(cs@).take(i as int) =~= members(cs@));
    Some(out)
}

/// Whether the braces of a path can be expanded.
pub fn can_expand(s: &str) -> (r: bool)
    ensures
        r == expandable(s@),
    decreases braces(s@),
{
    let cs = chars_of(s);
    let open = opening_brace(&cs);
    if open >= cs.len() {
        return true;
    }
    proof {
        lemma_members_shallower(s@);
    }
    match group_members(&cs, open) {
        None => false,
        Some(ms) => {
            let mut i: usize = 0;
            while i < ms.len()
                invariant
                    i <= ms@.len(),
                    cs@ == s@,
                    texts(ms@) == members(cs@),
                    forall|k: int|
                        0 <= k < members(s@).len() ==> braces(#[trigger] members(s@)[k]) < braces(
                            s@,
                        ),
                    forall|k: int| 0 <= k < i ==> expandable(#[trigger] members(s@)[k]),
                    find(s@, opening()) < s@.len(),
                decreases ms@.len() - i,
            {
                assert(members(s@)[i as int] == ms@[i as int]@);
                if !can_expand(ms[i].as_str()) {
                    return false;
                }
                i += 1;
            }
            true
        },
    }
}

/// Expands a grouped path. An alias and a glob at the end are dropped.
pub fn expand_rust_use(s: &str) -> (r: Vec<String>)
    requires
        expandable(s@),
    ensures
        texts(r@) == expanded(s@),
    decreases braces(s@),
{
    let cs = chars_of(s);
    let open = opening_brace(&cs);
    let mut out: Vec<String> = Vec::new();
    if open >= cs.len() {
        let path = before_first(s, " as ");
        let path = trimmed(path.as_str());
        let path = without_suffixes(path.as_str(), "::*");
        out.push(path);
        assert(texts(out@) =~= seq![path@]);
        return out;
    }
    proof {
        lemma_members_shallower(s@);
    }
    match group_members(&cs, open) {
        None => out,
        Some(ms) => {
            let mut i: usize = 0;
            assert(texts(out@) + expanded(s@) =~= expanded(s@));
            while i < ms.len()
                invariant
                    i <= ms@.len(),
                    cs@ == s@,
                    find(s@, opening()) < s@.len(),
                    texts(ms@) == members(cs@),
                    forall|k: int|
                        0 <= k < members(s@).len() ==> braces(#[trigger] members(s@)[k]) < braces(
                            s@,
                        ),
                    forall|k: int|
                        0 <= k < members(s@).len() ==> expandable(#[trigger] members(s@)[k]),
                    expanded(s@) == texts(out@) + expanded_from(s@, i as int),
                decreases ms@.len() - i,
            {
                assert(members(s@)[i as int] == ms@[i as int]@);
                let mut more = expand_rust_use(ms[i].as_str());
                let ghost so_far = texts(out@);
                let ghost added = texts(more@);
                out.append(&mut more);
                proof {
                    assert(texts(out@) =~= so_far + added);
                    let tail = expanded_from(s@, i + 1);
                    assert(so_far + (added + tail) =~= (so_far + added) + tail);
                }
                i += 1;
            }
            assert(texts(out@) + Seq::<Seq<char>>::empty() =~= texts(out@));
            out
        },
    }
}

// ---------------------------------------------------------------------------
// Laws

proof fn lemma_before_is_prefix(s: Seq<char>, pat: Seq<char>)
    ensures
        before(s, pat).len() <= s.len(),
        before(s, pat) == s.subrange(0, before(s, pat).len() as int),
    decreases s.len(),
{
    if s.len() == 0 || pat.is_prefix_of(s) {
        assert(before(s, pat) =~= s.subrange(0, 0));
    } else {
        lemma_before_is_prefix(s.drop_first(), pat);
        let tail = before(s.drop_first(), pat);
        assert(before(s, pat) =~= s.subrange(0, tail.len() as int + 1)) by {
            assert(tail =~= s.drop_first().subrange(0, tail.len() as int));
        }
    }
}

proof fn lemma_strip_suffixes_is_prefix(s: Seq<char>, pat: Seq<char>)
    ensures
        strip_suffixes(s, pat).len() <= s.len(),
        strip_suffixes(s, pat) == s.subrange(0, strip_suffixes(s, pat).len() as int),
    decreases s.len(),
{
    if pat.len() > 0 && pat.is_suffix_of(s) {
        let t = s.take(s.len() - pat.len());
        lemma_strip_suffixes_is_prefix(t, pat);
        let r = strip_suffixes(s, pat);
        assert(r =~= s.subrange(0, r.len() as int)) by {
            assert(r =~= t.subrange(0, r.len() as int));
        }
    } else {
        assert(s =~= s.subrange(0, s.len() as int));
    }
}

proof fn lemma_plain_path_braces(s: Seq<char>)
    requires
        find(s, opening()) >= s.len(),
    ensures
        braces(plain_path(s)) == 0,
{
    lemma_find(s, opening());
    assert forall|i: int| 0 <= i < s.len() implies s[i] != '{' by {
        assert(!opening()(s[i]));
    }
    lemma_no_braces(s);
    let head = before(s, " as "@);
    lemma_before_is_prefix(s, " as "@);
    lemma_braces_subrange(s, 0, head.len() as int);
    lemma_braces_trim(head);
    let bare = trim(head);
    lemma_strip_suffixes_is_prefix(bare, "::*"@);
    lemma_braces_subrange(bare, 0, plain_path(s).len() as int);
}

proof fn lemma_expanded_from(s: Seq<char>, i: int, k: int)
    requires
        0 <= k < expanded_from(s, i).len(),
    ensures
        braces(expanded_from(s, i)[k]) == 0,
    decreases braces(s), members(s).len() - i,
{
    if find(s, opening()) >= s.len() {
        lemma_plain_path_braces(s);
    } else if 0 <= i < members(s).len() {
        lemma_members_shallower(s);
        let first = expanded_from(members(s)[i], 0);
        if k < first.len() {
            lemma_expanded_from(members(s)[i], 0, k);
            assert(expanded_from(s, i)[k] == first[k]);
        } else {
            lemma_expanded_from(s, i + 1, k - first.len());
            assert(expanded_from(s, i)[k] == expanded_from(s, i + 1)[k - first.len()]);
        }
    }
}

/// No opening brace is left in an expanded path.
pub proof fn law_expanded_paths_have_no_groups(s: Seq<char>, k: int)
    requires
        0 <= k < expanded(s).len(),
    ensures
        !expanded(s)[k].contains('{'),
{
    lemma_expanded_from(s, 0, k);
    let path = expanded(s)[k];
    if path.contains('{') {
        let i = choose|i: int| 0 <= i < path.len() && path[i] == '{';
        lemma_braces_subrange(path, i, i + 1);
        let one = path.subrange(i, i + 1);
        assert(one.last() == '{');
        assert(braces(one) >= 1);
    }
}

/// A path without braces stands for itself alone, without its alias and without
/// the glob at its end.
pub proof fn law_plain_paths_stand_alone(s: Seq<char>)
    requires
        !s.contains('{'),
    ensures
        expandable(s),
        expanded(s) == seq![plain_path(s)],
{
    lemma_find(s, opening());
    let b = find(s, opening());
    if b < s.len() {
        assert(s[b] == '{');
        assert(s.contains('{'));
    }
}

/// How many more braces open in a text than close.
pub open spec fn left_open(s: Seq<char>) -> int {
    s.filter(|c: char| c == '{').len() - s.filter(|c: char| c == '}').len()
}

/// Whether each closing brace of a text has an opening one before it, and each opening
/// one a closing one behind it.
pub open spec fn is_balanced(s: Seq<char>) -> bool {
    &&& left_open(s) == 0
    &&& forall|i: int| 0 <= i <= s.len() ==> left_open(#[trigger] s.take(i)) >= 0
}

proof fn lemma_left_open_step(s: Seq<char>, i: int)
    requires
        0 < i <= s.len(),
    ensures
        left_open(s.take(i)) == left_open(s.take(i - 1)) + if s[i - 1] == '{' {
            1int
        } else if s[i - 1] == '}' {
            -1int
        } else {
            0int
        },
        left_open(s.take(0)) == 0,
{
    reveal(Seq::filter);
    let t = s.take(i);
    assert(t.drop_last() =~= s.take(i - 1));
    assert(t.last() == s[i - 1]);
}

proof fn lemma_depth_counts(s: Seq<char>, n: int)
    requires
        0 <= n <= s.len(),
        forall|i: int| 0 <= i <= n ==> left_open(#[trigger] s.take(i)) >= 0,
    ensures
        depth(s, n) == left_open(s.take(n)),
    decreases n,
{
    if n == 0 {
        reveal(Seq::filter);
    } else {
        lemma_depth_counts(s, n - 1);
        lemma_left_open_step(s, n);
        assert(left_open(s.take(n)) >= 0);
        assert(left_open(s.take(n - 1)) >= 0);
    }
}

proof fn lemma_depth_start(a: Seq<char>, b: Seq<char>, i: int)
    requires
        0 <= i <= a.len(),
    ensures
        depth(a + b, i) == depth(a, i),
    decreases i,
{
    if i > 0 {
        lemma_depth_start(a, b, i - 1);
        assert((a + b)[i - 1] == a[i - 1]);
    }
}

proof fn lemma_depth_behind(a: Seq<char>, b: Seq<char>, j: int)
    requires
        0 <= j <= b.len(),
        depth(a, a.len() as int) == 0,
    ensures
        depth(a + b, a.len() + j) == depth(b, j),
    decreases j,
{
    if j == 0 {
        lemma_depth_start(a, b, a.len() as int);
    } else {
        lemma_depth_behind(a, b, j - 1);
        assert((a + b)[a.len() + j - 1] == b[j - 1]);
    }
}

proof fn lemma_comma_behind(a: Seq<char>, b: Seq<char>, j: int)
    requires
        0 <= j <= b.len(),
        depth(a, a.len() as int) == 0,
    ensures
        next_comma(a + b, a.len() + j) == a.len() + next_comma(b, j),
    decreases b.len() - j,
{
    if j < b.len() {
        lemma_depth_behind(a, b, j);
        assert((a + b)[a.len() + j] == b[j]);
        lemma_comma_behind(a, b, j + 1);
    }
}

proof fn lemma_pieces_behind(a: Seq<char>, b: Seq<char>, j: int)
    requires
        0 <= j <= b.len(),
        depth(a, a.len() as int) == 0,
    ensures
        comma_pieces(a + b, a.len() + j) == comma_pieces(b, j),
    decreases b.len() - j,
{
    lemma_comma_behind(a, b, j);
    lemma_next_comma(b, j);
    let i = next_comma(b, j);
    if i < b.len() {
        lemma_pieces_behind(a, b, i + 1);
        assert((a + b).subrange(a.len() + j, a.len() + i) =~= b.subrange(j, i));
    } else {
        assert((a + b).skip(a.len() + j) =~= b.skip(j));
    }
}

proof fn lemma_comma_before(a: Seq<char>, b: Seq<char>, from: int)
    requires
        0 <= from <= a.len(),
        depth(a, a.len() as int) == 0,
    ensures
        next_comma(a + seq![','] + b, from) == next_comma(a, from),
    decreases a.len() - from,
{
    let s = a + seq![','] + b;
    assert(s =~= a + (seq![','] + b));
    lemma_depth_start(a, seq![','] + b, from);
    if from < a.len() {
        assert(s[from] == a[from]);
        lemma_comma_before(a, b, from + 1);
    } else {
        assert(s[from] == ',');
    }
}

proof fn lemma_pieces_split(a: Seq<char>, b: Seq<char>, from: int)
    requires
        0 <= from <= a.len(),
        depth(a, a.len() as int) == 0,
    ensures
        comma_pieces(a + seq![','] + b, from) == comma_pieces(a, from) + comma_pieces(b, 0),
    decreases a.len() - from,
{
    let s = a + seq![','] + b;
    lemma_comma_before(a, b, from);
    lemma_next_comma(a, from);
    let i = next_comma(a, from);
    assert(s.subrange(from, i) =~= a.subrange(from, i));
    if i < a.len() {
        lemma_pieces_split(a, b, i + 1);
        assert(seq![s.subrange(from, i)] + (comma_pieces(a, i + 1) + comma_pieces(b, 0)) =~= (seq![
            a.subrange(from, i),
        ] + comma_pieces(a, i + 1)) + comma_pieces(b, 0));
    } else {
        let head = a + seq![','];
        assert(s =~= head + b);
        lemma_depth_start(a, seq![','], a.len() as int);
        assert(depth(head, head.len() as int) == 0);
        lemma_pieces_behind(head, b, 0);
        assert(a.skip(from) =~= a.subrange(from, i));
    }
}

proof fn lemma_last_is(s: Seq<char>, c: char)
    requires
        s.len() > 0,
        s.last() == c,
    ensures
        last_index(s, c) == s.len() - 1,
{
}

proof fn lemma_group(p: Seq<char>, g: Seq<char>)
    requires
        !p.contains('{'),
    ensures
        ({
            let s = p + seq!['{'] + g + seq!['}'];
            &&& find(s, opening()) == p.len()
            &&& find(s, opening()) < group_end(s)
            &&& prefix(s) == p
            &&& group(s) == g
        }),
{
    let s = p + seq!['{'] + g + seq!['}'];
    assert(s[p.len() as int] == '{');
    assert forall|k: int| 0 <= k < p.len() implies !opening()(#[trigger] s[k]) by {
        assert(s[k] == p[k]);
        assert(p.contains(p[k]));
    }
    lemma_find_is(s, opening(), p.len() as int);
    lemma_last_is(s, '}');
    assert(prefix(s) =~= p);
    assert(group(s) =~= g);
}

/// The paths that all of some paths stand for.
pub open spec fn all_expanded(paths: Seq<Seq<char>>) -> Seq<Seq<char>>
    decreases paths.len(),
{
    if paths.len() == 0 {
        Seq::empty()
    } else {
        expanded(paths[0]) + all_expanded(paths.drop_first())
    }
}

proof fn lemma_all_concat(a: Seq<Seq<char>>, b: Seq<Seq<char>>)
    ensures
        all_expanded(a + b) == all_expanded(a) + all_expanded(b),
    decreases a.len(),
{
    if a.len() == 0 {
        assert(a + b =~= b);
        assert(all_expanded(a) + all_expanded(b) =~= all_expanded(b));
    } else {
        assert((a + b).drop_first() =~= a.drop_first() + b);
        lemma_all_concat(a.drop_first(), b);
        let x = expanded(a[0]);
        let y = all_expanded(a.drop_first());
        assert(x + (y + all_expanded(b)) =~= (x + y) + all_expanded(b));
    }
}

proof fn lemma_members_expanded(s: Seq<char>, i: int)
    requires
        find(s, opening()) < s.len(),
        0 <= i <= members(s).len(),
    ensures
        expanded_from(s, i) == all_expanded(members(s).skip(i)),
    decreases members(s).len() - i,
{
    let rest = members(s).skip(i);
    if i < members(s).len() {
        lemma_members_shallower(s);
        lemma_members_expanded(s, i + 1);
        assert(rest[0] == members(s)[i]);
        assert(rest.drop_first() =~= members(s).skip(i + 1));
    }
}

/// A group of two parts stands for what the group of the first stands for and then for
/// what the group of the second stands for.
pub proof fn law_group_by_part(p: Seq<char>, a: Seq<char>, b: Seq<char>)
    requires
        !p.contains('{'),
        is_balanced(a),
    ensures
        expanded(p + seq!['{'] + (a + seq![','] + b) + seq!['}']) == expanded(
            p + seq!['{'] + a + seq!['}'],
        ) + expanded(p + seq!['{'] + b + seq!['}']),
{
    let g = a + seq![','] + b;
    let s = p + seq!['{'] + g + seq!['}'];
    let x = p + seq!['{'] + a + seq!['}'];
    let y = p + seq!['{'] + b + seq!['}'];
    lemma_group(p, g);
    lemma_group(p, a);
    lemma_group(p, b);
    lemma_depth_counts(a, a.len() as int);
    assert(a.take(a.len() as int) =~= a);
    lemma_pieces_split(a, b, 0);
    assert(members(s) =~= members(x) + members(y));
    lemma_members_expanded(s, 0);
    lemma_members_expanded(x, 0);
    lemma_members_expanded(y, 0);
    assert(members(s).skip(0) =~= members(s));
    assert(members(x).skip(0) =~= members(x));
    assert(members(y).skip(0) =~= members(y));
    lemma_all_concat(members(x), members(y));
}

proof fn lemma_no_comma(a: Seq<char>, from: int)
    requires
        0 <= from <= a.len(),
        is_balanced(a),
        forall|i: int| 0 <= i < a.len() && #[trigger] a[i] == ',' ==> left_open(a.take(i)) > 0,
    ensures
        next_comma(a, from) == a.len(),
    decreases a.len() - from,
{
    if from < a.len() {
        lemma_no_comma(a, from + 1);
        lemma_depth_counts(a, from);
        let here = a[from];
    }
}

/// A group of one part, with no comma outside the braces in it, stands for what the part
/// stands for behind the path before the group.
pub proof fn law_group_of_one(p: Seq<char>, a: Seq<char>)
    requires
        !p.contains('{'),
        is_balanced(a),
        forall|i: int| 0 <= i < a.len() && #[trigger] a[i] == ',' ==> left_open(a.take(i)) > 0,
    ensures
        expanded(p + seq!['{'] + a + seq!['}']) == expanded(p + trim(a)),
{
    let s = p + seq!['{'] + a + seq!['}'];
    lemma_group(p, a);
    lemma_no_comma(a, 0);
    assert(a.skip(0) =~= a);
    assert(members(s) =~= seq![p + trim(a)]);
    lemma_members_expanded(s, 0);
    assert(members(s).skip(0) =~= members(s));
    assert(members(s).drop_first() =~= Seq::empty());
    reveal_with_fuel(all_expanded, 2);
    assert(expanded(p + trim(a)) + Seq::<Seq<char>>::empty() =~= expanded(p + trim(a)));
}

/// Whether a text holds ` as `.
pub open spec fn has_alias(s: Seq<char>) -> bool {
    exists|k: int| 0 <= k < s.len() && " as "@.is_prefix_of(#[trigger] s.skip(k))
}

proof fn lemma_no_alias(s: Seq<char>)
    requires
        !has_alias(s),
    ensures
        before(s, " as "@) == s,
{
    law_before(s, " as "@);
    let r = before(s, " as "@);
    reveal_strlit(" as ");
    if r != s {
        assert(" as "@.is_prefix_of(s.skip(r.len() as int)));
        assert(s.skip(r.len() as int).len() >= 4);
        assert(has_alias(s));
    }
}

/// A path without braces stands for itself, without white space round it and without a
/// glob at its end.
pub proof fn law_plain_path(a: Seq<char>, m: Seq<char>, b: Seq<char>)
    requires
        forall|k: int| 0 <= k < a.len() ==> is_white(#[trigger] a[k]),
        forall|k: int| 0 <= k < b.len() ==> is_white(#[trigger] b[k]),
        m.len() > 0,
        !is_white(m[0]),
        !is_white(m.last()),
        !"::*"@.is_suffix_of(m),
        !m.contains('{'),
    ensures
        !has_alias(a + m + b) ==> expanded(a + m + b) == seq![m],
        !has_alias(a + (m + "::*"@) + b) ==> expanded(a + (m + "::*"@) + b) == seq![m],
{
    reveal_strlit("::*");
    law_strip(m, "::*"@);
    let g = m + "::*"@;
    assert(g.last() == '*');
    assert(g[0] == m[0]);
    if !has_alias(a + m + b) {
        lemma_no_alias(a + m + b);
        law_trim(a, m, b);
        lemma_no_group(a, m, b);
        law_plain_paths_stand_alone(a + m + b);
    }
    if !has_alias(a + g + b) {
        lemma_no_alias(a + g + b);
        law_trim(a, g, b);
        assert(!g.contains('{')) by {
            if g.contains('{') {
                let k = choose|k: int| 0 <= k < g.len() && g[k] == '{';
                if k < m.len() {
                    assert(m[k] == '{');
                } else {
                    assert("::*"@[k - m.len()] == '{');
                }
            }
        }
        lemma_no_group(a, g, b);
        law_plain_paths_stand_alone(a + g + b);
    }
}

proof fn lemma_no_group(a: Seq<char>, m: Seq<char>, b: Seq<char>)
    requires
        forall|k: int| 0 <= k < a.len() ==> is_white(#[trigger] a[k]),
        forall|k: int| 0 <= k < b.len() ==> is_white(#[trigger] b[k]),
        !m.contains('{'),
    ensures
        !(a + m + b).contains('{'),
{
    let s = a + m + b;
    if s.contains('{') {
        let k = choose|k: int| 0 <= k < s.len() && s[k] == '{';
        assert(!is_white('{'));
        if k < a.len() {
            assert(a[k] == '{');
        } else if k < a.len() + m.len() {
            assert(m[k - a.len()] == '{');
        } else {
            assert(b[k - a.len() - m.len()] == '{');
        }
    }
}

/// A path with an alias stands for what it stands for without.
pub proof fn law_alias_is_dropped(path: Seq<char>, alias: Seq<char>)
    requires
        !has_alias(path),
        forall|k: int|
            0 <= k < path.len() ==> !" as "@.is_prefix_of(
                #[trigger] (path + " as "@ + alias).skip(k),
            ),
        !path.contains('{'),
        !alias.contains('{'),
    ensures
        expanded(path + " as "@ + alias) == expanded(path),
{
    reveal_strlit(" as ");
    let s = path + " as "@ + alias;
    let r = before(s, " as "@);
    law_before(s, " as "@);
    assert(s.skip(path.len() as int) =~= " as "@ + alias);
    assert((" as "@ + alias).subrange(0, 4) =~= " as "@);
    if r.len() < path.len() {
        assert(r != s);
        assert(" as "@.is_prefix_of(s.skip(r.len() as int)));
    }
    if r.len() > path.len() {
        assert(!" as "@.is_prefix_of(s.skip(path.len() as int)));
    }
    assert(r =~= path);
    lemma_no_alias(path);
    assert(!s.contains('{')) by {
        if s.contains('{') {
            let k = choose|k: int| 0 <= k < s.len() && s[k] == '{';
            if k < path.len() {
                assert(path[k] == '{');
            } else if k < path.len() + 4 {
                assert(" as "@[k - path.len()] == '{');
            } else {
                assert(alias[k - path.len() - 4] == '{');
            }
        }
    }
    law_plain_paths_stand_alone(s);
    law_plain_paths_stand_alone(path);
}

/// A text is split at the commas that stand outside its braces, and nowhere else.
pub proof fn law_commas_outside_braces(a: Seq<char>, b: Seq<char>)
    requires
        is_balanced(a),
    ensures
        comma_pieces(a + seq![','] + b, 0) == comma_pieces(a, 0) + comma_pieces(b, 0),
        (forall|i: int| 0 <= i < a.len() && #[trigger] a[i] == ',' ==> left_open(a.take(i)) > 0)
            ==> comma_pieces(a, 0) == seq![a],
{
    lemma_depth_counts(a, a.len() as int);
    assert(a.take(a.len() as int) =~= a);
    lemma_pieces_split(a, b, 0);
    if forall|i: int| 0 <= i < a.len() && #[trigger] a[i] == ',' ==> left_open(a.take(i)) > 0 {
        lemma_no_comma(a, 0);
        assert(a.skip(0) =~= a);
    }
}

/// Which groups can be expanded: one of two parts where both of the parts can be, one of
/// one part where what it stands for can be. A closing brace must not stand before the
/// first opening one unless another stands behind it; where there is none at all the
/// group ends with the text.
pub proof fn law_which_can_be_expanded(p: Seq<char>, a: Seq<char>, b: Seq<char>)
    requires
        !p.contains('{'),
    ensures
        is_balanced(a) ==> expandable(p + seq!['{'] + (a + seq![','] + b) + seq!['}']) == (
        expandable(p + seq!['{'] + a + seq!['}']) && expandable(p + seq!['{'] + b + seq!['}'])),
        is_balanced(a) && (forall|i: int|
            0 <= i < a.len() && #[trigger] a[i] == ',' ==> left_open(a.take(i)) > 0) ==> expandable(
            p + seq!['{'] + a + seq!['}'],
        ) == expandable(p + trim(a)),
        p.contains('}') && !b.contains('}') ==> !expandable(p + seq!['{'] + b),
        !p.contains('}') && !b.contains('}') ==> expandable(p + seq!['{'] + b) == expandable(
            p + seq!['{'] + b + seq!['}'],
        ) && expanded(p + seq!['{'] + b) == expanded(p + seq!['{'] + b + seq!['}']),
{
    if is_balanced(a) {
        let g = a + seq![','] + b;
        let s = p + seq!['{'] + g + seq!['}'];
        let x = p + seq!['{'] + a + seq!['}'];
        let y = p + seq!['{'] + b + seq!['}'];
        lemma_group(p, g);
        lemma_group(p, a);
        lemma_group(p, b);
        law_commas_outside_braces(a, b);
        let m = members(x);
        let n = members(y);
        assert(members(s) =~= m + n);
        if expandable(s) {
            assert forall|i: int| 0 <= i < m.len() implies expandable(#[trigger] m[i]) by {
                assert(members(s)[i] == m[i]);
            }
            assert forall|i: int| 0 <= i < n.len() implies expandable(#[trigger] n[i]) by {
                assert(members(s)[m.len() + i] == n[i]);
            }
        }
        if expandable(x) && expandable(y) {
            assert forall|i: int| 0 <= i < members(s).len() implies expandable(
                #[trigger] members(s)[i],
            ) by {
                if i < m.len() {
                    assert(members(s)[i] == m[i]);
                } else {
                    assert(members(s)[i] == n[i - m.len()]);
                }
            }
        }
        if forall|i: int| 0 <= i < a.len() && #[trigger] a[i] == ',' ==> left_open(a.take(i)) > 0 {
            assert(m =~= seq![p + trim(a)]);
            assert(m[0] == p + trim(a));
        }
    }
    let open = p + seq!['{'] + b;
    assert(open[p.len() as int] == '{');
    assert forall|k: int| 0 <= k < p.len() implies !opening()(#[trigger] open[k]) by {
        assert(open[k] == p[k]);
        assert(p.contains(p[k]));
    }
    lemma_find_is(open, opening(), p.len() as int);
    lemma_last_index(open, '}');
    let last = last_index(open, '}');
    if !b.contains('}') {
        if last > p.len() {
            assert(b[last - p.len() - 1] == '}');
        }
        assert(last < p.len());
    }
    if p.contains('}') && !b.contains('}') {
        let k = choose|k: int| 0 <= k < p.len() && p[k] == '}';
        lemma_last_behind(open, '}', k);
    }
    if !p.contains('}') && !b.contains('}') {
        if last >= 0 {
            assert(p[last] == '}');
        }
        let closed = open + seq!['}'];
        assert(closed =~= p + seq!['{'] + b + seq!['}']);
        lemma_group(p, b);
        assert(prefix(open) =~= p);
        assert(group(open) =~= b);
        assert(members(open) =~= members(closed));
        lemma_members_expanded(open, 0);
        lemma_members_expanded(closed, 0);
    }
}

proof fn lemma_last_behind(s: Seq<char>, c: char, k: int)
    requires
        0 <= k < s.len(),
        s[k] == c,
    ensures
        last_index(s, c) >= k,
    decreases s.len(),
{
    if s.last() != c {
        assert(s.drop_last()[k] == c);
        lemma_last_behind(s.drop_last(), c, k);
    }
}

/// What stands behind the last closing brace does not matter.
pub proof fn law_text_behind_group(p: Seq<char>, a: Seq<char>, tail: Seq<char>)
    requires
        !p.contains('{'),
        !tail.contains('}'),
    ensures
        expanded(p + seq!['{'] + a + seq!['}'] + tail) == expanded(p + seq!['{'] + a + seq!['}']),
        expandable(p + seq!['{'] + a + seq!['}'] + tail) == expandable(
            p + seq!['{'] + a + seq!['}'],
        ),
{
    let s = p + seq!['{'] + a + seq!['}'];
    let t = s + tail;
    lemma_group(p, a);
    assert forall|k: int| 0 <= k < p.len() implies !opening()(#[trigger] t[k]) by {
        assert(t[k] == s[k]);
        assert(s[k] == p[k]);
        assert(p.contains(p[k]));
    }
    assert(t[p.len() as int] == '{');
    lemma_find_is(t, opening(), p.len() as int);
    lemma_last_index(t, '}');
    assert(t[s.len() - 1] == '}');
    lemma_last_behind(t, '}', s.len() - 1);
    let last = last_index(t, '}');
    if last >= s.len() {
        assert(tail[last - s.len()] == '}');
    }
    assert(prefix(t) =~= p);
    assert(group(t) =~= a);
    assert(members(t) =~= members(s));
    lemma_members_expanded(t, 0);
    lemma_members_expanded(s, 0);
}

} // verus!
