//! Splits paths and identifiers into the terms that full-text search indexes.
use vstd::prelude::*;
use vstd::utf8::*;

use crate::text::{
    among, chars_of, find, is_white, is_word, join, joined, law_join, law_split, lemma_find,
    lemma_find_is, lemma_words_of_join, slice, split, split_at_any, texts, white, words,
};

verus! {

/// A text in lower case, by the Unicode rules that `str::to_lowercase` follows.
pub uninterp spec fn lowercase(s: Seq<char>) -> Seq<char>;

/// `str::to_lowercase` depends on the text alone. On ASCII text it turns `A` to
/// `Z` into `a` to `z` and keeps every other character.
pub assume_specification[ str::to_lowercase ](s: &str) -> (r: String)
    ensures
        r@ == lowercase(s@),
        is_ascii_chars(s@) ==> r@ == ascii_lowercase(s@),
;

/// A character, in lower case if it is one of `A` to `Z`.
pub open spec fn ascii_lower_char(c: char) -> char {
    if 'A' <= c <= 'Z' {
        (c as u32 + 32) as char
    } else {
        c
    }
}

/// A text with `A` to `Z` in lower case.
pub open spec fn ascii_lowercase(s: Seq<char>) -> Seq<char> {
    Seq::new(s.len(), |i: int| ascii_lower_char(s[i]))
}

/// [`lowercase`] as a value.
pub open spec fn lower() -> spec_fn(Seq<char>) -> Seq<char> {
    |s: Seq<char>| lowercase(s)
}

/// [`ascii_lowercase`] as a value.
pub open spec fn ascii_lower() -> spec_fn(Seq<char>) -> Seq<char> {
    |s: Seq<char>| ascii_lowercase(s)
}

/// Whether a character separates the words of an identifier.
pub open spec fn is_separator(c: char) -> bool {
    c == '_' || c == '-'
}

/// Whether a character is one of `A` to `Z`.
pub open spec fn is_upper(c: char) -> bool {
    'A' <= c <= 'Z'
}

/// Whether a character is one of `a` to `z`.
pub open spec fn is_lower(c: char) -> bool {
    'a' <= c <= 'z'
}

/// Whether a character is one of `0` to `9`.
pub open spec fn is_digit(c: char) -> bool {
    '0' <= c <= '9'
}

/// Whether an upper-case letter at `i` begins a new word: it follows a
/// lower-case letter or a digit, or a lower-case letter follows it. Behind a
/// separator a word begins anyway.
pub open spec fn word_begins(s: Seq<char>, i: int) -> bool {
    &&& 0 < i < s.len()
    &&& !is_separator(s[i - 1])
    &&& is_upper(s[i])
    &&& {
        ||| is_lower(s[i - 1])
        ||| is_digit(s[i - 1])
        ||| i + 1 < s.len() && is_lower(s[i + 1])
    }
}

/// Where the word that holds the character before `j` ends.
pub open spec fn word_end(s: Seq<char>, j: int) -> int
    decreases s.len() - j,
{
    if j >= s.len() || is_separator(s[j]) || word_begins(s, j) {
        j
    } else {
        word_end(s, j + 1)
    }
}

/// The words of the identifier `s` from position `i` on.
pub open spec fn subwords(s: Seq<char>, i: int) -> Seq<Seq<char>>
    decreases s.len() - i,
{
    if i >= s.len() {
        Seq::empty()
    } else if is_separator(s[i]) {
        subwords(s, i + 1)
    } else {
        let j = word_end(s, i + 1);
        if i < j <= s.len() {
            seq![s.subrange(i, j)] + subwords(s, j)
        } else {
            Seq::empty()
        }
    }
}

/// The words of an identifier in camel case, snake case or kebab case; the
/// identifier itself if it holds none.
pub open spec fn identifier_words(s: Seq<char>) -> Seq<Seq<char>> {
    let w = subwords(s, 0);
    if w.len() == 0 {
        seq![s]
    } else {
        w
    }
}

proof fn lemma_word_end(s: Seq<char>, j: int)
    requires
        0 <= j <= s.len(),
    ensures
        j <= word_end(s, j) <= s.len(),
        forall|k: int| j <= k < word_end(s, j) ==> !is_separator(#[trigger] s[k]),
    decreases s.len() - j,
{
    if j >= s.len() || is_separator(s[j]) || word_begins(s, j) {
    } else {
        lemma_word_end(s, j + 1);
    }
}

fn separator(c: char) -> (r: bool)
    ensures
        r == is_separator(c),
{
    c == '_' || c == '-'
}

fn begins_word(cs: &Vec<char>, i: usize) -> (r: bool)
    requires
        0 < i < cs@.len(),
    ensures
        r == word_begins(cs@, i as int),
{
    let prev = cs[i - 1];
    let here = cs[i];
    if separator(prev) || !('A' <= here && here <= 'Z') {
        return false;
    }
    if ('a' <= prev && prev <= 'z') || ('0' <= prev && prev <= '9') {
        return true;
    }
    let n: usize = cs.len();
    if i < n - 1 {
        let next = cs[i + 1];
        'a' <= next && next <= 'z'
    } else {
        false
    }
}

/// Splits an identifier into its words.
pub fn split_identifier(s: &str) -> (r: Vec<String>)
    ensures
        texts(r@) == identifier_words(s@),
        r@.len() > 0,
{
    let cs = chars_of(s);
    let mut out: Vec<String> = Vec::new();
    let mut i: usize = 0;
    while i < cs.len()
        invariant
            i <= cs@.len(),
            subwords(cs@, 0) == texts(out@) + subwords(cs@, i as int),
        decreases cs@.len() - i,
    {
        if separator(cs[i]) {
            i += 1;
        } else {
            let mut j: usize = i + 1;
            while j < cs.len() && !separator(cs[j]) && !begins_word(&cs, j)
                invariant
                    i < j <= cs@.len(),
                    word_end(cs@, i + 1) == word_end(cs@, j as int),
                decreases cs@.len() - j,
            {
                j += 1;
            }
            let ghost so_far = texts(out@);
            let word = slice(&cs, i, j);
            out.push(word);
            proof {
                assert(texts(out@) =~= so_far.push(word@));
                let tail = subwords(cs@, j as int);
                assert(so_far + (seq![word@] + tail) =~= so_far.push(word@) + tail);
            }
            i = j;
        }
    }
    assert(texts(out@) + Seq::<Seq<char>>::empty() =~= texts(out@));
    if out.len() == 0 {
        let whole = s.to_owned();
        out.push(whole);
        assert(texts(out@) =~= seq![s@]);
    }
    out
}

/// The words of all parts that are not empty.
pub open spec fn part_words(parts: Seq<Seq<char>>) -> Seq<Seq<char>>
    decreases parts.len(),
{
    if parts.len() == 0 {
        Seq::empty()
    } else if parts.last().len() == 0 {
        part_words(parts.drop_last())
    } else {
        part_words(parts.drop_last()) + identifier_words(parts.last())
    }
}

/// The terms of a path, with `f` for lower case: the words of what stands
/// between its slashes, backslashes and dots.
pub open spec fn path_terms(path: Seq<char>, f: spec_fn(Seq<char>) -> Seq<char>) -> Seq<char> {
    join(part_words(split(path, among("/\\."@))).map_values(f), " "@)
}

/// The terms of an identifier, given it and its words in lower case: the whole
/// identifier first, then its words if there is more than one.
pub open spec fn terms_from(whole: Seq<char>, parts: Seq<Seq<char>>) -> Seq<char> {
    if parts.len() <= 1 {
        whole
    } else {
        whole + " "@ + join(parts, " "@)
    }
}

/// The terms of an identifier, with `f` for lower case.
pub open spec fn code_terms(name: Seq<char>, f: spec_fn(Seq<char>) -> Seq<char>) -> Seq<char> {
    terms_from(f(name), identifier_words(name).map_values(f))
}

/// Whether all of the texts are ASCII.
pub open spec fn all_ascii(ws: Seq<Seq<char>>) -> bool {
    forall|k: int| 0 <= k < ws.len() ==> is_ascii_chars(#[trigger] ws[k])
}

proof fn lemma_subrange_ascii(s: Seq<char>, i: int, j: int)
    requires
        is_ascii_chars(s),
        0 <= i <= j <= s.len(),
    ensures
        is_ascii_chars(s.subrange(i, j)),
{
    let w = s.subrange(i, j);
    assert forall|k: int| 0 <= k < w.len() implies '\0' <= #[trigger] w[k] <= '\u{7f}' by {
        assert(w[k] == s[i + k]);
    }
}

proof fn lemma_ascii_concat(a: Seq<Seq<char>>, b: Seq<Seq<char>>)
    requires
        all_ascii(a),
        all_ascii(b),
    ensures
        all_ascii(a + b),
{
    assert forall|k: int| 0 <= k < (a + b).len() implies is_ascii_chars(#[trigger] (a + b)[k]) by {
        if k < a.len() {
            assert((a + b)[k] == a[k]);
        } else {
            assert((a + b)[k] == b[k - a.len()]);
        }
    }
}

proof fn lemma_subwords_ascii(s: Seq<char>, i: int)
    requires
        is_ascii_chars(s),
        0 <= i <= s.len(),
    ensures
        all_ascii(subwords(s, i)),
    decreases s.len() - i,
{
    if i >= s.len() {
    } else if is_separator(s[i]) {
        lemma_subwords_ascii(s, i + 1);
    } else {
        let j = word_end(s, i + 1);
        lemma_word_end(s, i + 1);
        lemma_subwords_ascii(s, j);
        lemma_subrange_ascii(s, i, j);
        let first = seq![s.subrange(i, j)];
        assert(all_ascii(first));
        lemma_ascii_concat(first, subwords(s, j));
    }
}

proof fn lemma_words_ascii(s: Seq<char>)
    requires
        is_ascii_chars(s),
    ensures
        all_ascii(identifier_words(s)),
{
    lemma_subwords_ascii(s, 0);
}

/// Puts each of a list of words into lower case.
fn lowered(ws: &Vec<String>) -> (r: Vec<String>)
    ensures
        texts(r@) == texts(ws@).map_values(lower()),
        all_ascii(texts(ws@)) ==> texts(r@) == texts(ws@).map_values(ascii_lower()),
{
    let mut out: Vec<String> = Vec::new();
    let mut i: usize = 0;
    while i < ws.len()
        invariant
            i <= ws@.len(),
            texts(out@) =~= texts(ws@).map_values(lower()).take(i as int),
            all_ascii(texts(ws@)) ==> texts(out@) =~= texts(ws@).map_values(ascii_lower()).take(i as int),
        decreases ws@.len() - i,
    {
        assert(texts(ws@)[i as int] == ws@[i as int]@);
        let ghost so_far = texts(out@);
        let w = ws[i].as_str().to_lowercase();
        out.push(w);
        assert(texts(out@) =~= so_far.push(w@));
        i += 1;
    }
    out
}

/// Joins an identifier and its words, all in lower case, into search terms.
pub fn join_code_terms(whole: &str, parts: &Vec<String>) -> (r: String)
    ensures
        r@ == terms_from(whole@, texts(parts@)),
{
    let mut out = whole.to_owned();
    if parts.len() > 1 {
        out.append(" ");
        let tail = joined(parts, " ");
        out.append(tail.as_str());
    }
    out
}

/// The search terms of an identifier: `authenticateUser` gives
/// `authenticateuser authenticate user`.
pub fn tokenize_code(name: &str) -> (r: String)
    ensures
        r@ == code_terms(name@, lower()),
        is_ascii_chars(name@) ==> r@ == code_terms(name@, ascii_lower()),
{
    let ws = split_identifier(name);
    let whole = name.to_lowercase();
    let parts = lowered(&ws);
    proof {
        if is_ascii_chars(name@) {
            lemma_words_ascii(name@);
        }
    }
    join_code_terms(whole.as_str(), &parts)
}

proof fn lemma_split_ascii(s: Seq<char>, p: spec_fn(char) -> bool)
    requires
        is_ascii_chars(s),
    ensures
        all_ascii(split(s, p)),
    decreases s.len(),
{
    let i = find(s, p);
    if 0 <= i < s.len() {
        lemma_subrange_ascii(s, i + 1, s.len() as int);
        lemma_subrange_ascii(s, 0, i);
        assert(s.skip(i + 1) =~= s.subrange(i + 1, s.len() as int));
        assert(s.take(i) =~= s.subrange(0, i));
        lemma_split_ascii(s.skip(i + 1), p);
        let first = seq![s.take(i)];
        assert(all_ascii(first));
        lemma_ascii_concat(first, split(s.skip(i + 1), p));
    }
}

proof fn lemma_part_words_ascii(parts: Seq<Seq<char>>)
    requires
        all_ascii(parts),
    ensures
        all_ascii(part_words(parts)),
    decreases parts.len(),
{
    if parts.len() > 0 {
        let init = parts.drop_last();
        assert forall|k: int| 0 <= k < init.len() implies is_ascii_chars(#[trigger] init[k]) by {
            assert(init[k] == parts[k]);
        }
        lemma_part_words_ascii(init);
        assert(is_ascii_chars(parts[parts.len() - 1]));
        lemma_words_ascii(parts.last());
        lemma_ascii_concat(part_words(init), identifier_words(parts.last()));
    }
}

/// The search terms of a path: `src/auth/middleware.rs` gives
/// `src auth middleware rs`.
pub fn tokenize_path(path: &str) -> (r: String)
    ensures
        r@ == path_terms(path@, lower()),
        is_ascii_chars(path@) ==> r@ == path_terms(path@, ascii_lower()),
{
    let parts = split_at_any(path, "/\\.");
    let mut ws: Vec<String> = Vec::new();
    let mut i: usize = 0;
    while i < parts.len()
        invariant
            i <= parts@.len(),
            texts(ws@) == part_words(texts(parts@).take(i as int)),
        decreases parts@.len() - i,
    {
        let ghost next = texts(parts@).take(i + 1);
        assert(next.drop_last() =~= texts(parts@).take(i as int));
        assert(next.last() == parts@[i as int]@);
        if !parts[i].as_str().is_empty() {
            let mut more = split_identifier(parts[i].as_str());
            let ghost so_far = ws@;
            let ghost added = more@;
            ws.append(&mut more);
            assert(texts(ws@) =~= texts(so_far) + texts(added));
        }
        i += 1;
    }
    assert(texts(parts@).take(i as int) =~= texts(parts@));
    let terms = lowered(&ws);
    proof {
        if is_ascii_chars(path@) {
            lemma_split_ascii(path@, among("/\\."@));
            lemma_part_words_ascii(texts(parts@));
        }
    }
    joined(&terms, " ")
}

// ---------------------------------------------------------------------------
// Laws

/// The characters that separate no words.
pub open spec fn kept() -> spec_fn(char) -> bool {
    |c: char| !is_separator(c)
}

proof fn lemma_filter_all(s: Seq<char>)
    requires
        forall|k: int| 0 <= k < s.len() ==> !is_separator(#[trigger] s[k]),
    ensures
        s.filter(kept()) == s,
    decreases s.len(),
{
    reveal(Seq::filter);
    if s.len() > 0 {
        let t = s.drop_last();
        assert forall|k: int| 0 <= k < t.len() implies !is_separator(#[trigger] t[k]) by {
            assert(t[k] == s[k]);
        }
        lemma_filter_all(t);
        assert(t.push(s.last()) =~= s);
    }
}

proof fn lemma_subwords_flatten(s: Seq<char>, i: int)
    requires
        0 <= i <= s.len(),
    ensures
        subwords(s, i).flatten() == s.skip(i).filter(kept()),
    decreases s.len() - i,
{
    let rest = s.skip(i);
    if i >= s.len() {
        reveal(Seq::filter);
        assert(subwords(s, i).flatten() =~= Seq::empty());
        assert(rest.filter(kept()) =~= Seq::empty());
    } else if is_separator(s[i]) {
        lemma_subwords_flatten(s, i + 1);
        let first = seq![s[i]];
        assert(rest =~= first + s.skip(i + 1));
        Seq::filter_distributes_over_add(first, s.skip(i + 1), kept());
        assert(first.filter(kept()) =~= Seq::empty()) by {
            reveal_with_fuel(Seq::filter, 2);
        }
        assert(Seq::<char>::empty() + s.skip(i + 1).filter(kept()) =~= s.skip(i + 1).filter(kept()));
    } else {
        let j = word_end(s, i + 1);
        lemma_word_end(s, i + 1);
        lemma_subwords_flatten(s, j);
        let word = s.subrange(i, j);
        assert(rest =~= word + s.skip(j));
        Seq::filter_distributes_over_add(word, s.skip(j), kept());
        assert forall|k: int| 0 <= k < word.len() implies !is_separator(#[trigger] word[k]) by {
            assert(word[k] == s[i + k]);
        }
        lemma_filter_all(word);
        let ws = subwords(s, i);
        assert(ws.drop_first() =~= subwords(s, j));
        assert(ws.first() == word);
    }
}

/// Splitting an identifier loses and adds no character but separators, and
/// keeps the order.
pub proof fn law_characters_kept(s: Seq<char>)
    ensures
        identifier_words(s).flatten().filter(kept()) == s.filter(kept()),
{
    lemma_subwords_flatten(s, 0);
    assert(s.skip(0) =~= s);
    let w = subwords(s, 0);
    if w.len() == 0 {
        reveal_with_fuel(Seq::<_>::flatten, 2);
        let one = seq![s];
        assert(one.drop_first() =~= Seq::empty());
        assert(one.flatten() =~= s);
    } else {
        let flat = w.flatten();
        assert forall|k: int| 0 <= k < flat.len() implies !is_separator(#[trigger] flat[k]) by {
            broadcast use vstd::seq_lib::group_filter_ensures;

            assert(s.filter(kept()).contains(flat[k]));
            assert(kept()(flat[k]));
        }
        lemma_filter_all(flat);
    }
}

proof fn lemma_subwords_clean(s: Seq<char>, i: int, k: int)
    requires
        0 <= i <= s.len(),
        0 <= k < subwords(s, i).len(),
    ensures
        subwords(s, i)[k].len() > 0,
        forall|c: char| is_separator(c) ==> !subwords(s, i)[k].contains(c),
    decreases s.len() - i,
{
    if is_separator(s[i]) {
        lemma_subwords_clean(s, i + 1, k);
    } else {
        let j = word_end(s, i + 1);
        lemma_word_end(s, i + 1);
        if k > 0 {
            lemma_subwords_clean(s, j, k - 1);
        } else {
            let word = s.subrange(i, j);
            assert forall|c: char| is_separator(c) implies !word.contains(c) by {
                if word.contains(c) {
                    let m = choose|m: int| 0 <= m < word.len() && word[m] == c;
                    assert(word[m] == s[i + m]);
                }
            }
        }
    }
}

/// A word of an identifier is not empty and holds no separator, unless the
/// identifier consists of separators alone.
pub proof fn law_words_are_clean(s: Seq<char>, k: int)
    requires
        0 <= k < identifier_words(s).len(),
        s.filter(kept()).len() > 0,
    ensures
        identifier_words(s)[k].len() > 0,
        forall|c: char| is_separator(c) ==> !identifier_words(s)[k].contains(c),
{
    lemma_subwords_flatten(s, 0);
    assert(s.skip(0) =~= s);
    if subwords(s, 0).len() == 0 {
        assert(subwords(s, 0).flatten() =~= Seq::empty());
    }
    lemma_subwords_clean(s, 0, k);
}

proof fn lemma_lower_twice(s: Seq<char>)
    ensures
        ascii_lowercase(ascii_lowercase(s)) == ascii_lowercase(s),
{
    assert(ascii_lowercase(ascii_lowercase(s)) =~= ascii_lowercase(s));
}

proof fn lemma_lower_concat(a: Seq<char>, b: Seq<char>)
    ensures
        ascii_lowercase(a + b) == ascii_lowercase(a) + ascii_lowercase(b),
{
    assert(ascii_lowercase(a + b) =~= ascii_lowercase(a) + ascii_lowercase(b));
}

proof fn lemma_lower_join(ws: Seq<Seq<char>>)
    ensures
        ascii_lowercase(join(ws.map_values(ascii_lower()), " "@)) == join(
            ws.map_values(ascii_lower()),
            " "@,
        ),
    decreases ws.len(),
{
    let low = ws.map_values(ascii_lower());
    reveal_strlit(" ");
    if ws.len() == 0 {
        assert(ascii_lowercase(join(low, " "@)) =~= Seq::empty());
    } else if ws.len() == 1 {
        lemma_lower_twice(ws[0]);
    } else {
        lemma_lower_join(ws.drop_last());
        assert(low.drop_last() =~= ws.drop_last().map_values(ascii_lower()));
        lemma_lower_twice(ws.last());
        assert(low.last() == ascii_lowercase(ws.last()));
        let head = join(low.drop_last(), " "@);
        assert(ascii_lowercase(" "@) =~= " "@);
        lemma_lower_concat(head, " "@);
        lemma_lower_concat(head + " "@, low.last());
    }
}

/// The terms of an ASCII identifier are in lower case.
pub proof fn law_code_terms_lowercase(name: Seq<char>)
    ensures
        ascii_lowercase(code_terms(name, ascii_lower())) == code_terms(name, ascii_lower()),
{
    let ws = identifier_words(name);
    lemma_lower_twice(name);
    if ws.len() > 1 {
        lemma_lower_join(ws);
        reveal_strlit(" ");
        assert(ascii_lowercase(" "@) =~= " "@);
        lemma_lower_concat(ascii_lowercase(name), " "@);
        lemma_lower_concat(
            ascii_lowercase(name) + " "@,
            join(ws.map_values(ascii_lower()), " "@),
        );
    }
}

/// The terms of an ASCII path are in lower case.
pub proof fn law_path_terms_lowercase(path: Seq<char>)
    ensures
        ascii_lowercase(path_terms(path, ascii_lower())) == path_terms(path, ascii_lower()),
{
    lemma_lower_join(part_words(split(path, among("/\\."@))));
}

/// The first word of a text; nothing if it has none.
pub open spec fn first_word(s: Seq<char>) -> Seq<char> {
    let w = words(s);
    if w.len() == 0 {
        Seq::empty()
    } else {
        w[0]
    }
}

/// The first word of a text that begins with a word.
pub proof fn lemma_first_word(a: Seq<char>, rest: Seq<char>)
    requires
        forall|k: int| 0 <= k < a.len() ==> !is_white(#[trigger] a[k]),
        a.len() > 0,
        rest.len() > 0 ==> is_white(rest[0]),
    ensures
        first_word(a + rest) == a,
{
    let s = a + rest;
    assert forall|k: int| 0 <= k < a.len() implies !white()(#[trigger] s[k]) by {
        assert(s[k] == a[k]);
    }
    lemma_find_is(s, white(), a.len() as int);
    assert(s[0] == a[0]);
    assert(s.take(a.len() as int) =~= a);
}

proof fn lemma_code_first_word(name: Seq<char>)
    requires
        forall|k: int| 0 <= k < name.len() ==> !is_white(#[trigger] name[k]),
    ensures
        first_word(code_terms(name, ascii_lower())) == ascii_lowercase(name),
{
    let low = ascii_lowercase(name);
    let ws = identifier_words(name);
    assert forall|k: int| 0 <= k < low.len() implies !is_white(#[trigger] low[k]) by {
        assert(!is_white(name[k]));
    }
    if name.len() == 0 {
        assert(ws.len() == 1);
        assert(first_word(low) =~= low);
    } else if ws.len() <= 1 {
        lemma_first_word(low, Seq::empty());
        assert(low + Seq::<char>::empty() =~= low);
    } else {
        let tail = join(ws.map_values(ascii_lower()), " "@);
        reveal_strlit(" ");
        lemma_first_word(low, " "@ + tail);
        assert(low + (" "@ + tail) =~= low + " "@ + tail);
    }
}

/// The first term of an identifier without white space is the identifier
/// itself in lower case, and splitting that again gives it first again.
pub proof fn law_first_term_is_stable(name: Seq<char>)
    requires
        forall|k: int| 0 <= k < name.len() ==> !is_white(#[trigger] name[k]),
    ensures
        first_word(code_terms(name, ascii_lower())) == ascii_lowercase(name),
        first_word(code_terms(first_word(code_terms(name, ascii_lower())), ascii_lower()))
            == first_word(code_terms(name, ascii_lower())),
{
    lemma_code_first_word(name);
    let low = ascii_lowercase(name);
    assert forall|k: int| 0 <= k < low.len() implies !is_white(#[trigger] low[k]) by {
        assert(!is_white(name[k]));
    }
    lemma_code_first_word(low);
    lemma_lower_twice(name);
}

/// Whether a text holds no white space.
pub open spec fn is_solid(s: Seq<char>) -> bool {
    forall|k: int| 0 <= k < s.len() ==> !is_white(#[trigger] s[k])
}

proof fn lemma_solid_subrange(s: Seq<char>, i: int, j: int)
    requires
        is_solid(s),
        0 <= i <= j <= s.len(),
    ensures
        is_solid(s.subrange(i, j)),
{
    let w = s.subrange(i, j);
    assert forall|k: int| 0 <= k < w.len() implies !is_white(#[trigger] w[k]) by {
        assert(w[k] == s[i + k]);
    }
}

proof fn lemma_subwords_are_words(s: Seq<char>, i: int, k: int)
    requires
        is_solid(s),
        0 <= i <= s.len(),
        0 <= k < subwords(s, i).len(),
    ensures
        is_word(subwords(s, i)[k]),
    decreases s.len() - i,
{
    if is_separator(s[i]) {
        lemma_subwords_are_words(s, i + 1, k);
    } else {
        let j = word_end(s, i + 1);
        lemma_word_end(s, i + 1);
        if k > 0 {
            lemma_subwords_are_words(s, j, k - 1);
        } else {
            lemma_solid_subrange(s, i, j);
        }
    }
}

proof fn lemma_lower_word(w: Seq<char>)
    requires
        is_word(w),
    ensures
        is_word(ascii_lowercase(w)),
{
    let low = ascii_lowercase(w);
    assert forall|k: int| 0 <= k < low.len() implies !is_white(#[trigger] low[k]) by {
        assert(!is_white(w[k]));
    }
}

/// The words of the terms of an identifier: the identifier itself, then its words if
/// there is more than one, all in lower case.
pub proof fn law_code_terms_are_words(name: Seq<char>)
    requires
        name.len() > 0,
        is_solid(name),
    ensures
        words(code_terms(name, ascii_lower())) == seq![ascii_lowercase(name)]
            + if identifier_words(name).len() <= 1 {
            Seq::empty()
        } else {
            identifier_words(name).map_values(ascii_lower())
        },
{
    let low = ascii_lowercase(name);
    let ws = identifier_words(name);
    let parts = ws.map_values(ascii_lower());
    assert(is_word(name));
    lemma_lower_word(name);
    assert forall|k: int| 0 <= k < parts.len() implies is_word(#[trigger] parts[k]) by {
        if subwords(name, 0).len() > 0 {
            lemma_subwords_are_words(name, 0, k);
        }
        lemma_lower_word(ws[k]);
    }
    let all = seq![low] + if ws.len() <= 1 {
        Seq::empty()
    } else {
        parts
    };
    assert forall|k: int| 0 <= k < all.len() implies is_word(#[trigger] all[k]) by {
        if k > 0 {
            assert(all[k] == parts[k - 1]);
        }
    }
    lemma_words_of_join(all);
    if ws.len() <= 1 {
        assert(all =~= seq![low]);
    } else {
        lemma_join_first(low, parts);
    }
}

proof fn lemma_join_first(first: Seq<char>, rest: Seq<Seq<char>>)
    requires
        rest.len() > 0,
    ensures
        join(seq![first] + rest, " "@) == first + " "@ + join(rest, " "@),
    decreases rest.len(),
{
    let all = seq![first] + rest;
    assert(all.last() == rest.last());
    if rest.len() == 1 {
        assert(all.drop_last() =~= seq![first]);
        assert(join(seq![first], " "@) == first);
    } else {
        assert(all.drop_last() =~= seq![first] + rest.drop_last());
        lemma_join_first(first, rest.drop_last());
        let a = first + " "@;
        let b = join(rest.drop_last(), " "@);
        assert((a + b) + " "@ + rest.last() =~= a + (b + " "@ + rest.last()));
    }
}

proof fn lemma_part_words_are_words(parts: Seq<Seq<char>>, k: int)
    requires
        forall|i: int| 0 <= i < parts.len() ==> is_solid(#[trigger] parts[i]),
        0 <= k < part_words(parts).len(),
    ensures
        is_word(part_words(parts)[k]),
    decreases parts.len(),
{
    let init = parts.drop_last();
    let last = parts[parts.len() - 1];
    assert forall|i: int| 0 <= i < init.len() implies is_solid(#[trigger] init[i]) by {
        assert(init[i] == parts[i]);
    }
    let rest = part_words(init);
    if k < rest.len() {
        lemma_part_words_are_words(init, k);
        assert(part_words(parts)[k] == rest[k]);
    } else {
        let m = k - rest.len();
        assert(part_words(parts)[k] == identifier_words(last)[m]);
        assert(is_solid(last));
        if subwords(last, 0).len() > 0 {
            lemma_subwords_are_words(last, 0, m);
        }
    }
}

proof fn lemma_split_solid(s: Seq<char>, p: spec_fn(char) -> bool, k: int)
    requires
        is_solid(s),
        0 <= k < split(s, p).len(),
    ensures
        is_solid(split(s, p)[k]),
    decreases s.len(),
{
    let i = find(s, p);
    lemma_find(s, p);
    if i < s.len() {
        lemma_solid_subrange(s, 0, i);
        assert(s.take(i) =~= s.subrange(0, i));
        lemma_solid_subrange(s, i + 1, s.len() as int);
        assert(s.skip(i + 1) =~= s.subrange(i + 1, s.len() as int));
        if k > 0 {
            lemma_split_solid(s.skip(i + 1), p, k - 1);
        }
    }
}

/// The words of the terms of a path are the words of its parts, in lower case and
/// in their order.
pub proof fn law_path_terms_are_words(path: Seq<char>)
    requires
        is_solid(path),
    ensures
        words(path_terms(path, ascii_lower())) == part_words(
            split(path, among("/\\."@)),
        ).map_values(ascii_lower()),
{
    let parts = split(path, among("/\\."@));
    assert forall|k: int| 0 <= k < parts.len() implies is_solid(#[trigger] parts[k]) by {
        lemma_split_solid(path, among("/\\."@), k);
    }
    let ws = part_words(parts);
    let low = ws.map_values(ascii_lower());
    assert forall|k: int| 0 <= k < low.len() implies is_word(#[trigger] low[k]) by {
        lemma_part_words_are_words(parts, k);
        lemma_lower_word(ws[k]);
    }
    lemma_words_of_join(low);
}

/// Whether a word of an identifier begins at `i`.
spec fn is_start(s: Seq<char>, i: int) -> bool {
    !is_separator(s[i]) && (i == 0 || is_separator(s[i - 1]) || word_begins(s, i))
}

/// Where the words of an identifier begin, from position `i` on.
spec fn starts(s: Seq<char>, i: int) -> Seq<int>
    decreases s.len() - i,
{
    if i >= s.len() {
        Seq::empty()
    } else if is_separator(s[i]) {
        starts(s, i + 1)
    } else {
        let j = word_end(s, i + 1);
        if i < j <= s.len() {
            seq![i] + starts(s, j)
        } else {
            Seq::empty()
        }
    }
}

proof fn lemma_word_stops(s: Seq<char>, j: int)
    requires
        0 < j <= s.len(),
    ensures
        forall|k: int|
            j <= k < word_end(s, j) ==> !is_separator(#[trigger] s[k]) && !word_begins(s, k),
        word_end(s, j) < s.len() ==> is_separator(s[word_end(s, j)]) || word_begins(
            s,
            word_end(s, j),
        ),
    decreases s.len() - j,
{
    if j >= s.len() || is_separator(s[j]) || word_begins(s, j) {
    } else {
        lemma_word_stops(s, j + 1);
    }
}

/// Whether `w` is the word of an identifier that begins at `a`.
spec fn stands_at(s: Seq<char>, a: int, w: Seq<char>) -> bool {
    &&& 0 <= a
    &&& a + w.len() <= s.len()
    &&& w.len() > 0
    &&& w == s.subrange(a, a + w.len())
    &&& is_start(s, a)
    &&& a + w.len() < s.len() ==> is_separator(s[a + w.len()]) || word_begins(s, a + w.len())
    &&& forall|m: int| a <= m < a + w.len() ==> !is_separator(#[trigger] s[m])
}

/// Whether one of the words `ws` that begin at `at` holds what stands at `m`.
spec fn is_covered(at: Seq<int>, ws: Seq<Seq<char>>, m: int) -> bool {
    exists|k: int|
        #![trigger at[k]]
        0 <= k < at.len() && at[k] <= m < at[k] + ws[k].len()
}

proof fn lemma_starts(s: Seq<char>, i: int)
    requires
        0 <= i <= s.len(),
        i < s.len() ==> is_separator(s[i]) || is_start(s, i),
    ensures
        starts(s, i).len() == subwords(s, i).len(),
        forall|k: int|
            0 <= k < starts(s, i).len() ==> #[trigger] starts(s, i)[k] >= i && stands_at(
                s,
                starts(s, i)[k],
                subwords(s, i)[k],
            ),
        forall|k: int, l: int|
            #![trigger starts(s, i)[k], starts(s, i)[l]]
            0 <= k < l < starts(s, i).len() ==> starts(s, i)[k] + subwords(s, i)[k].len()
                <= starts(s, i)[l],
        forall|m: int|
            i <= m < s.len() && is_start(s, m) ==> #[trigger] starts(s, i).contains(m),
        forall|m: int|
            i <= m < s.len() && !is_separator(s[m]) ==> #[trigger] is_covered(
                starts(s, i),
                subwords(s, i),
                m,
            ),
    decreases s.len() - i,
{
    let at = starts(s, i);
    let ws = subwords(s, i);
    if i >= s.len() {
    } else if is_separator(s[i]) {
        lemma_starts(s, i + 1);
        assert forall|m: int| i <= m < s.len() && is_start(s, m) implies #[trigger] at.contains(
            m,
        ) by {
            assert(starts(s, i + 1).contains(m));
        }
        assert forall|m: int| i <= m < s.len() && !is_separator(s[m]) implies #[trigger] is_covered(
            at,
            ws,
            m,
        ) by {
            assert(is_covered(starts(s, i + 1), subwords(s, i + 1), m));
        }
    } else {
        let j = word_end(s, i + 1);
        lemma_word_end(s, i + 1);
        lemma_word_stops(s, i + 1);
        lemma_starts(s, j);
        let rest_at = starts(s, j);
        let rest = subwords(s, j);
        let word = s.subrange(i, j);
        assert(at == seq![i] + rest_at);
        assert(ws == seq![word] + rest);
        assert(stands_at(s, i, word));
        assert forall|k: int| 0 <= k < at.len() implies #[trigger] at[k] >= i && stands_at(
            s,
            at[k],
            ws[k],
        ) by {
            if k > 0 {
                assert(at[k] == rest_at[k - 1]);
                assert(ws[k] == rest[k - 1]);
            }
        }
        assert forall|k: int, l: int|
            #![trigger at[k], at[l]]
            0 <= k < l < at.len() implies at[k] + ws[k].len() <= at[l] by {
            assert(at[l] == rest_at[l - 1]);
            if k > 0 {
                assert(at[k] == rest_at[k - 1]);
                assert(ws[k] == rest[k - 1]);
            }
        }
        assert forall|m: int| i <= m < s.len() && is_start(s, m) implies #[trigger] at.contains(
            m,
        ) by {
            if m == i {
                assert(at[0] == i);
            } else if m < j {
                assert(!is_separator(s[m - 1]));
                assert(!is_separator(s[m]));
            } else {
                assert(rest_at.contains(m));
                let k = choose|k: int| 0 <= k < rest_at.len() && rest_at[k] == m;
                assert(at[k + 1] == m);
            }
        }
        assert forall|m: int| i <= m < s.len() && !is_separator(s[m]) implies #[trigger] is_covered(
            at,
            ws,
            m,
        ) by {
            if m < j {
                assert(at[0] <= m < at[0] + ws[0].len());
            } else {
                assert(is_covered(rest_at, rest, m));
                let k = choose|k: int|
                    #![trigger rest_at[k]]
                    0 <= k < rest_at.len() && rest_at[k] <= m < rest_at[k] + rest[k].len();
                assert(at[k + 1] == rest_at[k] && ws[k + 1] == rest[k]);
            }
        }
    }
}

/// Where the words of an identifier begin. `at` gives for each word its place, in their
/// order. Behind a character that is neither `_` nor `-` a word begins exactly at an
/// upper-case letter that a lower-case letter or a digit precedes or a lower-case letter
/// follows; behind `_` and `-`, and at the start, with any other character. A word ends
/// before the next `_` or `-`, or where the next one begins. An identifier of `_` and
/// `-` alone is kept whole.
pub proof fn law_where_words_begin(s: Seq<char>) -> (at: Seq<int>)
    ensures
        ({
            let ws = identifier_words(s);
            if exists|i: int| 0 <= i < s.len() && #[trigger] s[i] != '_' && s[i] != '-' {
                &&& at.len() == ws.len()
                &&& forall|k: int|
                    #![trigger at[k]]
                    0 <= k < at.len() ==> 0 <= at[k] && at[k] + ws[k].len() <= s.len()
                        && ws[k].len() > 0 && ws[k] == s.subrange(at[k], at[k] + ws[k].len())
                &&& forall|k: int, m: int|
                    #![trigger ws[k], s[m]]
                    0 <= k < at.len() && at[k] <= m < at[k] + ws[k].len() ==> s[m] != '_' && s[m]
                        != '-'
                &&& forall|k: int, l: int|
                    #![trigger at[k], at[l]]
                    0 <= k < l < at.len() ==> at[k] + ws[k].len() <= at[l]
                &&& forall|k: int|
                    #![trigger ws[k]]
                    0 <= k < at.len() ==> {
                        let end = at[k] + ws[k].len();
                        end == s.len() || s[end] == '_' || s[end] == '-' || at.contains(end)
                    }
                &&& forall|i: int|
                    0 <= i < s.len() ==> (#[trigger] at.contains(i) <==> s[i] != '_' && s[i] != '-'
                        && (i == 0 || s[i - 1] == '_' || s[i - 1] == '-' || ('A' <= s[i] && s[i]
                        <= 'Z' && (('a' <= s[i - 1] && s[i - 1] <= 'z') || ('0' <= s[i - 1] && s[i
                        - 1] <= '9') || (i + 1 < s.len() && 'a' <= s[i + 1] && s[i + 1] <= 'z')))))
            } else {
                ws == seq![s]
            }
        }),
{
    let ws = identifier_words(s);
    let at = starts(s, 0);
    lemma_starts(s, 0);
    if exists|i: int| 0 <= i < s.len() && #[trigger] s[i] != '_' && s[i] != '-' {
        let i = choose|i: int| 0 <= i < s.len() && #[trigger] s[i] != '_' && s[i] != '-';
        assert(is_covered(at, subwords(s, 0), i));
        assert(ws == subwords(s, 0));
        assert forall|k: int| #![trigger ws[k]] 0 <= k < at.len() implies {
            let end = at[k] + ws[k].len();
            end == s.len() || s[end] == '_' || s[end] == '-' || at.contains(end)
        } by {
            assert(stands_at(s, at[k], ws[k]));
            let end = at[k] + ws[k].len();
            if end < s.len() && word_begins(s, end) && !is_separator(s[end]) {
                assert(is_start(s, end));
            }
        }
        assert forall|k: int, m: int|
            #![trigger ws[k], s[m]]
            0 <= k < at.len() && at[k] <= m < at[k] + ws[k].len() implies s[m] != '_' && s[m]
            != '-' by {
            assert(stands_at(s, at[k], ws[k]));
        }
        assert forall|i: int| 0 <= i < s.len() implies (#[trigger] at.contains(i) <==> is_start(
            s,
            i,
        )) by {
            if at.contains(i) {
                let k = choose|k: int| 0 <= k < at.len() && at[k] == i;
                assert(stands_at(s, at[k], subwords(s, 0)[k]));
            }
        }
    } else {
        if ws != seq![s] {
            assert(subwords(s, 0).len() > 0);
            assert(stands_at(s, at[0], subwords(s, 0)[0]));
        }
    }
    at
}

/// A text in lower case differs in the letters `A` to `Z` alone, and these are the
/// same letter of the alphabet, which `a` to `z` number in the same order.
pub proof fn law_lowercase_letters(s: Seq<char>, i: int)
    requires
        0 <= i < s.len(),
    ensures
        ascii_lowercase(s).len() == s.len(),
        'A' <= s[i] && s[i] <= 'Z' ==> ascii_lowercase(s)[i] as u32 - 'a' as u32 == s[i] as u32
            - 'A' as u32,
        !('A' <= s[i] && s[i] <= 'Z') ==> ascii_lowercase(s)[i] == s[i],
{
}

proof fn lemma_part_words_concat(a: Seq<Seq<char>>, b: Seq<Seq<char>>)
    ensures
        part_words(a + b) == part_words(a) + part_words(b),
    decreases b.len(),
{
    if b.len() == 0 {
        assert(a + b =~= a);
        assert(part_words(a) + part_words(b) =~= part_words(a));
    } else {
        assert((a + b).drop_last() =~= a + b.drop_last());
        assert((a + b).last() == b.last());
        lemma_part_words_concat(a, b.drop_last());
        let x = part_words(a);
        let y = part_words(b.drop_last());
        let z = identifier_words(b.last());
        assert((x + y) + z =~= x + (y + z));
    }
}

proof fn lemma_path_separators(c: char)
    ensures
        among("/\\."@)(c) <==> c == '/' || c == '\\' || c == '.',
{
    reveal_strlit("/\\.");
    let set = "/\\."@;
    assert(set.len() == 3);
    if c == '/' {
        assert(set[0] == c);
    }
    if c == '\\' {
        assert(set[1] == c);
    }
    if c == '.' {
        assert(set[2] == c);
    }
}

/// The terms of a path of two parts, with a slash, a backslash or a dot between them, are
/// the terms of the first and then those of the second. A part without these has the
/// words of the identifier that it is, and none if it is empty.
pub proof fn law_path_terms_by_part(a: Seq<char>, c: char, b: Seq<char>)
    requires
        is_solid(a),
        is_solid(b),
    ensures
        c == '/' || c == '\\' || c == '.' ==> words(path_terms(a + seq![c] + b, ascii_lower()))
            == words(path_terms(a, ascii_lower())) + words(path_terms(b, ascii_lower())),
        !a.contains('/') && !a.contains('\\') && !a.contains('.') ==> words(
            path_terms(a, ascii_lower()),
        ) == if a.len() == 0 {
            Seq::empty()
        } else {
            identifier_words(a).map_values(ascii_lower())
        },
{
    let p = among("/\\."@);
    law_path_terms_are_words(a);
    law_path_terms_are_words(b);
    if c == '/' || c == '\\' || c == '.' {
        let s = a + seq![c] + b;
        assert forall|k: int| 0 <= k < s.len() implies !is_white(#[trigger] s[k]) by {
            if k < a.len() {
                assert(s[k] == a[k]);
            } else if k > a.len() {
                assert(s[k] == b[k - a.len() - 1]);
            }
        }
        law_path_terms_are_words(s);
        lemma_path_separators(c);
        law_split(a, c, b, p);
        lemma_part_words_concat(split(a, p), split(b, p));
        let x = part_words(split(a, p));
        let y = part_words(split(b, p));
        assert((x + y).map_values(ascii_lower()) =~= x.map_values(ascii_lower()) + y.map_values(
            ascii_lower(),
        ));
    }
    if !a.contains('/') && !a.contains('\\') && !a.contains('.') {
        let n = find(a, p);
        lemma_find(a, p);
        if n < a.len() {
            lemma_path_separators(a[n]);
            assert(a.contains(a[n]));
        }
        assert(split(a, p) =~= seq![a]);
        reveal_with_fuel(part_words, 2);
        assert(seq![a].drop_last() =~= Seq::empty());
        let none = Seq::<Seq<char>>::empty();
        assert(none + identifier_words(a) =~= identifier_words(a));
        if a.len() == 0 {
            assert(part_words(seq![a]) =~= none);
            assert(none.map_values(ascii_lower()) =~= none);
        }
    }
}

/// The terms of an identifier, with any rule for lower case: the identifier, and behind a
/// space its words with spaces between them, unless it is one word alone.
pub proof fn law_code_terms_text(name: Seq<char>, f: spec_fn(Seq<char>) -> Seq<char>)
    ensures
        identifier_words(name).len() <= 1 ==> code_terms(name, f) == f(name),
        identifier_words(name).len() > 1 ==> code_terms(name, f) == f(name) + " "@ + join(
            identifier_words(name).map_values(f),
            " "@,
        ),
{
}

proof fn lemma_subwords_not_empty(s: Seq<char>)
    requires
        s.len() > 0,
    ensures
        identifier_words(s).len() > 0,
        identifier_words(s)[0].len() > 0,
{
    if subwords(s, 0).len() > 0 {
        lemma_subwords_clean(s, 0, 0);
    }
}

proof fn lemma_part_words_not_empty(parts: Seq<Seq<char>>)
    requires
        part_words(parts).len() > 0,
    ensures
        part_words(parts)[0].len() > 0,
    decreases parts.len(),
{
    let rest = part_words(parts.drop_last());
    if rest.len() > 0 {
        lemma_part_words_not_empty(parts.drop_last());
        assert(part_words(parts)[0] == rest[0]);
    } else {
        lemma_subwords_not_empty(parts.last());
        assert(part_words(parts) =~= identifier_words(parts.last()));
    }
}

proof fn lemma_joined_words_not_empty(ws: Seq<Seq<char>>)
    requires
        ws.len() > 0,
        ws[0].len() > 0,
    ensures
        join(ws, " "@).len() > 0,
    decreases ws.len(),
{
    if ws.len() > 1 {
        lemma_joined_words_not_empty(ws.drop_last());
    }
}

/// The terms of a path of two parts, with a slash, a backslash or a dot between them, are
/// those of the first and behind a space those of the second; where one has none they are
/// those of the other. A part without these has its words with spaces between them.
pub proof fn law_path_terms_text(a: Seq<char>, c: char, b: Seq<char>)
    ensures
        c == '/' || c == '\\' || c == '.' ==> path_terms(a + seq![c] + b, ascii_lower()) == {
            let x = path_terms(a, ascii_lower());
            let y = path_terms(b, ascii_lower());
            if x.len() == 0 {
                y
            } else if y.len() == 0 {
                x
            } else {
                x + " "@ + y
            }
        },
        a.len() > 0 && !a.contains('/') && !a.contains('\\') && !a.contains('.') ==> path_terms(
            a,
            ascii_lower(),
        ) == join(identifier_words(a).map_values(ascii_lower()), " "@),
        path_terms(Seq::empty(), ascii_lower()).len() == 0,
{
    let p = among("/\\."@);
    let f = ascii_lower();
    let none = Seq::<char>::empty();
    let wa = part_words(split(a, p));
    let wb = part_words(split(b, p));
    if wa.len() > 0 {
        lemma_part_words_not_empty(split(a, p));
        assert(wa.map_values(f)[0] == ascii_lowercase(wa[0]));
        lemma_joined_words_not_empty(wa.map_values(f));
    }
    if wb.len() > 0 {
        lemma_part_words_not_empty(split(b, p));
        assert(wb.map_values(f)[0] == ascii_lowercase(wb[0]));
        lemma_joined_words_not_empty(wb.map_values(f));
    }
    if c == '/' || c == '\\' || c == '.' {
        lemma_path_separators(c);
        law_split(a, c, b, p);
        lemma_part_words_concat(split(a, p), split(b, p));
        assert((wa + wb).map_values(f) =~= wa.map_values(f) + wb.map_values(f));
        law_join(wa.map_values(f), wb.map_values(f), " "@);
        if wa.len() == 0 {
            assert(wa.map_values(f) + wb.map_values(f) =~= wb.map_values(f));
        } else if wb.len() == 0 {
            assert(wa.map_values(f) + wb.map_values(f) =~= wa.map_values(f));
        }
    }
    reveal_with_fuel(part_words, 2);
    if a.len() > 0 && !a.contains('/') && !a.contains('\\') && !a.contains('.') {
        assert forall|k: int| 0 <= k < a.len() implies !p(#[trigger] a[k]) by {
            lemma_path_separators(a[k]);
            assert(a.contains(a[k]));
        }
        law_split(a, c, b, p);
        assert(seq![a].drop_last() =~= Seq::empty());
        assert(Seq::<Seq<char>>::empty() + identifier_words(a) =~= identifier_words(a));
    }
    law_split(none, c, b, p);
    assert(seq![none].drop_last() =~= Seq::empty());
    assert(part_words(split(none, p)).map_values(f) =~= Seq::empty());
}

} // verus!
