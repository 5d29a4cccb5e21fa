//! Turns a task description into a query that the full-text index can run.
use vstd::prelude::*;
use vstd::utf8::*;

use crate::dep_builder::numbered;
use crate::index_builder::{body_text, rows_of, symbol_terms, BODY_LIMIT};
use crate::language::SymbolKind;
use crate::text::{
    among, byte_prefix, is_white, is_word, join, joined, law_byte_prefix, law_cut_is_longest,
    law_join, law_white_space, law_words, lemma_words, lemma_words_of_join, replace_any,
    replace_chars, same, split_words, texts, words,
};
use crate::tokenizer::{code_terms, lower, path_terms, tokenize_code, tokenize_path};

verus! {

/// The text with spaces in place of the characters that are operators of the
/// query language.
pub open spec fn without_operators(query: Seq<char>) -> Seq<char> {
    replace_chars(query, among("()\"*-:^{}~!"@), ' ')
}

/// A word, in lower case if it is a keyword of the query language.
pub open spec fn plain(w: Seq<char>) -> Seq<char> {
    if w == "AND"@ {
        "and"@
    } else if w == "OR"@ {
        "or"@
    } else if w == "NOT"@ {
        "not"@
    } else if w == "NEAR"@ {
        "near"@
    } else {
        w
    }
}

/// [`plain`] as a value.
pub open spec fn plainly() -> spec_fn(Seq<char>) -> Seq<char> {
    |w: Seq<char>| plain(w)
}

/// The words of a query, none of them an operator.
pub open spec fn query_words(query: Seq<char>) -> Seq<Seq<char>> {
    words(without_operators(query)).map_values(plainly())
}

/// A query that holds plain words only.
pub open spec fn sanitized(query: Seq<char>) -> Seq<char> {
    join(query_words(query), " "@)
}

fn plain_word(w: &str) -> (r: String)
    ensures
        r@ == plain(w@),
{
    if same(w, "AND") {
        "and".to_owned()
    } else if same(w, "OR") {
        "or".to_owned()
    } else if same(w, "NOT") {
        "not".to_owned()
    } else if same(w, "NEAR") {
        "near".to_owned()
    } else {
        w.to_owned()
    }
}

/// Takes everything from a query that the query language of the full-text index
/// would not read as a plain word: operator characters become spaces, and
/// the keywords `AND`, `OR`, `NOT` and `NEAR` become lower case.
pub fn sanitize_fts_query(query: &str) -> (r: String)
    ensures
        r@ == sanitized(query@),
{
    let stripped = replace_any(query, "()\"*-:^{}~!", ' ');
    let ws = split_words(stripped.as_str());
    let mut out: Vec<String> = Vec::new();
    let mut i: usize = 0;
    while i < ws.len()
        invariant
            i <= ws@.len(),
            texts(out@) == texts(ws@).take(i as int).map_values(plainly()),
        decreases ws@.len() - i,
    {
        let ghost so_far = texts(out@);
        let w = plain_word(ws[i].as_str());
        out.push(w);
        proof {
            assert(texts(out@) =~= so_far.push(w@));
            assert(texts(ws@).take(i + 1) =~= texts(ws@).take(i as int).push(ws@[i as int]@));
            assert(texts(ws@).take(i + 1).map_values(plainly()) =~= so_far.push(w@));
        }
        i += 1;
    }
    assert(texts(ws@).take(i as int) =~= texts(ws@));
    joined(&out, " ")
}

/// What a search asks of the full-text index.
#[derive(Debug, PartialEq, Eq)]
pub struct Bm25Query {
    /// The expression to match.
    pub matching: String,
    /// How many rows each of the tables may give.
    pub sub_limit: i64,
    /// How many files to return.
    pub limit: i64,
}

/// Prepares the search for a task: `top_n` files are wanted, and each table gives
/// up to three times as many. There is nothing to search for where no plain word
/// is left of the task.
pub fn bm25_query(query: &str, top_n: usize) -> (r: Option<Bm25Query>)
    requires
        top_n * 3 <= usize::MAX,
    ensures
        query_words(query@).len() == 0 ==> r is None,
        query_words(query@).len() > 0 ==> (r matches Some(q) && q.matching@ == sanitized(query@)
            && q.sub_limit == (top_n * 3) as i64 && q.limit == top_n as i64),
{
    let matching = sanitize_fts_query(query);
    proof {
        lemma_query_words(query@);
        lemma_words_of_join(query_words(query@));
    }
    if matching.as_str().is_empty() {
        assert(words(matching@).len() == 0);
        None
    } else {
        let sub_limit: i64 = (top_n * 3) as i64;
        let limit: i64 = top_n as i64;
        Some(Bm25Query { matching, sub_limit, limit })
    }
}

// ---------------------------------------------------------------------------
// The rows of the full-text index

/// The rows of the three tables of the full-text index, each with its file.
#[derive(Debug)]
pub struct FtsRows {
    /// The search terms of the paths.
    pub paths: Vec<(i64, String)>,
    /// The search terms of the symbols.
    pub symbols: Vec<(i64, String)>,
    /// The texts of the sources.
    pub bodies: Vec<(i64, String)>,
}

/// The rows of the paths.
pub open spec fn path_rows(paths: Seq<(i64, Seq<char>)>) -> Seq<(i64, Seq<char>)> {
    paths.map_values(|p: (i64, Seq<char>)| (p.0, path_terms(p.1, lower())))
}

/// Symbols with their files and kinds, with texts for their names.
pub open spec fn named(symbols: Seq<(i64, String, SymbolKind)>) -> Seq<
    (i64, Seq<char>, SymbolKind),
> {
    symbols.map_values(|s: (i64, String, SymbolKind)| (s.0, s.1@, s.2))
}

/// The rows of the symbols: imports have none.
pub open spec fn symbol_term_rows(symbols: Seq<(i64, Seq<char>, SymbolKind)>) -> Seq<
    (i64, Seq<char>),
>
    decreases symbols.len(),
{
    if symbols.len() == 0 {
        Seq::empty()
    } else {
        let rest = symbol_term_rows(symbols.drop_last());
        let (id, name, kind) = symbols.last();
        if kind == SymbolKind::Import {
            rest
        } else {
            rest.push((id, code_terms(name, lower())))
        }
    }
}

/// Sources by their files, as far as they could be read.
pub open spec fn readable(sources: Seq<(i64, Option<String>)>) -> Seq<(i64, Option<Seq<char>>)> {
    sources.map_values(
        |s: (i64, Option<String>)|
            (
                s.0,
                match s.1 {
                    Some(text) => Some(text@),
                    None => None,
                },
            ),
    )
}

/// The rows of the sources: one that could not be read has none.
pub open spec fn body_rows(sources: Seq<(i64, Option<Seq<char>>)>) -> Seq<(i64, Seq<char>)>
    decreases sources.len(),
{
    if sources.len() == 0 {
        Seq::empty()
    } else {
        let rest = body_rows(sources.drop_last());
        match sources.last().1 {
            Some(text) => rest.push((sources.last().0, byte_prefix(text, BODY_LIMIT as nat))),
            None => rest,
        }
    }
}

/// Makes all rows of the full-text index anew.
pub fn populate_fts_with_paths(
    paths: &Vec<(i64, String)>,
    symbols: &Vec<(i64, String, SymbolKind)>,
    sources: &Vec<(i64, Option<String>)>,
) -> (r: FtsRows)
    ensures
        numbered(r.paths@) == path_rows(numbered(paths@)),
        numbered(r.symbols@) == symbol_term_rows(named(symbols@)),
        numbered(r.bodies@) == body_rows(readable(sources@)),
{
    let mut path_out: Vec<(i64, String)> = Vec::new();
    let ghost all_paths = numbered(paths@);
    let mut i: usize = 0;
    while i < paths.len()
        invariant
            i <= paths@.len(),
            all_paths == numbered(paths@),
            numbered(path_out@) =~= path_rows(all_paths).take(i as int),
        decreases paths@.len() - i,
    {
        let ghost so_far = numbered(path_out@);
        assert(all_paths[i as int] == (paths@[i as int].0, paths@[i as int].1@));
        let terms = tokenize_path(paths[i].1.as_str());
        path_out.push((paths[i].0, terms));
        assert(numbered(path_out@) =~= so_far.push((paths@[i as int].0, terms@)));
        i += 1;
    }
    assert(path_rows(all_paths).take(i as int) =~= path_rows(all_paths));
    let mut symbol_out: Vec<(i64, String)> = Vec::new();
    let ghost all_symbols = named(symbols@);
    assert(numbered(symbol_out@) =~= symbol_term_rows(all_symbols.take(0)));
    let mut j: usize = 0;
    while j < symbols.len()
        invariant
            j <= symbols@.len(),
            all_symbols == named(symbols@),
            numbered(symbol_out@) == symbol_term_rows(all_symbols.take(j as int)),
        decreases symbols@.len() - j,
    {
        let ghost so_far = numbered(symbol_out@);
        let ghost next = all_symbols.take(j + 1);
        assert(next.drop_last() =~= all_symbols.take(j as int));
        let one = &symbols[j];
        assert(next.last() == (one.0, one.1@, one.2));
        if one.2 != SymbolKind::Import {
            let terms = tokenize_code(one.1.as_str());
            symbol_out.push((one.0, terms));
            assert(numbered(symbol_out@) =~= so_far.push((one.0, terms@)));
        }
        j += 1;
    }
    assert(all_symbols.take(j as int) =~= all_symbols);
    let mut body_out: Vec<(i64, String)> = Vec::new();
    let ghost all_sources = readable(sources@);
    assert(numbered(body_out@) =~= body_rows(all_sources.take(0)));
    let mut k: usize = 0;
    while k < sources.len()
        invariant
            k <= sources@.len(),
            all_sources == readable(sources@),
            numbered(body_out@) == body_rows(all_sources.take(k as int)),
        decreases sources@.len() - k,
    {
        let ghost so_far = numbered(body_out@);
        let ghost next = all_sources.take(k + 1);
        assert(next.drop_last() =~= all_sources.take(k as int));
        assert(next.last() == all_sources[k as int]);
        match &sources[k].1 {
            Some(text) => {
                let body = body_text(text.as_str());
                body_out.push((sources[k].0, body));
                assert(numbered(body_out@) =~= so_far.push((sources@[k as int].0, body@)));
            },
            None => {},
        }
        k += 1;
    }
    assert(all_sources.take(k as int) =~= all_sources);
    FtsRows { paths: path_out, symbols: symbol_out, bodies: body_out }
}

// ---------------------------------------------------------------------------
// Laws

/// Whether a character is an operator of the query language.
pub open spec fn is_operator(c: char) -> bool {
    "()\"*-:^{}~!"@.contains(c)
}

/// Whether a word is a keyword of the query language.
pub open spec fn is_keyword(w: Seq<char>) -> bool {
    w == "AND"@ || w == "OR"@ || w == "NOT"@ || w == "NEAR"@
}

proof fn lemma_strip_kept(query: Seq<char>, c: char)
    requires
        without_operators(query).contains(c),
    ensures
        !is_operator(c),
{
    let i = choose|i: int|
        0 <= i < without_operators(query).len() && without_operators(query)[i] == c;
    reveal_strlit("()\"*-:^{}~!");
    assert(without_operators(query)[i] == c);
}

proof fn lemma_plain(w: Seq<char>)
    requires
        is_word(w),
        forall|m: int| 0 <= m < w.len() ==> !is_operator(#[trigger] w[m]),
    ensures
        is_word(plain(w)),
        !is_keyword(plain(w)),
        plain(plain(w)) == plain(w),
        forall|m: int| 0 <= m < plain(w).len() ==> !is_operator(#[trigger] plain(w)[m]),
{
    reveal_strlit("AND");
    reveal_strlit("OR");
    reveal_strlit("NOT");
    reveal_strlit("NEAR");
    reveal_strlit("and");
    reveal_strlit("or");
    reveal_strlit("not");
    reveal_strlit("near");
    reveal_strlit("()\"*-:^{}~!");
    assert("and"@[0] == 'a' && "or"@[0] == 'o' && "not"@[0] == 'n' && "near"@[0] == 'n');
    assert("AND"@[0] == 'A' && "OR"@[0] == 'O' && "NOT"@[0] == 'N' && "NEAR"@[0] == 'N');
}

proof fn lemma_query_words(query: Seq<char>)
    ensures
        forall|k: int|
            0 <= k < query_words(query).len() ==> {
                let w = #[trigger] query_words(query)[k];
                &&& is_word(w)
                &&& !is_keyword(w)
                &&& plain(w) == w
                &&& forall|m: int| 0 <= m < w.len() ==> !is_operator(#[trigger] w[m])
            },
{
    let s = without_operators(query);
    assert forall|k: int| 0 <= k < query_words(query).len() implies {
        let w = #[trigger] query_words(query)[k];
        &&& is_word(w)
        &&& !is_keyword(w)
        &&& plain(w) == w
        &&& forall|m: int| 0 <= m < w.len() ==> !is_operator(#[trigger] w[m])
    } by {
        let raw = words(s)[k];
        lemma_words(s, k);
        assert forall|m: int| 0 <= m < raw.len() implies !is_operator(#[trigger] raw[m]) by {
            lemma_strip_kept(query, raw[m]);
        }
        lemma_plain(raw);
    }
}

proof fn lemma_join_chars(ws: Seq<Seq<char>>, c: char)
    requires
        join(ws, " "@).contains(c),
    ensures
        c == ' ' || exists|k: int, m: int|
            0 <= k < ws.len() && 0 <= m < ws[k].len() && #[trigger] ws[k][m] == c,
    decreases ws.len(),
{
    reveal_strlit(" ");
    let s = join(ws, " "@);
    let i = choose|i: int| 0 <= i < s.len() && s[i] == c;
    if ws.len() == 0 {
    } else if ws.len() == 1 {
        assert(ws[0][i] == c);
    } else {
        let init = ws.drop_last();
        let head = join(init, " "@);
        if i < head.len() {
            assert(head[i] == c);
            lemma_join_chars(init, c);
            if c != ' ' {
                let (k, m) = choose|k: int, m: int|
                    0 <= k < init.len() && 0 <= m < init[k].len() && #[trigger] init[k][m] == c;
                assert(ws[k][m] == c);
            }
        } else if i > head.len() {
            let m = i - head.len() - 1;
            assert(ws[ws.len() - 1][m] == c);
        }
    }
}

/// A sanitized query holds no operator.
pub proof fn law_no_operator_left(query: Seq<char>, c: char)
    requires
        sanitized(query).contains(c),
    ensures
        !is_operator(c),
{
    lemma_query_words(query);
    lemma_join_chars(query_words(query), c);
    reveal_strlit("()\"*-:^{}~!");
    if c != ' ' {
        let ws = query_words(query);
        let (k, m) = choose|k: int, m: int|
            0 <= k < ws.len() && 0 <= m < ws[k].len() && #[trigger] ws[k][m] == c;
        assert(!is_operator(ws[k][m]));
    }
}

/// No word of a sanitized query is a keyword.
pub proof fn law_no_keyword_left(query: Seq<char>, k: int)
    requires
        0 <= k < words(sanitized(query)).len(),
    ensures
        !is_keyword(words(sanitized(query))[k]),
{
    lemma_query_words(query);
    lemma_words_of_join(query_words(query));
    assert(!is_keyword(query_words(query)[k]));
}

/// A query is sanitized by sanitizing it once.
pub proof fn law_sanitize_once(query: Seq<char>)
    ensures
        sanitized(sanitized(query)) == sanitized(query),
{
    let s = sanitized(query);
    let ws = query_words(query);
    lemma_query_words(query);
    lemma_words_of_join(ws);
    assert(without_operators(s) =~= s) by {
        assert forall|i: int| 0 <= i < s.len() implies without_operators(s)[i] == s[i] by {
            assert(s.contains(s[i]));
            law_no_operator_left(query, s[i]);
        }
    }
    assert(query_words(s) =~= ws) by {
        assert forall|k: int| 0 <= k < ws.len() implies query_words(s)[k] == ws[k] by {
            assert(plain(ws[k]) == ws[k]);
        }
    }
}

/// A query that sanitizes to white space sanitizes to nothing.
pub proof fn law_blank_is_empty(query: Seq<char>)
    requires
        forall|i: int| 0 <= i < sanitized(query).len() ==> is_white(#[trigger] sanitized(query)[i]),
    ensures
        sanitized(query).len() == 0,
        query_words(query).len() == 0,
{
    let s = sanitized(query);
    let ws = query_words(query);
    lemma_query_words(query);
    lemma_words_of_join(ws);
    if ws.len() > 0 {
        lemma_words(s, 0);
        assert(is_word(ws[0]));
        let c = ws[0][0];
        assert(s.contains(words(s)[0][0]));
        let i = choose|i: int| 0 <= i < s.len() && s[i] == c;
        assert(is_white(s[i]));
        assert(!is_white(ws[0][0]));
    }
}

proof fn lemma_operators(c: char)
    ensures
        among("()\"*-:^{}~!"@)(c) <==> c == '(' || c == ')' || c == '"' || c == '*' || c == '-' || c
            == ':' || c == '^' || c == '{' || c == '}' || c == '~' || c == '!',
{
    reveal_strlit("()\"*-:^{}~!");
    let set = "()\"*-:^{}~!"@;
    assert(set.len() == 11);
    assert(set[0] == '(' && set[1] == ')' && set[2] == '"' && set[3] == '*' && set[4] == '-'
        && set[5] == ':' && set[6] == '^' && set[7] == '{' && set[8] == '}' && set[9] == '~'
        && set[10] == '!');
}

/// A query is sanitized part by part: white space and the characters `(`, `)`, `"`, `*`,
/// `-`, `:`, `^`, `{`, `}`, `~` and `!` stand between the parts and become one space.
pub proof fn law_sanitized_by_part(a: Seq<char>, c: char, b: Seq<char>)
    requires
        is_white(c) || c == '(' || c == ')' || c == '"' || c == '*' || c == '-' || c == ':' || c
            == '^' || c == '{' || c == '}' || c == '~' || c == '!',
    ensures
        sanitized(a + seq![c] + b) == if sanitized(a).len() == 0 {
            sanitized(b)
        } else if sanitized(b).len() == 0 {
            sanitized(a)
        } else {
            sanitized(a) + " "@ + sanitized(b)
        },
{
    let s = a + seq![c] + b;
    lemma_operators(c);
    law_white_space(c);
    law_white_space(' ');
    let d = if among("()\"*-:^{}~!"@)(c) {
        ' '
    } else {
        c
    };
    assert(without_operators(s) =~= without_operators(a) + seq![d] + without_operators(b));
    law_words(without_operators(a), d, without_operators(b));
    let x = query_words(a);
    let y = query_words(b);
    assert(query_words(s) =~= x + y);
    law_join(x, y, " "@);
    law_empty_without_words(a);
    law_empty_without_words(b);
    if x.len() == 0 {
        assert(x + y =~= y);
    } else if y.len() == 0 {
        assert(x + y =~= x);
    }
}

/// A query sanitizes to nothing exactly if no word is left of it.
pub proof fn law_empty_without_words(query: Seq<char>)
    ensures
        sanitized(query).len() == 0 <==> query_words(query).len() == 0,
{
    let ws = query_words(query);
    if ws.len() > 0 && sanitized(query).len() == 0 {
        lemma_query_words(query);
        lemma_words_of_join(ws);
        assert(words(sanitized(query)).len() == 0);
    }
}

/// A query that is one plain word is kept as it is, but for the keywords, which are put
/// in lower case.
pub proof fn law_plain_word_is_kept(w: Seq<char>)
    requires
        w.len() > 0,
        forall|k: int|
            0 <= k < w.len() ==> !is_white(#[trigger] w[k]) && w[k] != '(' && w[k] != ')' && w[k]
                != '"' && w[k] != '*' && w[k] != '-' && w[k] != ':' && w[k] != '^' && w[k] != '{'
                && w[k] != '}' && w[k] != '~' && w[k] != '!',
    ensures
        w != "AND"@ && w != "OR"@ && w != "NOT"@ && w != "NEAR"@ ==> sanitized(w) == w,
        w == "AND"@ ==> sanitized(w) == "and"@,
        w == "OR"@ ==> sanitized(w) == "or"@,
        w == "NOT"@ ==> sanitized(w) == "not"@,
        w == "NEAR"@ ==> sanitized(w) == "near"@,
{
    assert forall|k: int| 0 <= k < w.len() implies without_operators(w)[k] == w[k] by {
        lemma_operators(w[k]);
    }
    assert(without_operators(w) =~= w);
    law_words(w, ' ', Seq::empty());
    assert(query_words(w) =~= seq![plain(w)]);
    law_join(seq![plain(w)], Seq::empty(), " "@);
    reveal_strlit("AND");
    reveal_strlit("OR");
    reveal_strlit("NOT");
    reveal_strlit("NEAR");
    assert("AND"@[0] == 'A' && "OR"@[0] == 'O' && "NOT"@[0] == 'N' && "NEAR"@[0] == 'N');
}

/// The symbols of all files that are searched for by name.
pub open spec fn searched() -> spec_fn((i64, Seq<char>, SymbolKind)) -> bool {
    |s: (i64, Seq<char>, SymbolKind)|
        s.2 == SymbolKind::Function || s.2 == SymbolKind::Struct || s.2 == SymbolKind::Class || s.2
            == SymbolKind::Impl
}

/// The full-text index has a row for each function, structure, class and implementation,
/// with the file of the symbol and the terms of its name, and no other rows of symbols.
pub proof fn law_rows_of_symbols(symbols: Seq<(i64, Seq<char>, SymbolKind)>)
    ensures
        symbol_term_rows(symbols) == symbols.filter(searched()).map_values(
            |s: (i64, Seq<char>, SymbolKind)| (s.0, code_terms(s.1, lower())),
        ),
    decreases symbols.len(),
{
    reveal(Seq::filter);
    let f = |s: (i64, Seq<char>, SymbolKind)| (s.0, code_terms(s.1, lower()));
    if symbols.len() == 0 {
        assert(symbols.filter(searched()).map_values(f) =~= Seq::empty());
    } else {
        law_rows_of_symbols(symbols.drop_last());
        let before = symbols.drop_last().filter(searched());
        let last = symbols.last();
        assert(before.push(last).map_values(f) =~= before.map_values(f).push(f(last)));
    }
}

/// The terms that indexing a file gives for its symbols are the ones that the rows of the
/// full-text index hold for the same symbols.
pub proof fn law_both_give_the_same_terms(
    file_id: i64,
    path: Seq<char>,
    source: Seq<char>,
    symbols: Seq<(Seq<char>, SymbolKind, u32)>,
)
    ensures
        symbol_term_rows(
            symbols.map_values(|s: (Seq<char>, SymbolKind, u32)| (file_id, s.0, s.1)),
        ) == rows_of(file_id, path, source, symbols).symbol_terms.map_values(
            |t: Seq<char>| (file_id, t),
        ),
    decreases symbols.len(),
{
    let g = |s: (Seq<char>, SymbolKind, u32)| (file_id, s.0, s.1);
    let h = |t: Seq<char>| (file_id, t);
    let all = symbols.map_values(g);
    if symbols.len() == 0 {
        assert(symbol_term_rows(all) =~= symbol_terms(symbols).map_values(h));
    } else {
        let init = symbols.drop_last();
        law_both_give_the_same_terms(file_id, path, source, init);
        assert(all.drop_last() =~= init.map_values(g));
        assert(all.last() == (file_id, symbols.last().0, symbols.last().1));
        let t = code_terms(symbols.last().0, lower());
        assert(symbol_terms(init).push(t).map_values(h) =~= symbol_terms(init).map_values(h).push(
            (file_id, t),
        ));
    }
}

/// The rows of two lists of sources are those of the first and then those of the second.
/// A source that was read has one row, with its file and the longest start of it that
/// takes up no more than 512 KiB; one that was not read has none.
pub proof fn law_rows_of_sources(
    a: Seq<(i64, Option<Seq<char>>)>,
    b: Seq<(i64, Option<Seq<char>>)>,
    id: i64,
    text: Seq<char>,
)
    ensures
        body_rows(a + b) == body_rows(a) + body_rows(b),
        body_rows(seq![(id, None)]) == Seq::<(i64, Seq<char>)>::empty(),
        ({
            let r = body_rows(seq![(id, Some(text))]);
            &&& r.len() == 1
            &&& r[0].0 == id
            &&& r[0].1.is_prefix_of(text)
            &&& encode_utf8(r[0].1).len() <= 512 * 1024
            &&& r[0].1 == text || encode_utf8(text.take(r[0].1.len() + 1int)).len() > 512 * 1024
        }),
    decreases b.len(),
{
    if b.len() == 0 {
        assert(a + b =~= a);
        assert(body_rows(a) + body_rows(b) =~= body_rows(a));
    } else {
        assert((a + b).drop_last() =~= a + b.drop_last());
        assert((a + b).last() == b.last());
        law_rows_of_sources(a, b.drop_last(), id, text);
        assert(body_rows(a + b) =~= body_rows(a) + body_rows(b));
    }
    reveal_with_fuel(body_rows, 2);
    assert(seq![(id, None::<Seq<char>>)].drop_last() =~= Seq::empty());
    assert(seq![(id, Some(text))].drop_last() =~= Seq::empty());
    law_byte_prefix(text, BODY_LIMIT as nat);
    if byte_prefix(text, BODY_LIMIT as nat) != text {
        law_cut_is_longest(text, BODY_LIMIT as nat);
    }
}

/// Each path has one row, with its file and its terms.
pub proof fn law_rows_of_paths(paths: Seq<(i64, Seq<char>)>, i: int)
    requires
        0 <= i < paths.len(),
    ensures
        path_rows(paths).len() == paths.len(),
        path_rows(paths)[i].0 == paths[i].0,
        path_rows(paths)[i].1 == path_terms(paths[i].1, lower()),
{
}

} // verus!
