//! Decides what the index of a repository holds: which files are indexed anew,
//! which leave it, and the rows of each file.
use vstd::hash_map::StringHashMap;
use vstd::prelude::*;
use vstd::utf8::*;

use crate::dep_builder::numbered;
use crate::git::{scanned_views, ScannedFile, ScannedView};
use crate::language::{Language, Symbol, SymbolKind, SymbolView};
use crate::symbols::{
    extracted, found, parses_to, result_view, ExtractError, ExtractFailure, Parsed, SymbolExtractor,
};
use crate::text::{
    byte_prefix, cut_to_bytes, join, joined, law_byte_prefix, law_cut_is_longest, lines, same,
    split_lines, texts,
};
use crate::tokenizer::{code_terms, lower, path_terms, tokenize_code, tokenize_path};

verus! {

/// The most bytes of a source that the full-text index holds.
pub const BODY_LIMIT: usize = 524_288;

// ---------------------------------------------------------------------------
// Files

/// Whether a file must be indexed: it never was, or its content has changed since.
pub open spec fn is_changed(indexed_sha: Option<Seq<char>>, blob_sha: Seq<char>) -> bool {
    match indexed_sha {
        Some(sha) => sha != blob_sha,
        None => true,
    }
}

/// Whether a file must be indexed, by the hash of what was indexed last and that
/// of its content now.
pub fn sha_changed(indexed_sha: &Option<String>, blob_sha: &str) -> (r: bool)
    ensures
        r == is_changed(
            match *indexed_sha {
                Some(sha) => Some(sha@),
                None => None,
            },
            blob_sha@,
        ),
{
    match indexed_sha {
        Some(sha) => !same(sha.as_str(), blob_sha),
        None => true,
    }
}

/// Whether the repository holds a file with the path.
pub open spec fn is_tracked(files: Seq<ScannedView>, path: Seq<char>) -> bool {
    exists|i: int| 0 <= i < files.len() && (#[trigger] files[i]).path == path
}

/// The files of the index that the repository no longer holds.
pub open spec fn stale(indexed: Seq<(i64, Seq<char>)>, files: Seq<ScannedView>) -> Seq<i64>
    decreases indexed.len(),
{
    if indexed.len() == 0 {
        Seq::empty()
    } else if is_tracked(files, indexed.last().1) {
        stale(indexed.drop_last(), files)
    } else {
        stale(indexed.drop_last(), files).push(indexed.last().0)
    }
}

/// The files of the index that the repository no longer holds, and that leave
/// the index.
pub fn stale_files(indexed: &Vec<(i64, String)>, files: &Vec<ScannedFile>) -> (r: Vec<i64>)
    ensures
        r@ == stale(numbered(indexed@), scanned_views(files@)),
{
    let mut paths: StringHashMap<bool> = StringHashMap::new();
    let ghost known = scanned_views(files@);
    let mut i: usize = 0;
    while i < files.len()
        invariant
            i <= files@.len(),
            known == scanned_views(files@),
            forall|p: Seq<char>| #[trigger]
                paths@.contains_key(p) <==> is_tracked(known.take(i as int), p),
        decreases files@.len() - i,
    {
        let ghost before = paths@;
        paths.insert(files[i].path.clone(), true);
        proof {
            let done = known.take(i as int);
            let next = known.take(i + 1);
            assert(known[i as int].path == files@[i as int].path@);
            assert forall|p: Seq<char>| #[trigger] paths@.contains_key(p) <==> is_tracked(next, p) by {
                assert(before.contains_key(p) <==> is_tracked(done, p));
                if is_tracked(done, p) {
                    let k = choose|k: int| 0 <= k < done.len() && (#[trigger] done[k]).path == p;
                    assert(next[k].path == p);
                }
                if p == known[i as int].path {
                    assert(next[i as int].path == p);
                }
                if is_tracked(next, p) {
                    let k = choose|k: int| 0 <= k < next.len() && (#[trigger] next[k]).path == p;
                    if k < i {
                        assert(done[k].path == p);
                    }
                }
            }
        }
        i += 1;
    }
    assert(known.take(i as int) =~= known);
    let ghost all = numbered(indexed@);
    let mut out: Vec<i64> = Vec::new();
    let mut j: usize = 0;
    while j < indexed.len()
        invariant
            j <= indexed@.len(),
            all == numbered(indexed@),
            forall|p: Seq<char>| #[trigger] paths@.contains_key(p) <==> is_tracked(known, p),
            out@ == stale(all.take(j as int), known),
        decreases indexed@.len() - j,
    {
        let ghost next = all.take(j + 1);
        assert(next.drop_last() =~= all.take(j as int));
        assert(next.last() == (indexed@[j as int].0, indexed@[j as int].1@));
        if !paths.contains_key(indexed[j].1.as_str()) {
            out.push(indexed[j].0);
        }
        j += 1;
    }
    assert(all.take(j as int) =~= all);
    out
}

/// What to do with a file of the repository.
#[derive(Debug, Clone, Copy, PartialEq, Eq, Structural)]
pub enum FileAction {
    /// Nothing: it has not changed.
    Skip,
    /// Note its content as indexed: it has no symbols to index.
    MarkIndexed,
    /// Read and index it.
    Read,
}

/// What to do with a file of a language.
pub open spec fn action_for(lang: Language, changed: bool) -> FileAction {
    if !changed {
        FileAction::Skip
    } else if lang == Language::Unknown {
        FileAction::MarkIndexed
    } else {
        FileAction::Read
    }
}

/// What a run has done.
#[derive(Debug, PartialEq, Eq, Structural)]
pub struct IndexStats {
    /// The files of the repository.
    pub files_total: usize,
    /// The files that were indexed.
    pub files_indexed: usize,
    /// The files that had not changed or could not be read.
    pub files_skipped: usize,
    /// The files that left the index.
    pub files_deleted: usize,
    /// The symbols that were found.
    pub symbols_total: usize,
    /// The dependencies between the files.
    pub deps_total: usize,
}

impl Default for IndexStats {
    fn default() -> (r: IndexStats)
        ensures
            r == (IndexStats {
                files_total: 0,
                files_indexed: 0,
                files_skipped: 0,
                files_deleted: 0,
                symbols_total: 0,
                deps_total: 0,
            }),
    {
        IndexStats {
            files_total: 0,
            files_indexed: 0,
            files_skipped: 0,
            files_deleted: 0,
            symbols_total: 0,
            deps_total: 0,
        }
    }
}

impl IndexStats {
    /// The files that were read and of which it is not known yet what became of
    /// them.
    pub open spec fn open_files(self) -> int {
        self.files_total - self.files_indexed - self.files_skipped
    }

    /// Takes up a file of the repository and decides what to do with it.
    pub fn take_file(&mut self, lang: Language, changed: bool) -> (r: FileAction)
        requires
            old(self).files_total < usize::MAX,
            old(self).open_files() >= 0,
        ensures
            r == action_for(lang, changed),
            *final(self) == (IndexStats {
                files_total: (old(self).files_total + 1) as usize,
                files_indexed: if r == FileAction::MarkIndexed {
                    (old(self).files_indexed + 1) as usize
                } else {
                    old(self).files_indexed
                },
                files_skipped: if r == FileAction::Skip {
                    (old(self).files_skipped + 1) as usize
                } else {
                    old(self).files_skipped
                },
                ..*old(self)
            }),
            final(self).open_files() == old(self).open_files() + if r == FileAction::Read {
                1int
            } else {
                0int
            },
    {
        self.files_total = self.files_total + 1;
        if !changed {
            self.files_skipped = self.files_skipped + 1;
            FileAction::Skip
        } else if lang == Language::Unknown {
            self.files_indexed = self.files_indexed + 1;
            FileAction::MarkIndexed
        } else {
            FileAction::Read
        }
    }

    /// A file that was to be read could not be.
    pub fn file_unreadable(&mut self)
        requires
            old(self).open_files() > 0,
        ensures
            *final(self) == (IndexStats {
                files_skipped: (old(self).files_skipped + 1) as usize,
                ..*old(self)
            }),
            final(self).open_files() == old(self).open_files() - 1,
    {
        self.files_skipped = self.files_skipped + 1;
    }

    /// A file that was read has been indexed, with a number of symbols.
    pub fn file_indexed(&mut self, symbols: usize)
        requires
            old(self).open_files() > 0,
            old(self).symbols_total + symbols <= usize::MAX,
        ensures
            *final(self) == (IndexStats {
                files_indexed: (old(self).files_indexed + 1) as usize,
                symbols_total: (old(self).symbols_total + symbols) as usize,
                ..*old(self)
            }),
            final(self).open_files() == old(self).open_files() - 1,
    {
        self.files_indexed = self.files_indexed + 1;
        self.symbols_total = self.symbols_total + symbols;
    }

    /// A file has left the index.
    pub fn file_deleted(&mut self)
        requires
            old(self).files_deleted < usize::MAX,
        ensures
            *final(self) == (IndexStats {
                files_deleted: (old(self).files_deleted + 1) as usize,
                ..*old(self)
            }),
            final(self).open_files() == old(self).open_files(),
    {
        self.files_deleted = self.files_deleted + 1;
    }
}

// ---------------------------------------------------------------------------
// Rows

/// The first of the lines around `line`, counted from zero.
pub open spec fn snippet_start(line: u32) -> int {
    if line < 3 {
        0
    } else {
        line - 3
    }
}

/// Where the lines around `line` end, in a source of `n` lines.
pub open spec fn snippet_end(line: u32, n: nat) -> int {
    if line + 2 < n {
        line + 2
    } else {
        n as int
    }
}

/// The lines around `line`: itself, two before it and two behind it.
pub open spec fn snippet(all: Seq<Seq<char>>, line: u32) -> Seq<char> {
    join(all.subrange(snippet_start(line), snippet_end(line, all.len())), "\n"@)
}

/// Whether there are lines around `line`.
pub open spec fn has_snippet(all: Seq<Seq<char>>, line: u32) -> bool {
    snippet_start(line) <= snippet_end(line, all.len())
}

/// The symbols of a file.
pub open spec fn symbol_rows(
    file_id: i64,
    all: Seq<Seq<char>>,
    symbols: Seq<(Seq<char>, SymbolKind, u32)>,
) -> Seq<SymbolView> {
    symbols.map_values(
        |s: (Seq<char>, SymbolKind, u32)|
            SymbolView {
                file_id,
                name: s.0,
                kind: s.1,
                line: s.2,
                snippet: snippet(all, s.2),
            },
    )
}

/// The search terms of the symbols, without the imports.
pub open spec fn symbol_terms(symbols: Seq<(Seq<char>, SymbolKind, u32)>) -> Seq<Seq<char>>
    decreases symbols.len(),
{
    if symbols.len() == 0 {
        Seq::empty()
    } else if symbols.last().1 == SymbolKind::Import {
        symbol_terms(symbols.drop_last())
    } else {
        symbol_terms(symbols.drop_last()).push(code_terms(symbols.last().0, lower()))
    }
}

/// What the index holds of a file.
#[derive(Debug)]
pub struct FileRows {
    pub symbols: Vec<Symbol>,
    /// The search terms of its path.
    pub path_terms: String,
    /// The search terms of each symbol that is no import.
    pub symbol_terms: Vec<String>,
    /// Its text, as far as the index holds it.
    pub body: String,
}

/// [`FileRows`], with texts for the strings.
#[verifier::ext_equal]
pub struct FileRowsView {
    pub symbols: Seq<SymbolView>,
    pub path_terms: Seq<char>,
    pub symbol_terms: Seq<Seq<char>>,
    pub body: Seq<char>,
}

/// Symbols, with texts for their strings.
pub open spec fn symbol_views(symbols: Seq<Symbol>) -> Seq<SymbolView> {
    symbols.map_values(|s: Symbol| s@)
}

impl View for FileRows {
    type V = FileRowsView;

    open spec fn view(&self) -> FileRowsView {
        FileRowsView {
            symbols: symbol_views(self.symbols@),
            path_terms: self.path_terms@,
            symbol_terms: texts(self.symbol_terms@),
            body: self.body@,
        }
    }
}

/// What the index holds of a file with these symbols.
pub open spec fn rows_of(
    file_id: i64,
    path: Seq<char>,
    source: Seq<char>,
    symbols: Seq<(Seq<char>, SymbolKind, u32)>,
) -> FileRowsView {
    FileRowsView {
        symbols: symbol_rows(file_id, lines(source), symbols),
        path_terms: path_terms(path, lower()),
        symbol_terms: symbol_terms(symbols),
        body: byte_prefix(source, BODY_LIMIT as nat),
    }
}

/// Whether there are lines around each of the symbols.
pub open spec fn have_snippets(
    source: Seq<char>,
    symbols: Seq<(Seq<char>, SymbolKind, u32)>,
) -> bool {
    forall|i: int|
        0 <= i < symbols.len() ==> has_snippet(lines(source), (#[trigger] symbols[i]).2)
}

/// The text of a source, as far as the full-text index holds it.
pub fn body_text(source: &str) -> (r: String)
    ensures
        r@ == byte_prefix(source@, BODY_LIMIT as nat),
{
    cut_to_bytes(source, BODY_LIMIT)
}

fn snippet_bounds(n: usize, line: u32) -> (r: (usize, usize))
    ensures
        r.0 == snippet_start(line),
        r.1 == snippet_end(line, n as nat),
{
    let at: usize = line as usize;
    let from: usize = if at < 3 {
        0
    } else {
        at - 3
    };
    let to: usize = if n > 2 && at < n - 2 {
        at + 2
    } else {
        n
    };
    (from, to)
}

/// Makes the rows of a file from its symbols.
pub fn file_rows(
    file_id: i64,
    path: &str,
    source: &str,
    symbols: &Vec<(String, SymbolKind, u32)>,
) -> (r: FileRows)
    requires
        have_snippets(source@, found(symbols@)),
    ensures
        r@ == rows_of(file_id, path@, source@, found(symbols@)),
{
    let all = split_lines(source);
    let n: usize = all.len();
    let ghost seen = found(symbols@);
    let ghost text = texts(all@);
    let mut rows: Vec<Symbol> = Vec::new();
    let mut terms: Vec<String> = Vec::new();
    assert(symbol_views(rows@) =~= symbol_rows(file_id, text, seen.take(0)));
    assert(texts(terms@) =~= symbol_terms(seen.take(0)));
    let mut i: usize = 0;
    while i < symbols.len()
        invariant
            i <= symbols@.len(),
            seen == found(symbols@),
            text == texts(all@),
            text == lines(source@),
            n == all@.len(),
            have_snippets(source@, seen),
            symbol_views(rows@) == symbol_rows(file_id, text, seen.take(i as int)),
            texts(terms@) == symbol_terms(seen.take(i as int)),
        decreases symbols@.len() - i,
    {
        let ghost next = seen.take(i + 1);
        let ghost row_before = symbol_views(rows@);
        let ghost terms_before = texts(terms@);
        let name = symbols[i].0.clone();
        let kind = symbols[i].1;
        let line = symbols[i].2;
        assert(seen[i as int] == (name@, kind, line));
        assert(has_snippet(lines(source@), seen[i as int].2));
        let (from, to) = snippet_bounds(n, line);
        let mut around: Vec<String> = Vec::new();
        let mut j: usize = from;
        while j < to
            invariant
                from <= j <= to <= all@.len(),
                text == texts(all@),
                texts(around@) =~= text.subrange(from as int, j as int),
            decreases to - j,
        {
            let ghost so_far = texts(around@);
            let one = all[j].clone();
            around.push(one);
            assert(texts(around@) =~= so_far.push(one@));
            j += 1;
        }
        let piece = joined(&around, "\n");
        if kind != SymbolKind::Import {
            let term = tokenize_code(name.as_str());
            terms.push(term);
            assert(texts(terms@) =~= terms_before.push(term@));
        }
        let row = Symbol { file_id, name, kind, line, snippet: piece };
        rows.push(row);
        proof {
            assert(next.drop_last() =~= seen.take(i as int));
            assert(next.last() == seen[i as int]);
            assert(symbol_views(rows@) =~= row_before.push(row@));
            assert(symbol_rows(file_id, text, next) =~= symbol_rows(
                file_id,
                text,
                seen.take(i as int),
            ).push(row@));
        }
        i += 1;
    }
    assert(seen.take(i as int) =~= seen);
    FileRows {
        symbols: rows,
        path_terms: tokenize_path(path),
        symbol_terms: terms,
        body: body_text(source),
    }
}

/// Why a file cannot be indexed.
#[derive(Debug, PartialEq, Eq)]
pub enum IndexError {
    /// Its symbols cannot be found.
    Extract(ExtractError),
    /// A symbol stands behind the end of the source.
    Line,
    /// There are more symbols than can be counted.
    Count,
}

/// An [`IndexError`], with texts for its strings.
#[verifier::ext_equal]
pub enum IndexFailure {
    Extract(ExtractFailure),
    Line,
    Count,
}

impl View for IndexError {
    type V = IndexFailure;

    open spec fn view(&self) -> IndexFailure {
        match self {
            IndexError::Extract(e) => IndexFailure::Extract(e@),
            IndexError::Line => IndexFailure::Line,
            IndexError::Count => IndexFailure::Count,
        }
    }
}

/// What indexing a file gives, for what the extraction of its symbols gave.
pub open spec fn indexed(
    file_id: i64,
    path: Seq<char>,
    source: Seq<char>,
    symbols: Result<Seq<(Seq<char>, SymbolKind, u32)>, ExtractFailure>,
) -> Result<FileRowsView, IndexFailure> {
    match symbols {
        Err(e) => Err(IndexFailure::Extract(e)),
        Ok(symbols) => if have_snippets(source, symbols) {
            Ok(rows_of(file_id, path, source, symbols))
        } else {
            Err(IndexFailure::Line)
        },
    }
}

/// The result of indexing a file, with texts for its strings.
pub open spec fn indexed_view(r: Result<FileRows, IndexError>) -> Result<
    FileRowsView,
    IndexFailure,
> {
    match r {
        Ok(rows) => Ok(rows@),
        Err(e) => Err(e@),
    }
}

fn snippets_exist(source: &str, symbols: &Vec<(String, SymbolKind, u32)>) -> (r: bool)
    ensures
        r == have_snippets(source@, found(symbols@)),
{
    let all = split_lines(source);
    let n: usize = all.len();
    let ghost seen = found(symbols@);
    assert(lines(source@).len() == n) by {
        assert(texts(all@).len() == all@.len());
    }
    let mut i: usize = 0;
    while i < symbols.len()
        invariant
            i <= symbols@.len(),
            seen == found(symbols@),
            n == lines(source@).len(),
            forall|k: int| 0 <= k < i ==> has_snippet(lines(source@), (#[trigger] seen[k]).2),
        decreases symbols@.len() - i,
    {
        let line: u32 = symbols[i].2;
        assert(seen[i as int].2 == line);
        let (from, to) = snippet_bounds(n, line);
        if from > to {
            assert(!has_snippet(lines(source@), seen[i as int].2));
            return false;
        }
        i += 1;
    }
    true
}

/// Makes the rows of a file from what the extraction of its symbols gave.
pub fn rows_from(
    file_id: i64,
    path: &str,
    source: &str,
    symbols: Result<Vec<(String, SymbolKind, u32)>, ExtractError>,
) -> (r: Result<FileRows, IndexError>)
    ensures
        indexed_view(r) == indexed(file_id, path@, source@, result_view(symbols)),
{
    match symbols {
        Err(e) => Err(IndexError::Extract(e)),
        Ok(symbols) => if snippets_exist(source, &symbols) {
            Ok(file_rows(file_id, path, source, &symbols))
        } else {
            Err(IndexError::Line)
        },
    }
}

/// Indexes a source: finds its symbols and makes the rows of its file.
pub fn index_source(file_id: i64, path: &str, source: &str, lang: Language) -> (r: Result<
    FileRows,
    IndexError,
>)
    ensures
        exists|parsed: Parsed| #[trigger]
            parses_to(lang, source@, parsed) && indexed_view(r) == indexed(
                file_id,
                path@,
                source@,
                extracted(path@, source@, lang, parsed),
            ),
{
    let symbols = SymbolExtractor::extract(path, source, lang);
    rows_from(file_id, path, source, symbols)
}

// ---------------------------------------------------------------------------
// Laws

/// Once what was indexed is noted, the file is not indexed again until its
/// content changes.
pub proof fn law_indexed_once(blob_sha: Seq<char>, other: Seq<char>)
    ensures
        !is_changed(Some(blob_sha), blob_sha),
        is_changed(Some(blob_sha), other) <==> other != blob_sha,
        is_changed(None, blob_sha),
{
}

/// A file leaves the index exactly if the repository does not hold it.
pub proof fn law_stale_files_leave(
    indexed: Seq<(i64, Seq<char>)>,
    files: Seq<ScannedView>,
    id: i64,
)
    ensures
        stale(indexed, files).contains(id) <==> exists|i: int|
            0 <= i < indexed.len() && (#[trigger] indexed[i]).0 == id && !is_tracked(
                files,
                indexed[i].1,
            ),
    decreases indexed.len(),
{
    if indexed.len() > 0 {
        let init = indexed.drop_last();
        let last = indexed[indexed.len() - 1];
        let rest = stale(init, files);
        let all = stale(indexed, files);
        law_stale_files_leave(init, files, id);
        broadcast use vstd::seq_lib::lemma_seq_contains_after_push;

        if rest.contains(id) {
            let i = choose|i: int|
                0 <= i < init.len() && (#[trigger] init[i]).0 == id && !is_tracked(
                    files,
                    init[i].1,
                );
            assert(indexed[i] == init[i]);
        }
        if all.contains(id) && !rest.contains(id) {
            assert(indexed[indexed.len() - 1].0 == id);
        }
        if exists|i: int|
            0 <= i < indexed.len() && (#[trigger] indexed[i]).0 == id && !is_tracked(
                files,
                indexed[i].1,
            ) {
            let i = choose|i: int|
                0 <= i < indexed.len() && (#[trigger] indexed[i]).0 == id && !is_tracked(
                    files,
                    indexed[i].1,
                );
            if i < init.len() {
                assert(init[i] == indexed[i]);
            }
        }
    }
}

/// A snippet is made of at most five lines of the source, with the line of the
/// symbol among them.
pub proof fn law_snippet_holds_the_line(all: Seq<Seq<char>>, line: u32)
    requires
        1 <= line <= all.len(),
    ensures
        has_snippet(all, line),
        snippet_start(line) <= line - 1 < snippet_end(line, all.len()) <= all.len(),
        snippet_end(line, all.len()) - snippet_start(line) <= 5,
{
}

/// The symbols that are searched for by name: functions, structures, classes and
/// implementations.
pub open spec fn searchable() -> spec_fn(SymbolView) -> bool {
    |s: SymbolView|
        s.kind == SymbolKind::Function || s.kind == SymbolKind::Struct || s.kind
            == SymbolKind::Class || s.kind == SymbolKind::Impl
}

proof fn lemma_terms_filter(
    file_id: i64,
    all: Seq<Seq<char>>,
    symbols: Seq<(Seq<char>, SymbolKind, u32)>,
)
    ensures
        symbol_terms(symbols) == symbol_rows(file_id, all, symbols).filter(
            searchable(),
        ).map_values(|s: SymbolView| code_terms(s.name, lower())),
    decreases symbols.len(),
{
    reveal(Seq::filter);
    let rows = symbol_rows(file_id, all, symbols);
    let f = |s: SymbolView| code_terms(s.name, lower());
    if symbols.len() == 0 {
        assert(rows.filter(searchable()).map_values(f) =~= Seq::empty());
    } else {
        let init = symbols.drop_last();
        lemma_terms_filter(file_id, all, init);
        assert(rows.drop_last() =~= symbol_rows(file_id, all, init));
        let before = rows.drop_last().filter(searchable());
        let last = rows.last();
        assert(last.name == symbols.last().0 && last.kind == symbols.last().1);
        assert(before.push(last).map_values(f) =~= before.map_values(f).push(f(last)));
    }
}

/// The search terms of a file are those of its symbols that are functions, structures,
/// classes or implementations, one text for each of them and in their order. Each symbol
/// has a row, with its name, its kind and its line.
pub proof fn law_terms_of_symbols(
    file_id: i64,
    path: Seq<char>,
    source: Seq<char>,
    symbols: Seq<(Seq<char>, SymbolKind, u32)>,
)
    ensures
        ({
            let r = rows_of(file_id, path, source, symbols);
            &&& r.symbols.len() == symbols.len()
            &&& forall|i: int|
                0 <= i < symbols.len() ==> (#[trigger] r.symbols[i]).file_id == file_id
                    && r.symbols[i].name == symbols[i].0 && r.symbols[i].kind == symbols[i].1
                    && r.symbols[i].line == symbols[i].2
            &&& r.symbol_terms == r.symbols.filter(searchable()).map_values(
                |s: SymbolView| code_terms(s.name, lower()),
            )
            &&& r.symbol_terms.len() == r.symbols.filter(
                |s: SymbolView| s.kind != SymbolKind::Import,
            ).len()
            &&& forall|i: int|
                0 <= i < symbols.len() && (#[trigger] symbols[i]).1 != SymbolKind::Import
                    ==> r.symbol_terms.contains(code_terms(symbols[i].0, lower()))
        }),
{
    let r = rows_of(file_id, path, source, symbols);
    lemma_terms_filter(file_id, lines(source), symbols);
    let no_import = |s: SymbolView| s.kind != SymbolKind::Import;
    assert(no_import =~= searchable()) by {
        assert forall|s: SymbolView| #[trigger] no_import(s) == searchable()(s) by {
            match s.kind {
                SymbolKind::Function => {},
                SymbolKind::Struct => {},
                SymbolKind::Class => {},
                SymbolKind::Impl => {},
                SymbolKind::Import => {},
            }
        }
    }
    let f = |s: SymbolView| code_terms(s.name, lower());
    let kept = r.symbols.filter(searchable());
    assert forall|i: int|
        0 <= i < symbols.len() && (#[trigger] symbols[i]).1
            != SymbolKind::Import implies r.symbol_terms.contains(
        code_terms(symbols[i].0, lower()),
    ) by {
        let row = r.symbols[i];
        assert(no_import(row));
        assert(searchable()(row));
        r.symbols.lemma_filter_contains(searchable(), i);
        let k = choose|k: int| 0 <= k < kept.len() && kept[k] == row;
        assert(kept.map_values(f)[k] == f(row));
    }
}

/// The snippet of a symbol is its line, with the two lines before it and the two behind
/// it as far as the source has them, and line feeds between.
pub proof fn law_snippet_of_symbol(
    file_id: i64,
    path: Seq<char>,
    source: Seq<char>,
    symbols: Seq<(Seq<char>, SymbolKind, u32)>,
    i: int,
    a: Seq<Seq<char>>,
    x: Seq<char>,
    b: Seq<Seq<char>>,
)
    requires
        0 <= i < symbols.len(),
        lines(source) == a + seq![x] + b,
        symbols[i].2 == a.len() + 1,
    ensures
        ({
            let got = rows_of(file_id, path, source, symbols).symbols[i].snippet;
            &&& a.len() >= 2 && b.len() >= 2 ==> got == join(
                seq![a[a.len() - 2], a[a.len() - 1], x, b[0], b[1]],
                "\n"@,
            )
            &&& a.len() <= 2 && b.len() <= 2 ==> got == join(a + seq![x] + b, "\n"@)
            &&& a.len() <= 2 && b.len() >= 2 ==> got == join(a + seq![x, b[0], b[1]], "\n"@)
            &&& a.len() >= 2 && b.len() <= 2 ==> got == join(
                seq![a[a.len() - 2], a[a.len() - 1], x] + b,
                "\n"@,
            )
        }),
{
    let all = a + seq![x] + b;
    let line = symbols[i].2;
    let part = all.subrange(snippet_start(line), snippet_end(line, all.len()));
    if a.len() >= 2 && b.len() >= 2 {
        assert(part =~= seq![a[a.len() - 2], a[a.len() - 1], x, b[0], b[1]]);
    }
    if a.len() <= 2 && b.len() <= 2 {
        assert(part =~= a + seq![x] + b);
    }
    if a.len() <= 2 && b.len() >= 2 {
        assert(part =~= a + seq![x, b[0], b[1]]);
    }
    if a.len() >= 2 && b.len() <= 2 {
        assert(part =~= seq![a[a.len() - 2], a[a.len() - 1], x] + b);
    }
}

/// A file cannot be indexed where a symbol is said to stand more than three lines behind
/// the end of the source, and can be otherwise.
pub proof fn law_symbols_stand_in_the_source(
    file_id: i64,
    path: Seq<char>,
    source: Seq<char>,
    symbols: Seq<(Seq<char>, SymbolKind, u32)>,
)
    ensures
        indexed(file_id, path, source, Ok(symbols)) == Err::<FileRowsView, IndexFailure>(
            IndexFailure::Line,
        ) <==> exists|i: int|
            0 <= i < symbols.len() && (#[trigger] symbols[i]).2 > lines(source).len() + 3,
{
    let all = lines(source);
    assert forall|i: int| 0 <= i < symbols.len() implies (has_snippet(all, (
    #[trigger] symbols[i]).2) <==> symbols[i].2 <= all.len() + 3) by {}
    if !have_snippets(source, symbols) {
        let i = choose|i: int|
            0 <= i < symbols.len() && !has_snippet(all, (#[trigger] symbols[i]).2);
        assert(symbols[i].2 > all.len() + 3);
    }
}

/// The index holds the start of a source, as much of it as takes up 512 KiB, and all of
/// one that is no longer.
pub proof fn law_body_of_file(
    file_id: i64,
    path: Seq<char>,
    source: Seq<char>,
    symbols: Seq<(Seq<char>, SymbolKind, u32)>,
)
    ensures
        ({
            let body = rows_of(file_id, path, source, symbols).body;
            &&& body.is_prefix_of(source)
            &&& encode_utf8(body).len() <= 512 * 1024
            &&& body == source || encode_utf8(source.take(body.len() + 1int)).len() > 512 * 1024
        }),
{
    law_byte_prefix(source, BODY_LIMIT as nat);
    if byte_prefix(source, BODY_LIMIT as nat) != source {
        law_cut_is_longest(source, BODY_LIMIT as nat);
    }
}

/// The snippet of a symbol that is said to stand just behind the source is the last lines
/// of it; one said to stand before the first line has the first two.
pub proof fn law_snippet_at_the_edges(all: Seq<Seq<char>>, line: u32)
    ensures
        all.len() < line <= all.len() + 3 && line >= 3 ==> snippet(all, line) == join(
            all.skip(line - 3),
            "\n"@,
        ),
        line == 0 && all.len() >= 2 ==> snippet(all, line) == join(all.take(2), "\n"@),
        line <= 3 && all.len() <= line + 2 ==> snippet(all, line) == join(all, "\n"@),
{
    let part = all.subrange(snippet_start(line), snippet_end(line, all.len()));
    if all.len() < line <= all.len() + 3 && line >= 3 {
        assert(part =~= all.skip(line - 3));
    }
    if line == 0 && all.len() >= 2 {
        assert(part =~= all.take(2));
    }
    if line <= 3 && all.len() <= line + 2 {
        assert(part =~= all);
    }
}

/// A file that has not changed is skipped. One that has is read, or only noted where its
/// language is unknown.
pub proof fn law_action_for(lang: Language)
    ensures
        action_for(lang, false) == FileAction::Skip,
        action_for(Language::Unknown, true) == FileAction::MarkIndexed,
        action_for(Language::Rust, true) == FileAction::Read,
        action_for(Language::Python, true) == FileAction::Read,
        action_for(Language::Go, true) == FileAction::Read,
{
}

} // verus!
