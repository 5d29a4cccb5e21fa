//! Resolves the import statements of the files of a repository to the files
//! that they import.
use std::collections::HashMap;
use std::collections::HashSet;
use vstd::hash_map::StringHashMap;
use vstd::prelude::*;

use crate::path::{
    are_components, canonical, canonical_path, components, extension, extension_of, file_name,
    file_name_of, is_part, join_path, law_canonical_decides, law_canonical_keeps_components,
    law_written_components, lemma_components, parent, parent_of, split_components, under,
    write_components, written,
};
use crate::text::{
    among, chars_of, contains, find, find_from, join, joined, lemma_find_is, replace, replace_all,
    replace_any, replace_chars, same, slice, split, split_at_any, split_words, strip_prefixes,
    texts, trim, trim_end, trim_end_any, trim_start, trim_start_any, trimmed, without_prefix,
    without_prefixes,
};
use crate::tokenizer::first_word;
use crate::use_paths::{can_expand, expand_rust_use, expandable, expanded};

verus! {

broadcast use vstd::std_specs::hash::group_hash_axioms;

// ---------------------------------------------------------------------------
// Looking up files

/// The file at `path`, in a map from canonical paths to files.
pub open spec fn at(files: Map<Seq<char>, i64>, path: Seq<char>) -> Option<i64> {
    if files.contains_key(canonical(path)) {
        Some(files[canonical(path)])
    } else {
        None
    }
}

/// The file at the first of the paths that leads to one.
pub open spec fn first_at(files: Map<Seq<char>, i64>, paths: Seq<Seq<char>>) -> Option<i64>
    decreases paths.len(),
{
    if paths.len() == 0 {
        None
    } else {
        match at(files, paths[0]) {
            Some(id) => Some(id),
            None => first_at(files, paths.drop_first()),
        }
    }
}

/// A list of the file, if there is one.
pub open spec fn listed(file: Option<i64>) -> Seq<i64> {
    match file {
        Some(id) => seq![id],
        None => Seq::empty(),
    }
}

fn file_at(path_to_id: &StringHashMap<i64>, path: &str) -> (r: Option<i64>)
    ensures
        r == at(path_to_id@, path@),
{
    let key = canonical_path(path);
    match path_to_id.get(key.as_str()) {
        Some(id) => Some(*id),
        None => None,
    }
}

fn first_file(path_to_id: &StringHashMap<i64>, paths: &Vec<String>) -> (r: Option<i64>)
    ensures
        r == first_at(path_to_id@, texts(paths@)),
{
    let mut i: usize = 0;
    assert(texts(paths@).skip(0) =~= texts(paths@));
    while i < paths.len()
        invariant
            i <= paths@.len(),
            first_at(path_to_id@, texts(paths@)) == first_at(
                path_to_id@,
                texts(paths@).skip(i as int),
            ),
        decreases paths@.len() - i,
    {
        let ghost rest = texts(paths@).skip(i as int);
        assert(rest[0] == paths@[i as int]@);
        assert(rest.drop_first() =~= texts(paths@).skip(i + 1));
        match file_at(path_to_id, paths[i].as_str()) {
            Some(id) => {
                return Some(id);
            },
            None => {},
        }
        i += 1;
    }
    None
}

fn list_of(file: Option<i64>) -> (r: Vec<i64>)
    ensures
        r@ == listed(file),
{
    let mut out: Vec<i64> = Vec::new();
    match file {
        Some(id) => {
            out.push(id);
        },
        None => {},
    }
    assert(out@ =~= listed(file));
    out
}

/// The directory of a path; the empty path where it has none.
pub open spec fn directory(p: Seq<char>) -> Seq<char> {
    match parent(p) {
        Some(d) => d,
        None => ""@,
    }
}

fn directory_of(p: &str) -> (r: String)
    ensures
        r@ == directory(p@),
{
    match parent_of(p) {
        Some(d) => d,
        None => "".to_owned(),
    }
}

// ---------------------------------------------------------------------------
// TypeScript and JavaScript

/// The module that an import statement names: what stands between the first
/// quotation mark and the next one like it.
pub open spec fn specifier(s: Seq<char>) -> Option<Seq<char>> {
    let start = find(s, among("\"'`"@));
    if start >= s.len() {
        None
    } else {
        let rest = s.skip(start + 1);
        let end = find(rest, among(seq![s[start]]));
        if end >= rest.len() {
            None
        } else {
            Some(rest.take(end))
        }
    }
}

/// Pulls the quoted module out of an import statement: `import { a } from "./b"`
/// gives `./b`.
pub fn extract_module_specifier(s: &str) -> (r: Option<String>)
    ensures
        match r {
            Some(m) => specifier(s@) == Some(m@),
            None => specifier(s@) is None,
        },
{
    let cs = chars_of(s);
    let start = find_from(&cs, 0, "\"'`");
    assert(cs@.skip(0) =~= cs@);
    if start >= cs.len() {
        return None;
    }
    let mark = cs[start];
    let ghost rest = cs@.skip(start + 1);
    let ghost p = among(seq![mark]);
    let mut i: usize = start + 1;
    while i < cs.len() && cs[i] != mark
        invariant
            start + 1 <= i <= cs@.len(),
            rest == cs@.skip(start + 1),
            p == among(seq![mark]),
            forall|j: int| 0 <= j < i - start - 1 ==> !p(#[trigger] rest[j]),
        decreases cs@.len() - i,
    {
        assert(rest[i - start - 1] == cs@[i as int]);
        assert(!seq![mark].contains(cs@[i as int]));
        i += 1;
    }
    proof {
        if i < cs@.len() {
            assert(rest[i - start - 1] == mark);
            assert(seq![mark][0] == mark);
            assert(seq![mark].contains(mark));
        }
        lemma_find_is(rest, p, i - start - 1);
    }
    if i >= cs.len() {
        return None;
    }
    let module = slice(&cs, start + 1, i);
    assert(module@ =~= rest.take(i - start - 1));
    Some(module)
}

/// The components with `.` dropped and each `..` taken together with what
/// stands before it; nothing where a `..` has nothing before it.
pub open spec fn collapsed(parts: Seq<Seq<char>>) -> Option<Seq<Seq<char>>>
    decreases parts.len(),
{
    if parts.len() == 0 {
        Some(Seq::empty())
    } else {
        match collapsed(parts.drop_last()) {
            None => None,
            Some(out) => if parts.last() == "."@ {
                Some(out)
            } else if parts.last() == ".."@ {
                if out.len() == 0 || out.last() == "/"@ {
                    None
                } else {
                    Some(out.drop_last())
                }
            } else {
                Some(out.push(parts.last()))
            },
        }
    }
}

/// The path without `.` and `..`; nothing where it leads out of the repository.
pub open spec fn normalized(p: Seq<char>) -> Option<Seq<char>> {
    match collapsed(components(p)) {
        Some(parts) => Some(written(parts)),
        None => None,
    }
}

/// Collapses `.` and `..` in a path without looking at any file, so that
/// `a/./b/../c` becomes `a/c`. A path that leads out of the repository is refused.
pub fn normalize_path(path: &str) -> (r: Option<String>)
    ensures
        match r {
            Some(p) => normalized(path@) == Some(p@),
            None => normalized(path@) is None,
        },
{
    let parts = split_components(path);
    let mut out: Vec<String> = Vec::new();
    let mut i: usize = 0;
    assert(texts(out@) =~= Seq::empty());
    while i < parts.len()
        invariant
            i <= parts@.len(),
            texts(parts@) == components(path@),
            collapsed(texts(parts@).take(i as int)) == Some(texts(out@)),
        decreases parts@.len() - i,
    {
        let ghost next = texts(parts@).take(i + 1);
        let ghost so_far = texts(out@);
        assert(next.drop_last() =~= texts(parts@).take(i as int));
        assert(next.last() == parts@[i as int]@);
        let part = parts[i].as_str();
        if same(part, ".") {
        } else if same(part, "..") {
            let n: usize = out.len();
            if n > 0 {
                assert(so_far.last() == out@[n - 1]@);
            }
            if n == 0 || same(out[n - 1].as_str(), "/") {
                proof {
                    lemma_collapse_fails(texts(parts@), i + 1);
                }
                return None;
            }
            out.pop();
            assert(texts(out@) =~= so_far.drop_last());
        } else {
            let kept = part.to_owned();
            out.push(kept);
            assert(texts(out@) =~= so_far.push(kept@));
        }
        i += 1;
    }
    assert(texts(parts@).take(i as int) =~= texts(parts@));
    Some(write_components(&out))
}

proof fn lemma_collapse_fails(parts: Seq<Seq<char>>, i: int)
    requires
        0 <= i <= parts.len(),
        collapsed(parts.take(i)) is None,
    ensures
        collapsed(parts) is None,
    decreases parts.len() - i,
{
    if i < parts.len() {
        assert(parts.take(i + 1).drop_last() =~= parts.take(i));
        lemma_collapse_fails(parts, i + 1);
    } else {
        assert(parts.take(i) =~= parts);
    }
}

/// The extensions of TypeScript and JavaScript sources, in the order in which
/// they are tried.
pub open spec fn script_extensions() -> Seq<Seq<char>> {
    seq!["ts"@, "tsx"@, "js"@, "jsx"@, "mts"@, "cts"@, "mjs"@, "cjs"@]
}

/// The paths that a module may stand at: the path itself, then with each
/// extension, then as a directory with an index file.
pub open spec fn script_paths(module: Seq<char>) -> Seq<Seq<char>> {
    seq![module] + script_extensions().map_values(|e: Seq<char>| module + "."@ + e)
        + script_extensions().map_values(|e: Seq<char>| under(module, "index."@ + e))
}

fn extension_list() -> (r: Vec<String>)
    ensures
        texts(r@) == script_extensions(),
{
    let mut out: Vec<String> = Vec::new();
    out.push("ts".to_owned());
    out.push("tsx".to_owned());
    out.push("js".to_owned());
    out.push("jsx".to_owned());
    out.push("mts".to_owned());
    out.push("cts".to_owned());
    out.push("mjs".to_owned());
    out.push("cjs".to_owned());
    assert(texts(out@) =~= script_extensions());
    out
}

fn script_path_list(module: &str) -> (r: Vec<String>)
    ensures
        texts(r@) == script_paths(module@),
{
    let exts = extension_list();
    let mut out: Vec<String> = Vec::new();
    out.push(module.to_owned());
    let ghost files = script_extensions().map_values(|e: Seq<char>| module@ + "."@ + e);
    let ghost dirs = script_extensions().map_values(|e: Seq<char>| under(module@, "index."@ + e));
    let mut i: usize = 0;
    while i < exts.len()
        invariant
            i <= exts@.len(),
            texts(exts@) == script_extensions(),
            files == script_extensions().map_values(|e: Seq<char>| module@ + "."@ + e),
            texts(out@) =~= seq![module@] + files.take(i as int),
        decreases exts@.len() - i,
    {
        assert(script_extensions()[i as int] == exts@[i as int]@);
        let ghost so_far = texts(out@);
        let mut path = module.to_owned();
        path.append(".");
        path.append(exts[i].as_str());
        out.push(path);
        assert(texts(out@) =~= so_far.push(path@));
        i += 1;
    }
    assert(files.take(i as int) =~= files);
    let mut j: usize = 0;
    while j < exts.len()
        invariant
            j <= exts@.len(),
            texts(exts@) == script_extensions(),
            dirs == script_extensions().map_values(|e: Seq<char>| under(module@, "index."@ + e)),
            texts(out@) =~= seq![module@] + files + dirs.take(j as int),
        decreases exts@.len() - j,
    {
        assert(script_extensions()[j as int] == exts@[j as int]@);
        let ghost so_far = texts(out@);
        let mut name = "index.".to_owned();
        name.append(exts[j].as_str());
        let path = join_path(module, name.as_str());
        out.push(path);
        assert(texts(out@) =~= so_far.push(path@));
        j += 1;
    }
    assert(dirs.take(j as int) =~= dirs);
    out
}

/// Whether a module is named by a path from the file that imports it.
pub open spec fn is_relative(module: Seq<char>) -> bool {
    "./"@.is_prefix_of(module) || "../"@.is_prefix_of(module)
}

/// The file that an import statement of a script at `from` names. Only relative
/// modules are looked up, and none outside the repository.
pub open spec fn script_target(
    import: Seq<char>,
    from: Seq<char>,
    files: Map<Seq<char>, i64>,
) -> Option<i64> {
    match specifier(import) {
        Some(module) => if is_relative(module) {
            match normalized(under(directory(from), module)) {
                Some(path) => first_at(files, script_paths(path)),
                None => None,
            }
        } else {
            None
        },
        None => None,
    }
}

/// Resolves an `import ... from './x'` or a `require('./x')` to a file.
pub fn resolve_ts_js(
    import_str: &str,
    from_path: &str,
    path_to_id: &StringHashMap<i64>,
) -> (r: Vec<i64>)
    ensures
        r@ == listed(script_target(import_str@, from_path@, path_to_id@)),
{
    let target = match extract_module_specifier(import_str) {
        Some(module) => {
            if without_prefix(module.as_str(), "./").is_some() || without_prefix(
                module.as_str(),
                "../",
            ).is_some() {
                let base = directory_of(from_path);
                let joined = join_path(base.as_str(), module.as_str());
                match normalize_path(joined.as_str()) {
                    Some(path) => {
                        let paths = script_path_list(path.as_str());
                        first_file(path_to_id, &paths)
                    },
                    None => None,
                }
            } else {
                None
            }
        },
        None => None,
    };
    list_of(target)
}

// ---------------------------------------------------------------------------
// Rust

/// The paths at which the module `crate::...` may stand.
pub open spec fn module_paths(tail: Seq<char>) -> Seq<Seq<char>> {
    let rel = replace(tail, "::"@, "/"@);
    seq!["src/"@ + rel + ".rs"@, "src/"@ + rel + "/mod.rs"@]
}

/// The file that the path of a `use` names, if it is one of this crate.
pub open spec fn module_target(path: Seq<char>, files: Map<Seq<char>, i64>) -> Option<i64> {
    if "crate::"@.is_prefix_of(path) {
        first_at(files, module_paths(path.skip("crate::"@.len() as int)))
    } else {
        None
    }
}

/// The files that the paths of a `use` name.
pub open spec fn module_targets(
    paths: Seq<Seq<char>>,
    files: Map<Seq<char>, i64>,
) -> Seq<i64>
    decreases paths.len(),
{
    if paths.len() == 0 {
        Seq::empty()
    } else {
        module_targets(paths.drop_last(), files) + listed(module_target(paths.last(), files))
    }
}

/// Resolves a `use` declaration to the files of the modules that it names.
pub fn resolve_rust(import_str: &str, path_to_id: &StringHashMap<i64>) -> (r: Vec<i64>)
    requires
        expandable(import_str@),
    ensures
        r@ == module_targets(expanded(import_str@), path_to_id@),
{
    let paths = expand_rust_use(import_str);
    let mut ids: Vec<i64> = Vec::new();
    let mut i: usize = 0;
    while i < paths.len()
        invariant
            i <= paths@.len(),
            ids@ == module_targets(texts(paths@).take(i as int), path_to_id@),
        decreases paths@.len() - i,
    {
        let ghost next = texts(paths@).take(i + 1);
        assert(next.drop_last() =~= texts(paths@).take(i as int));
        assert(next.last() == paths@[i as int]@);
        let target = match without_prefix(paths[i].as_str(), "crate::") {
            Some(tail) => {
                let rel = replace_all(tail.as_str(), "::", "/");
                let mut file = "src/".to_owned();
                file.append(rel.as_str());
                let mut inner = file.clone();
                file.append(".rs");
                inner.append("/mod.rs");
                let mut candidates: Vec<String> = Vec::new();
                candidates.push(file);
                candidates.push(inner);
                assert(texts(candidates@) =~= module_paths(tail@));
                first_file(path_to_id, &candidates)
            },
            None => None,
        };
        let mut found = list_of(target);
        ids.append(&mut found);
        i += 1;
    }
    assert(texts(paths@).take(i as int) =~= texts(paths@));
    ids
}

// ---------------------------------------------------------------------------
// Python

/// The module that a Python import names first, with the dots before it.
pub open spec fn python_module(import: Seq<char>) -> Option<Seq<char>> {
    if "from "@.is_prefix_of(import) {
        Some(first_word(import.skip("from "@.len() as int)))
    } else if "import "@.is_prefix_of(import) {
        Some(first_word(import.skip("import "@.len() as int)))
    } else {
        None
    }
}

/// The directory `n` levels above `dir`.
pub open spec fn ascended(dir: Seq<char>, n: nat) -> Seq<char>
    decreases n,
{
    if n == 0 {
        dir
    } else {
        directory(ascended(dir, (n - 1) as nat))
    }
}

/// The directory from which a module with `dots` dots before it is looked up:
/// one dot is the directory of the importing file, each further one leads up.
pub open spec fn package(from: Seq<char>, dots: nat) -> Seq<char> {
    ascended(
        directory(from),
        if dots > 1 {
            (dots - 1) as nat
        } else {
            0
        },
    )
}

/// The paths at which a module may stand, from the importing file and from the
/// root of the repository; dots alone name the package itself.
pub open spec fn python_paths(raw: Seq<char>, from: Seq<char>) -> Seq<Seq<char>> {
    let module = trim_start(raw, among("."@));
    let base = package(from, (raw.len() - module.len()) as nat);
    if module.len() == 0 {
        seq![under(base, "__init__.py"@)]
    } else {
        let rel = replace_chars(module, among("."@), '/');
        seq![
            under(base, rel + ".py"@),
            under(base, rel + "/__init__.py"@),
            rel + ".py"@,
            rel + "/__init__.py"@,
        ]
    }
}

/// The file that a Python import names.
pub open spec fn python_target(
    import: Seq<char>,
    from: Seq<char>,
    files: Map<Seq<char>, i64>,
) -> Option<i64> {
    match python_module(import) {
        Some(raw) => first_at(files, python_paths(raw, from)),
        None => None,
    }
}

fn word_at_start(s: &str) -> (r: String)
    ensures
        r@ == first_word(s@),
{
    let ws = split_words(s);
    assert(texts(ws@).len() == ws@.len());
    if ws.len() == 0 {
        let none = String::new();
        assert(none@ =~= Seq::empty());
        none
    } else {
        assert(texts(ws@)[0] == ws@[0]@);
        ws[0].clone()
    }
}

proof fn lemma_trim_start_length(s: Seq<char>, p: spec_fn(char) -> bool)
    ensures
        trim_start(s, p).len() <= s.len(),
    decreases s.len(),
{
    if s.len() > 0 && p(s[0]) {
        lemma_trim_start_length(s.drop_first(), p);
    }
}

fn python_path_list(raw: &str, from_path: &str) -> (r: Vec<String>)
    ensures
        texts(r@) == python_paths(raw@, from_path@),
{
    let module = trim_start_any(raw, ".");
    let all = chars_of(raw);
    let rest = chars_of(module.as_str());
    proof {
        lemma_trim_start_length(raw@, among("."@));
    }
    let dots: usize = all.len() - rest.len();
    let mut base = directory_of(from_path);
    let mut up: usize = 1;
    while up < dots
        invariant
            1 <= up,
            up <= dots || up == 1,
            base@ == ascended(directory(from_path@), (up - 1) as nat),
        decreases dots - up,
    {
        base = directory_of(base.as_str());
        up += 1;
    }
    let mut out: Vec<String> = Vec::new();
    if rest.len() == 0 {
        out.push(join_path(base.as_str(), "__init__.py"));
        assert(texts(out@) =~= python_paths(raw@, from_path@));
        return out;
    }
    let rel = replace_any(module.as_str(), ".", '/');
    let mut file = rel.clone();
    file.append(".py");
    let mut inner = rel;
    inner.append("/__init__.py");
    out.push(join_path(base.as_str(), file.as_str()));
    out.push(join_path(base.as_str(), inner.as_str()));
    out.push(file);
    out.push(inner);
    assert(texts(out@) =~= python_paths(raw@, from_path@));
    out
}

/// Resolves a Python import to a file.
pub fn resolve_python(
    import_str: &str,
    from_path: &str,
    path_to_id: &StringHashMap<i64>,
) -> (r: Vec<i64>)
    ensures
        r@ == listed(python_target(import_str@, from_path@, path_to_id@)),
{
    let raw = match without_prefix(import_str, "from ") {
        Some(tail) => word_at_start(tail.as_str()),
        None => match without_prefix(import_str, "import ") {
            Some(tail) => word_at_start(tail.as_str()),
            None => {
                return list_of(None);
            },
        },
    };
    let paths = python_path_list(raw.as_str(), from_path);
    list_of(first_file(path_to_id, &paths))
}

// ---------------------------------------------------------------------------
// Go

/// Numbered texts: the paths of files, or import statements by the file that holds
/// them.
pub open spec fn numbered(files: Seq<(i64, String)>) -> Seq<(i64, Seq<char>)> {
    files.map_values(|f: (i64, String)| (f.0, f.1@))
}

/// Whether a path names a test, generated code or a mock, which no import is
/// resolved to.
pub open spec fn is_skipped(path: Seq<char>) -> bool {
    match file_name(path) {
        Some(name) => {
            ||| "_test.go"@.is_suffix_of(name)
            ||| ".pb.go"@.is_suffix_of(name)
            ||| "mock_"@.is_prefix_of(name) && ".go"@.is_suffix_of(name)
        },
        None => false,
    }
}

/// The directories of the files, in the order in which they are met first.
pub open spec fn directory_names(files: Seq<(i64, Seq<char>)>) -> Seq<Seq<char>>
    decreases files.len(),
{
    if files.len() == 0 {
        Seq::empty()
    } else {
        let rest = directory_names(files.drop_last());
        match parent(files.last().1) {
            Some(dir) => if rest.contains(dir) {
                rest
            } else {
                rest.push(dir)
            },
            None => rest,
        }
    }
}

/// The files in the directory `dir`, without those that are skipped.
pub open spec fn in_directory(files: Seq<(i64, Seq<char>)>, dir: Seq<char>) -> Seq<i64>
    decreases files.len(),
{
    if files.len() == 0 {
        Seq::empty()
    } else {
        let rest = in_directory(files.drop_last(), dir);
        if parent(files.last().1) == Some(dir) && !is_skipped(files.last().1) {
            rest.push(files.last().0)
        } else {
            rest
        }
    }
}

/// The directories of the files, each with the files in it.
pub open spec fn directories(files: Seq<(i64, Seq<char>)>) -> Seq<(Seq<char>, Seq<i64>)> {
    directory_names(files).map_values(|dir: Seq<char>| (dir, in_directory(files, dir)))
}

/// Whether the components of `suffix` are the last ones of `dir`.
pub open spec fn ends_in(dir: Seq<char>, suffix: Seq<char>) -> bool {
    components(suffix).len() > 0 && components(suffix).is_suffix_of(components(dir))
}

/// Whether one of the directories ends in `suffix`.
pub open spec fn some_ends_in(dirs: Seq<(Seq<char>, Seq<i64>)>, suffix: Seq<char>) -> bool {
    exists|i: int| 0 <= i < dirs.len() && ends_in((#[trigger] dirs[i]).0, suffix)
}

/// The files of all directories that end in `suffix`.
pub open spec fn files_ending_in(
    dirs: Seq<(Seq<char>, Seq<i64>)>,
    suffix: Seq<char>,
) -> Seq<i64>
    decreases dirs.len(),
{
    if dirs.len() == 0 {
        Seq::empty()
    } else {
        let rest = files_ending_in(dirs.drop_last(), suffix);
        if ends_in(dirs.last().0, suffix) {
            rest + dirs.last().1
        } else {
            rest
        }
    }
}

fn ends_with(s: &str, tail: &str) -> (r: bool)
    ensures
        r == tail@.is_suffix_of(s@),
{
    let cs = chars_of(s);
    let ts = chars_of(tail);
    if ts.len() > cs.len() {
        return false;
    }
    let at: usize = cs.len() - ts.len();
    let piece = slice(&cs, at, cs.len());
    same(piece.as_str(), tail)
}

fn skipped(path: &str) -> (r: bool)
    ensures
        r == is_skipped(path@),
{
    match file_name_of(path) {
        Some(name) => ends_with(name.as_str(), "_test.go") || ends_with(name.as_str(), ".pb.go")
            || (without_prefix(name.as_str(), "mock_").is_some() && ends_with(
            name.as_str(),
            ".go",
        )),
        None => false,
    }
}

/// Lists of files by name.
struct Groups {
    slots: StringHashMap<usize>,
    lists: Vec<Vec<i64>>,
}

impl View for Groups {
    type V = Map<Seq<char>, Seq<i64>>;

    closed spec fn view(&self) -> Map<Seq<char>, Seq<i64>> {
        Map::new(
            |name: Seq<char>| self.slots@.contains_key(name),
            |name: Seq<char>| self.lists@[self.slots@[name] as int]@,
        )
    }
}

/// The list under a name, and the empty one where there is none.
spec fn list_under(groups: Map<Seq<char>, Seq<i64>>, name: Seq<char>) -> Seq<i64> {
    if groups.contains_key(name) {
        groups[name]
    } else {
        Seq::empty()
    }
}

impl Groups {
    /// Every name has a list of its own.
    closed spec fn wf(self) -> bool {
        &&& forall|name: Seq<char>| #[trigger]
            self.slots@.contains_key(name) ==> self.slots@[name] < self.lists@.len()
        &&& forall|a: Seq<char>, b: Seq<char>|
            #![trigger self.slots@[a], self.slots@[b]]
            self.slots@.contains_key(a) && self.slots@.contains_key(b) && self.slots@[a]
                == self.slots@[b] ==> a == b
    }

    fn new() -> (r: Groups)
        ensures
            r.wf(),
            r@ == Map::<Seq<char>, Seq<i64>>::empty(),
    {
        let r = Groups { slots: StringHashMap::new(), lists: Vec::new() };
        assert(r@ =~= Map::empty());
        r
    }

    /// Appends files to the list under a name.
    fn add_all(&mut self, name: String, ids: &Vec<i64>)
        requires
            old(self).wf(),
        ensures
            final(self).wf(),
            final(self)@ == old(self)@.insert(name@, list_under(old(self)@, name@) + ids@),
    {
        let ghost before = self@;
        let ghost slots0 = self.slots@;
        let ghost lists0 = self.lists@;
        let known: Option<usize> = match self.slots.get(name.as_str()) {
            Some(k) => Some(*k),
            None => None,
        };
        let slot: usize = match known {
            Some(k) => k,
            None => {
                let k: usize = self.lists.len();
                self.lists.push(Vec::new());
                let key = name.clone();
                self.slots.insert(key, k);
                k
            },
        };
        let ghost first = list_under(before, name@);
        assert(self.lists@[slot as int]@ =~= first);
        assert(self.slots@ =~= slots0.insert(name@, slot));
        let ghost lists1 = self.lists@;
        let mut i: usize = 0;
        while i < ids.len()
            invariant
                i <= ids@.len(),
                slot < self.lists@.len() == lists1.len(),
                self.slots@ == slots0.insert(name@, slot),
                self.lists@[slot as int]@ =~= first + ids@.take(i as int),
                forall|k: int|
                    0 <= k < lists1.len() && k != slot ==> #[trigger] self.lists@[k] == lists1[k],
            decreases ids@.len() - i,
        {
            self.lists[slot].push(ids[i]);
            i += 1;
        }
        proof {
            assert(ids@.take(i as int) =~= ids@);
            let want = before.insert(name@, first + ids@);
            assert forall|other: Seq<char>| #[trigger] self@.contains_key(other) implies self@[other]
                == want[other] by {
                if other != name@ {
                    assert(slots0.contains_key(other));
                    assert(slots0[other] != slot);
                    assert(self.lists@[slots0[other] as int] == lists0[slots0[other] as int]);
                }
            }
            assert(self@ =~= want);
        }
    }

    fn get(&self, name: &str) -> (r: Option<&Vec<i64>>)
        requires
            self.wf(),
        ensures
            match r {
                Some(ids) => self@.contains_key(name@) && self@[name@] == ids@,
                None => !self@.contains_key(name@),
            },
    {
        match self.slots.get(name) {
            Some(k) => Some(&self.lists[*k]),
            None => None,
        }
    }
}

fn copy_ids(ids: &Vec<i64>) -> (r: Vec<i64>)
    ensures
        r@ == ids@,
{
    let mut out: Vec<i64> = Vec::new();
    let mut i: usize = 0;
    while i < ids.len()
        invariant
            i <= ids@.len(),
            out@ =~= ids@.take(i as int),
        decreases ids@.len() - i,
    {
        out.push(ids[i]);
        i += 1;
    }
    assert(out@ =~= ids@);
    out
}

/// The texts from a position on.
fn tail_of(parts: &Vec<String>, from: usize) -> (r: Vec<String>)
    requires
        from <= parts@.len(),
    ensures
        texts(r@) == texts(parts@).skip(from as int),
{
    let mut out: Vec<String> = Vec::new();
    let mut i: usize = from;
    while i < parts.len()
        invariant
            from <= i <= parts@.len(),
            texts(out@) =~= texts(parts@).subrange(from as int, i as int),
        decreases parts@.len() - i,
    {
        let ghost so_far = texts(out@);
        let part = parts[i].clone();
        out.push(part);
        assert(texts(out@) =~= so_far.push(part@));
        i += 1;
    }
    assert(texts(out@) =~= texts(parts@).skip(from as int));
    out
}

/// Directories with their files, with texts for their paths.
pub open spec fn dir_views(dirs: Seq<(String, Vec<i64>)>) -> Seq<(Seq<char>, Seq<i64>)> {
    dirs.map_values(|d: (String, Vec<i64>)| (d.0@, d.1@))
}

/// The files of the directories by all that their paths end in.
spec fn suffix_map(dirs: Seq<(Seq<char>, Seq<i64>)>) -> Map<Seq<char>, Seq<i64>> {
    Map::new(
        |key: Seq<char>| key == canonical(key) && some_ends_in(dirs, key),
        |key: Seq<char>| files_ending_in(dirs, key),
    )
}

/// Whether the components of `key` are those from one of the first `n` on.
spec fn is_tail(parts: Seq<Seq<char>>, key: Seq<char>, n: int) -> bool {
    exists|j: int| 0 <= j < n && components(key) == #[trigger] parts.skip(j)
}

/// [`suffix_map`] with one more directory, by the first `n` of its tails.
spec fn partial_map(
    done: Seq<(Seq<char>, Seq<i64>)>,
    parts: Seq<Seq<char>>,
    ids: Seq<i64>,
    n: int,
) -> Map<Seq<char>, Seq<i64>> {
    Map::new(
        |key: Seq<char>| key == canonical(key) && (some_ends_in(done, key) || is_tail(parts, key, n)),
        |key: Seq<char>|
            if is_tail(parts, key, n) {
                files_ending_in(done, key) + ids
            } else {
                files_ending_in(done, key)
            },
    )
}

proof fn lemma_none_ends_in(dirs: Seq<(Seq<char>, Seq<i64>)>, suffix: Seq<char>)
    requires
        !some_ends_in(dirs, suffix),
    ensures
        files_ending_in(dirs, suffix).len() == 0,
    decreases dirs.len(),
{
    if dirs.len() > 0 {
        let init = dirs.drop_last();
        assert(!ends_in(dirs[dirs.len() - 1].0, suffix));
        assert forall|i: int| 0 <= i < init.len() implies !ends_in((#[trigger] init[i]).0, suffix) by {
            assert(init[i] == dirs[i]);
        }
        lemma_none_ends_in(init, suffix);
    }
}

proof fn lemma_some_ends_in(dirs: Seq<(Seq<char>, Seq<i64>)>, suffix: Seq<char>)
    requires
        dirs.len() > 0,
    ensures
        some_ends_in(dirs, suffix) <==> some_ends_in(dirs.drop_last(), suffix) || ends_in(
            dirs.last().0,
            suffix,
        ),
{
    let init = dirs.drop_last();
    if some_ends_in(init, suffix) {
        let i = choose|i: int| 0 <= i < init.len() && ends_in((#[trigger] init[i]).0, suffix);
        assert(dirs[i] == init[i]);
    }
    if ends_in(dirs.last().0, suffix) {
        assert(ends_in(dirs[dirs.len() - 1].0, suffix));
    }
    if some_ends_in(dirs, suffix) {
        let i = choose|i: int| 0 <= i < dirs.len() && ends_in((#[trigger] dirs[i]).0, suffix);
        if i < init.len() {
            assert(init[i] == dirs[i]);
        }
    }
}

/// The tails of a path are all that it ends in.
proof fn lemma_tails(dir: Seq<char>, key: Seq<char>)
    ensures
        is_tail(components(dir), key, components(dir).len() as int) <==> ends_in(dir, key),
{
    let parts = components(dir);
    let end = components(key);
    if is_tail(parts, key, parts.len() as int) {
        let j = choose|j: int| 0 <= j < parts.len() && end == #[trigger] parts.skip(j);
        assert(end =~= parts.subrange(parts.len() - end.len(), parts.len() as int));
    }
    if ends_in(dir, key) {
        let j = parts.len() - end.len();
        assert(end =~= parts.skip(j));
    }
}

proof fn lemma_tail_components(parts: Seq<Seq<char>>, n: int)
    requires
        are_components(parts),
        0 <= n <= parts.len(),
    ensures
        components(written(parts.skip(n))) == parts.skip(n),
        canonical(written(parts.skip(n))) == written(parts.skip(n)),
{
    let tail = parts.skip(n);
    assert forall|k: int| 0 <= k < tail.len() implies is_part(#[trigger] tail[k]) || (k == 0 && (
    tail[k] == "/"@ || tail[k] == "."@)) by {
        assert(tail[k] == parts[k + n]);
    }
    law_written_components(tail);
}

proof fn lemma_one_more_tail(
    done: Seq<(Seq<char>, Seq<i64>)>,
    parts: Seq<Seq<char>>,
    ids: Seq<i64>,
    n: int,
)
    requires
        are_components(parts),
        0 <= n < parts.len(),
    ensures
        ({
            let key = written(parts.skip(n));
            let map = partial_map(done, parts, ids, n);
            partial_map(done, parts, ids, n + 1) == map.insert(key, list_under(map, key) + ids)
        }),
{
    let key = written(parts.skip(n));
    lemma_tail_components(parts, n);
    let map = partial_map(done, parts, ids, n);
    let next = partial_map(done, parts, ids, n + 1);
    let want = map.insert(key, list_under(map, key) + ids);
    if is_tail(parts, key, n) {
        let j = choose|j: int| 0 <= j < n && components(key) == #[trigger] parts.skip(j);
        assert(parts.skip(j).len() == parts.skip(n).len());
    }
    assert(is_tail(parts, key, n + 1)) by {
        assert(components(key) == parts.skip(n));
    }
    if !some_ends_in(done, key) {
        lemma_none_ends_in(done, key);
        assert(files_ending_in(done, key) =~= Seq::empty());
    }
    assert forall|other: Seq<char>| other != key && other == canonical(other) implies is_tail(
        parts,
        other,
        n + 1,
    ) == #[trigger] is_tail(parts, other, n) by {
        law_canonical_decides(key, other);
        if is_tail(parts, other, n + 1) {
            let j = choose|j: int| 0 <= j < n + 1 && components(other) == #[trigger] parts.skip(j);
            assert(j != n);
        }
        if is_tail(parts, other, n) {
            let j = choose|j: int| 0 <= j < n && components(other) == #[trigger] parts.skip(j);
            assert(0 <= j < n + 1 && components(other) == parts.skip(j));
        }
    }
    assert forall|other: Seq<char>| #[trigger] next.contains_key(other) <==> want.contains_key(
        other,
    ) by {
        if other != key && other == canonical(other) {
            assert(is_tail(parts, other, n + 1) == is_tail(parts, other, n));
        }
    }
    assert forall|other: Seq<char>| #[trigger] next.contains_key(other) implies next[other]
        == want[other] by {
        if other != key {
            assert(is_tail(parts, other, n + 1) == is_tail(parts, other, n));
        }
    }
    assert(next =~= want);
}

/// The directories of a repository with their files, for the resolution of Go
/// imports.
pub struct GoDirIndex {
    dirs: Ghost<Seq<(Seq<char>, Seq<i64>)>>,
    by_suffix: Groups,
}

impl View for GoDirIndex {
    type V = Seq<(Seq<char>, Seq<i64>)>;

    closed spec fn view(&self) -> Seq<(Seq<char>, Seq<i64>)> {
        self.dirs@
    }
}

impl GoDirIndex {
    #[verifier::type_invariant]
    closed spec fn wf(self) -> bool {
        self.by_suffix.wf() && self.by_suffix@ == suffix_map(self.dirs@)
    }

    /// An index of the given directories.
    pub fn new(dirs: &Vec<(String, Vec<i64>)>) -> (r: GoDirIndex)
        ensures
            r@ == dir_views(dirs@),
    {
        let ghost all = dir_views(dirs@);
        let mut by_suffix = Groups::new();
        let mut i: usize = 0;
        proof {
            assert(by_suffix@ =~= suffix_map(all.take(0)));
        }
        while i < dirs.len()
            invariant
                i <= dirs@.len(),
                all == dir_views(dirs@),
                by_suffix.wf(),
                by_suffix@ == suffix_map(all.take(i as int)),
            decreases dirs@.len() - i,
        {
            let parts = split_components(dirs[i].0.as_str());
            let ids = &dirs[i].1;
            let ghost dir = dirs@[i as int].0@;
            let ghost done = all.take(i as int);
            let ghost next = all.take(i + 1);
            proof {
                lemma_components(dir);
                assert(all[i as int] == (dir, ids@));
                assert(next.drop_last() =~= done);
                assert(by_suffix@ =~= partial_map(done, texts(parts@), ids@, 0));
            }
            let mut n: usize = 0;
            while n < parts.len()
                invariant
                    n <= parts@.len(),
                    are_components(texts(parts@)),
                    by_suffix.wf(),
                    by_suffix@ == partial_map(done, texts(parts@), ids@, n as int),
                decreases parts@.len() - n,
            {
                let tail = tail_of(&parts, n);
                let key = write_components(&tail);
                proof {
                    lemma_one_more_tail(done, texts(parts@), ids@, n as int);
                }
                by_suffix.add_all(key, ids);
                n += 1;
            }
            proof {
                assert forall|key: Seq<char>|
                    #![trigger some_ends_in(next, key)]
                    some_ends_in(next, key) == (some_ends_in(done, key) || is_tail(
                        texts(parts@),
                        key,
                        n as int,
                    )) && files_ending_in(next, key) == if is_tail(texts(parts@), key, n as int) {
                        files_ending_in(done, key) + ids@
                    } else {
                        files_ending_in(done, key)
                    } by {
                    lemma_tails(dir, key);
                    lemma_some_ends_in(next, key);
                }
                let have = partial_map(done, texts(parts@), ids@, n as int);
                let want = suffix_map(next);
                assert forall|key: Seq<char>| #[trigger] have.contains_key(key) <==> want.contains_key(
                    key,
                ) by {
                    assert(some_ends_in(next, key) == (some_ends_in(done, key) || is_tail(
                        texts(parts@),
                        key,
                        n as int,
                    )));
                }
                assert forall|key: Seq<char>| #[trigger] have.contains_key(key) implies have[key]
                    == want[key] by {
                    assert(some_ends_in(next, key));
                }
                assert(have =~= want);
            }
            i += 1;
        }
        assert(all.take(i as int) =~= all);
        GoDirIndex { dirs: Ghost(all), by_suffix }
    }

    /// The files of all directories that end in a path, if there is one.
    fn ending_in(&self, suffix: &str) -> (r: Option<&Vec<i64>>)
        ensures
            match r {
                Some(ids) => some_ends_in(self@, suffix@) && ids@ == files_ending_in(self@, suffix@),
                None => !some_ends_in(self@, suffix@),
            },
    {
        proof {
            use_type_invariant(self);
            law_canonical_keeps_components(suffix@);
            lemma_same_ending(self@, suffix@, canonical(suffix@));
        }
        let key = canonical_path(suffix);
        self.by_suffix.get(key.as_str())
    }
}

proof fn lemma_same_ending(dirs: Seq<(Seq<char>, Seq<i64>)>, a: Seq<char>, b: Seq<char>)
    requires
        components(a) == components(b),
    ensures
        some_ends_in(dirs, a) == some_ends_in(dirs, b),
        files_ending_in(dirs, a) == files_ending_in(dirs, b),
    decreases dirs.len(),
{
    if dirs.len() > 0 {
        lemma_same_ending(dirs.drop_last(), a, b);
        lemma_some_ends_in(dirs, a);
        lemma_some_ends_in(dirs, b);
    }
}

/// Lists the files of each directory, for the resolution of Go imports.
pub fn build_go_dir_index(files: &Vec<(i64, String)>) -> (r: GoDirIndex)
    ensures
        r@ == directories(numbered(files@)),
{
    let ghost all = numbered(files@);
    let mut names: Vec<String> = Vec::new();
    let mut members = Groups::new();
    let mut i: usize = 0;
    assert(texts(names@) =~= Seq::empty());
    while i < files.len()
        invariant
            i <= files@.len(),
            all == numbered(files@),
            members.wf(),
            texts(names@) == directory_names(all.take(i as int)),
            forall|d: Seq<char>| #[trigger]
                members@.contains_key(d) <==> directory_names(all.take(i as int)).contains(d),
            forall|d: Seq<char>| #[trigger]
                list_under(members@, d) == in_directory(all.take(i as int), d),
        decreases files@.len() - i,
    {
        let ghost done = all.take(i as int);
        let ghost next = all.take(i + 1);
        let ghost members0 = members@;
        proof {
            assert(next.drop_last() =~= done);
            assert(next.last() == (files@[i as int].0, files@[i as int].1@));
        }
        match parent_of(files[i].1.as_str()) {
            Some(dir) => {
                let mut ids: Vec<i64> = Vec::new();
                if !skipped(files[i].1.as_str()) {
                    ids.push(files[i].0);
                }
                let ghost so_far = texts(names@);
                if members.get(dir.as_str()).is_none() {
                    let name = dir.clone();
                    names.push(name);
                    assert(texts(names@) =~= so_far.push(dir@));
                }
                members.add_all(dir, &ids);
                proof {
                    broadcast use vstd::seq_lib::lemma_seq_contains_after_push;

                    assert(list_under(members0, dir@) == in_directory(done, dir@));
                    assert(in_directory(done, dir@) + ids@ =~= in_directory(next, dir@));
                    assert forall|d: Seq<char>| #[trigger]
                        members@.contains_key(d) <==> directory_names(next).contains(d) by {
                        assert(members0.contains_key(d) <==> directory_names(done).contains(d));
                    }
                    assert forall|d: Seq<char>| #[trigger] list_under(members@, d) == in_directory(
                        next,
                        d,
                    ) by {
                        assert(list_under(members0, d) == in_directory(done, d));
                    }
                }
            },
            None => {
                proof {
                    assert forall|d: Seq<char>| #[trigger] list_under(members@, d) == in_directory(
                        next,
                        d,
                    ) by {
                        assert(list_under(members0, d) == in_directory(done, d));
                    }
                }
            },
        }
        i += 1;
    }
    assert(all.take(i as int) =~= all);
    let mut dirs: Vec<(String, Vec<i64>)> = Vec::new();
    let mut k: usize = 0;
    while k < names.len()
        invariant
            k <= names@.len(),
            members.wf(),
            texts(names@) == directory_names(all),
            forall|d: Seq<char>| #[trigger]
                members@.contains_key(d) <==> directory_names(all).contains(d),
            forall|d: Seq<char>| #[trigger] list_under(members@, d) == in_directory(all, d),
            dir_views(dirs@) =~= directories(all).take(k as int),
        decreases names@.len() - k,
    {
        let ghost so_far = dir_views(dirs@);
        let ghost name = names@[k as int]@;
        proof {
            assert(directory_names(all)[k as int] == name);
            assert(directory_names(all).contains(name));
            assert(list_under(members@, name) == in_directory(all, name));
        }
        if let Some(ids) = members.get(names[k].as_str()) {
            let dir = names[k].clone();
            let entry = (dir, copy_ids(ids));
            dirs.push(entry);
            assert(dir_views(dirs@) =~= so_far.push((name, entry.1@)));
        }
        k += 1;
    }
    assert(directories(all).take(k as int) =~= directories(all));
    GoDirIndex::new(&dirs)
}

/// The pieces that are not empty.
pub open spec fn non_empty(pieces: Seq<Seq<char>>) -> Seq<Seq<char>>
    decreases pieces.len(),
{
    if pieces.len() == 0 {
        Seq::empty()
    } else if pieces.last().len() == 0 {
        non_empty(pieces.drop_last())
    } else {
        non_empty(pieces.drop_last()).push(pieces.last())
    }
}

/// The segments of the package path that a Go import names.
pub open spec fn go_segments(import: Seq<char>) -> Seq<Seq<char>> {
    let bare = trim(strip_prefixes(trim(import), "import"@));
    let package = trim_end(trim_start(bare, among("\""@)), among("\""@));
    non_empty(split(package, among("/"@)))
}

/// The files of all directories that end in the last `n` segments, or, where none
/// does, in fewer of them.
pub open spec fn go_targets(
    segments: Seq<Seq<char>>,
    n: nat,
    dirs: Seq<(Seq<char>, Seq<i64>)>,
) -> Seq<i64>
    decreases n,
{
    if n == 0 {
        Seq::empty()
    } else {
        let suffix = join(segments.skip(segments.len() - n), "/"@);
        if some_ends_in(dirs, suffix) {
            files_ending_in(dirs, suffix)
        } else {
            go_targets(segments, (n - 1) as nat, dirs)
        }
    }
}

/// Resolves a Go import to the files of its package: those of all directories that
/// end in the most segments of the package path.
pub fn resolve_go(import_str: &str, go_dir_index: &GoDirIndex) -> (r: Vec<i64>)
    ensures
        r@ == go_targets(
            go_segments(import_str@),
            go_segments(import_str@).len(),
            go_dir_index@,
        ),
{
    let bare = trimmed(import_str);
    let bare = without_prefixes(bare.as_str(), "import");
    let bare = trimmed(bare.as_str());
    let package = trim_start_any(bare.as_str(), "\"");
    let package = trim_end_any(package.as_str(), "\"");
    let pieces = split_at_any(package.as_str(), "/");
    let mut segments: Vec<String> = Vec::new();
    let mut i: usize = 0;
    assert(texts(segments@) =~= Seq::empty());
    while i < pieces.len()
        invariant
            i <= pieces@.len(),
            texts(segments@) == non_empty(texts(pieces@).take(i as int)),
        decreases pieces@.len() - i,
    {
        let ghost next = texts(pieces@).take(i + 1);
        let ghost so_far = texts(segments@);
        assert(next.drop_last() =~= texts(pieces@).take(i as int));
        assert(next.last() == pieces@[i as int]@);
        if !pieces[i].as_str().is_empty() {
            let piece = pieces[i].clone();
            segments.push(piece);
            assert(texts(segments@) =~= so_far.push(piece@));
        }
        i += 1;
    }
    assert(texts(pieces@).take(i as int) =~= texts(pieces@));
    let ghost all = texts(segments@);
    let ghost dirs = go_dir_index@;
    let total: usize = segments.len();
    let mut n: usize = total;
    while n > 0
        invariant
            n <= total == segments@.len(),
            all == texts(segments@),
            all == go_segments(import_str@),
            dirs == go_dir_index@,
            go_targets(all, all.len(), dirs) == go_targets(all, n as nat, dirs),
        decreases n,
    {
        let tail = tail_of(&segments, total - n);
        let suffix = joined(&tail, "/");
        if let Some(ids) = go_dir_index.ending_in(suffix.as_str()) {
            return copy_ids(ids);
        }
        n -= 1;
    }
    let none: Vec<i64> = Vec::new();
    assert(none@ =~= Seq::empty());
    none
}

// ---------------------------------------------------------------------------
// All imports

/// The files by canonical path; the first of two with the same path stays.
pub open spec fn by_path(files: Seq<(i64, Seq<char>)>) -> Map<Seq<char>, i64>
    decreases files.len(),
{
    if files.len() == 0 {
        Map::empty()
    } else {
        let rest = by_path(files.drop_last());
        let key = canonical(files.last().1);
        if rest.contains_key(key) {
            rest
        } else {
            rest.insert(key, files.last().0)
        }
    }
}

/// Maps the paths of files to their numbers.
pub fn build_path_index(files: &Vec<(i64, String)>) -> (r: StringHashMap<i64>)
    ensures
        r@ == by_path(numbered(files@)),
{
    let mut out: StringHashMap<i64> = StringHashMap::new();
    let ghost all = numbered(files@);
    let mut i: usize = 0;
    while i < files.len()
        invariant
            i <= files@.len(),
            all == numbered(files@),
            out@ == by_path(all.take(i as int)),
        decreases files@.len() - i,
    {
        let ghost next = all.take(i + 1);
        assert(next.drop_last() =~= all.take(i as int));
        assert(next.last() == (files@[i as int].0, files@[i as int].1@));
        let key = canonical_path(files[i].1.as_str());
        if !out.contains_key(key.as_str()) {
            out.insert(key, files[i].0);
        }
        i += 1;
    }
    assert(all.take(i as int) =~= all);
    out
}

/// Whether the extension is that of a TypeScript or JavaScript source.
pub open spec fn is_script(ext: Seq<char>) -> bool {
    ext == "ts"@ || ext == "tsx"@ || ext == "mts"@ || ext == "cts"@ || ext == "js"@ || ext == "jsx"@
        || ext == "mjs"@ || ext == "cjs"@
}

/// The files that an import in the file at `from` names.
pub open spec fn import_targets(
    import: Seq<char>,
    from: Seq<char>,
    files: Map<Seq<char>, i64>,
    dirs: Seq<(Seq<char>, Seq<i64>)>,
) -> Seq<i64> {
    match extension(from) {
        Some(ext) => if ext == "rs"@ {
            module_targets(expanded(import), files)
        } else if ext == "py"@ {
            listed(python_target(import, from, files))
        } else if ext == "go"@ {
            go_targets(go_segments(import), go_segments(import).len(), dirs)
        } else if is_script(ext) {
            listed(script_target(import, from, files))
        } else {
            Seq::empty()
        },
        None => Seq::empty(),
    }
}

/// Whether an import in the file at `from` can be resolved: the braces of a Rust
/// `use` must close behind where they open.
pub open spec fn resolvable(import: Seq<char>, from: Seq<char>) -> bool {
    extension(from) == Some("rs"@) ==> expandable(import)
}

/// Whether an import can be resolved.
pub fn can_resolve(import_str: &str, from_path: &str) -> (r: bool)
    ensures
        r == resolvable(import_str@, from_path@),
{
    match extension_of(from_path) {
        Some(ext) => !same(ext.as_str(), "rs") || can_expand(import_str),
        None => true,
    }
}

fn script(ext: &str) -> (r: bool)
    ensures
        r == is_script(ext@),
{
    same(ext, "ts") || same(ext, "tsx") || same(ext, "mts") || same(ext, "cts") || same(ext, "js")
        || same(ext, "jsx") || same(ext, "mjs") || same(ext, "cjs")
}

/// Resolves an import statement by the language of the file that holds it.
pub fn resolve_import(
    import_str: &str,
    from_path: &str,
    path_to_id: &StringHashMap<i64>,
    go_dir_index: &GoDirIndex,
) -> (r: Vec<i64>)
    requires
        resolvable(import_str@, from_path@),
    ensures
        r@ == import_targets(import_str@, from_path@, path_to_id@, go_dir_index@),
{
    match extension_of(from_path) {
        Some(ext) => {
            if same(ext.as_str(), "rs") {
                resolve_rust(import_str, path_to_id)
            } else if same(ext.as_str(), "py") {
                resolve_python(import_str, from_path, path_to_id)
            } else if same(ext.as_str(), "go") {
                resolve_go(import_str, go_dir_index)
            } else if script(ext.as_str()) {
                resolve_ts_js(import_str, from_path, path_to_id)
            } else {
                list_of(None)
            }
        },
        None => list_of(None),
    }
}

/// The path of the file with the number `id`.
pub open spec fn path_of(files: Seq<(i64, Seq<char>)>, id: i64) -> Option<Seq<char>>
    decreases files.len(),
{
    if files.len() == 0 {
        None
    } else {
        match path_of(files.drop_last(), id) {
            Some(path) => Some(path),
            None => if files.last().0 == id {
                Some(files.last().1)
            } else {
                None
            },
        }
    }
}

/// The edges with one more from `from` to each of the targets, but for those that
/// are there already and for one to `from` itself.
pub open spec fn linked(
    edges: Seq<(i64, i64)>,
    from: i64,
    targets: Seq<i64>,
) -> Seq<(i64, i64)>
    decreases targets.len(),
{
    if targets.len() == 0 {
        edges
    } else {
        let rest = linked(edges, from, targets.drop_last());
        let edge = (from, targets.last());
        if from == targets.last() || rest.contains(edge) {
            rest
        } else {
            rest.push(edge)
        }
    }
}

/// The files that an import, with the file that holds it, names.
pub open spec fn targets_of(
    import: (i64, Seq<char>),
    files: Seq<(i64, Seq<char>)>,
) -> Seq<i64> {
    match path_of(files, import.0) {
        Some(path) => import_targets(import.1, path, by_path(files), directories(files)),
        None => Seq::empty(),
    }
}

/// The dependencies that the imports make: from each file to the files that it
/// imports. An import of an unknown file makes none.
pub open spec fn dependencies(
    imports: Seq<(i64, Seq<char>)>,
    files: Seq<(i64, Seq<char>)>,
) -> Seq<(i64, i64)>
    decreases imports.len(),
{
    if imports.len() == 0 {
        Seq::empty()
    } else {
        linked(
            dependencies(imports.drop_last(), files),
            imports.last().0,
            targets_of(imports.last(), files),
        )
    }
}

/// Whether all imports of known files can be resolved.
pub open spec fn all_resolvable(
    imports: Seq<(i64, Seq<char>)>,
    files: Seq<(i64, Seq<char>)>,
) -> bool {
    forall|i: int|
        0 <= i < imports.len() ==> (path_of(files, (#[trigger] imports[i]).0) matches Some(path)
            ==> resolvable(imports[i].1, path))
}

/// A number for each pair of numbers.
spec fn pair_code(a: i64, b: i64) -> int {
    a * 0x1_0000_0000_0000_0000 + b + 0x8000_0000_0000_0000
}

fn code_of(a: i64, b: i64) -> (r: i128)
    ensures
        r == pair_code(a, b),
{
    (a as i128) * 0x1_0000_0000_0000_0000i128 + (b as i128 + 0x8000_0000_0000_0000i128)
}

/// Whether `codes` holds the numbers of the edges.
spec fn codes_of(codes: Set<i128>, edges: Seq<(i64, i64)>) -> bool {
    forall|a: i64, b: i64|
        #![trigger edges.contains((a, b))]
        edges.contains((a, b)) <==> codes.contains(pair_code(a, b) as i128)
}

fn link(
    edges: &mut Vec<(i64, i64)>,
    codes: &mut HashSet<i128>,
    from: i64,
    targets: &Vec<i64>,
)
    requires
        codes_of(old(codes)@, old(edges)@),
    ensures
        final(edges)@ == linked(old(edges)@, from, targets@),
        codes_of(final(codes)@, final(edges)@),
{
    let ghost start = edges@;
    let mut i: usize = 0;
    assert(targets@.take(0) =~= Seq::empty());
    while i < targets.len()
        invariant
            i <= targets@.len(),
            edges@ == linked(start, from, targets@.take(i as int)),
            codes_of(codes@, edges@),
        decreases targets@.len() - i,
    {
        let ghost next = targets@.take(i + 1);
        assert(next.drop_last() =~= targets@.take(i as int));
        let to = targets[i];
        assert(next.last() == to);
        if from != to {
            let code = code_of(from, to);
            let known = codes.contains(&code);
            assert(known == edges@.contains((from, to)));
            if !known {
                let ghost before = edges@;
                let ghost codes0 = codes@;
                edges.push((from, to));
                codes.insert(code);
                proof {
                    broadcast use vstd::seq_lib::lemma_seq_contains_after_push;

                    assert(edges@ == before.push((from, to)));
                    assert forall|a: i64, b: i64|
                        #![trigger edges@.contains((a, b))]
                        edges@.contains((a, b)) <==> codes@.contains(pair_code(a, b) as i128) by {
                        assert(before.contains((a, b)) <==> codes0.contains(
                            pair_code(a, b) as i128,
                        ));
                        assert(pair_code(a, b) == code ==> (a, b) == (from, to));
                    }
                }
            }
        }
        i += 1;
    }
    assert(targets@.take(i as int) =~= targets@);
}

fn path_positions(files: &Vec<(i64, String)>) -> (r: HashMap<i64, usize>)
    ensures
        forall|id: i64| #[trigger]
            r@.contains_key(id) <==> path_of(numbered(files@), id) is Some,
        forall|id: i64| #[trigger]
            r@.contains_key(id) ==> r@[id] < files@.len() && path_of(numbered(files@), id) == Some(
                files@[r@[id] as int].1@,
            ),
{
    let mut out: HashMap<i64, usize> = HashMap::new();
    let ghost all = numbered(files@);
    let mut i: usize = 0;
    while i < files.len()
        invariant
            i <= files@.len(),
            all == numbered(files@),
            forall|id: i64| #[trigger]
                out@.contains_key(id) <==> path_of(all.take(i as int), id) is Some,
            forall|id: i64| #[trigger]
                out@.contains_key(id) ==> out@[id] < i && path_of(all.take(i as int), id) == Some(
                    files@[out@[id] as int].1@,
                ),
        decreases files@.len() - i,
    {
        let ghost next = all.take(i + 1);
        assert(next.drop_last() =~= all.take(i as int));
        assert(next.last() == (files@[i as int].0, files@[i as int].1@));
        let ghost before = out@;
        let id = files[i].0;
        if !out.contains_key(&id) {
            out.insert(id, i);
        }
        proof {
            assert forall|k: i64| #[trigger] out@.contains_key(k) <==> path_of(next, k) is Some by {
                assert(before.contains_key(k) <==> path_of(all.take(i as int), k) is Some);
            }
            assert forall|k: i64| #[trigger] out@.contains_key(k) implies out@[k] < i + 1
                && path_of(next, k) == Some(files@[out@[k] as int].1@) by {
                assert(before.contains_key(k) <==> path_of(all.take(i as int), k) is Some);
            }
        }
        i += 1;
    }
    assert(all.take(i as int) =~= all);
    out
}

/// Whether all imports of known files can be resolved.
pub fn can_resolve_all(imports: &Vec<(i64, String)>, files: &Vec<(i64, String)>) -> (r: bool)
    ensures
        r == all_resolvable(numbered(imports@), numbered(files@)),
{
    let positions = path_positions(files);
    let ghost all = numbered(imports@);
    let ghost known = numbered(files@);
    let mut i: usize = 0;
    while i < imports.len()
        invariant
            i <= imports@.len(),
            all == numbered(imports@),
            known == numbered(files@),
            forall|id: i64| #[trigger] positions@.contains_key(id) <==> path_of(known, id) is Some,
            forall|id: i64| #[trigger]
                positions@.contains_key(id) ==> positions@[id] < files@.len() && path_of(known, id)
                    == Some(files@[positions@[id] as int].1@),
            forall|k: int|
                0 <= k < i ==> (path_of(known, (#[trigger] all[k]).0) matches Some(path)
                    ==> resolvable(all[k].1, path)),
        decreases imports@.len() - i,
    {
        assert(all[i as int] == (imports@[i as int].0, imports@[i as int].1@));
        let from = imports[i].0;
        match positions.get(&from) {
            Some(at) => {
                if !can_resolve(imports[i].1.as_str(), files[*at].1.as_str()) {
                    assert(path_of(known, all[i as int].0) is Some);
                    return false;
                }
            },
            None => {
                assert(path_of(known, from) is None);
            },
        }
        i += 1;
    }
    true
}

/// Resolves the imports of the files of a repository to the dependencies between
/// them.
pub fn build_deps(
    imports: &Vec<(i64, String)>,
    files: &Vec<(i64, String)>,
) -> (r: Vec<(i64, i64)>)
    requires
        all_resolvable(numbered(imports@), numbered(files@)),
    ensures
        r@ == dependencies(numbered(imports@), numbered(files@)),
{
    let path_to_id = build_path_index(files);
    let go_dir_index = build_go_dir_index(files);
    let positions = path_positions(files);
    let ghost all = numbered(imports@);
    let ghost known = numbered(files@);
    let mut edges: Vec<(i64, i64)> = Vec::new();
    let mut codes: HashSet<i128> = HashSet::new();
    assert(edges@ =~= dependencies(all.take(0), known));
    let mut i: usize = 0;
    while i < imports.len()
        invariant
            i <= imports@.len(),
            all == numbered(imports@),
            known == numbered(files@),
            all_resolvable(all, known),
            path_to_id@ == by_path(known),
            go_dir_index@ == directories(known),
            forall|id: i64| #[trigger] positions@.contains_key(id) <==> path_of(known, id) is Some,
            forall|id: i64| #[trigger]
                positions@.contains_key(id) ==> positions@[id] < files@.len() && path_of(known, id)
                    == Some(files@[positions@[id] as int].1@),
            edges@ == dependencies(all.take(i as int), known),
            codes_of(codes@, edges@),
        decreases imports@.len() - i,
    {
        let ghost next = all.take(i + 1);
        assert(next.drop_last() =~= all.take(i as int));
        assert(all[i as int] == (imports@[i as int].0, imports@[i as int].1@));
        assert(next.last() == all[i as int]);
        let from = imports[i].0;
        match positions.get(&from) {
            Some(at) => {
                let path = files[*at].1.as_str();
                let targets = resolve_import(
                    imports[i].1.as_str(),
                    path,
                    &path_to_id,
                    &go_dir_index,
                );
                link(&mut edges, &mut codes, from, &targets);
            },
            None => {
                assert(path_of(known, from) is None);
            },
        }
        i += 1;
    }
    assert(all.take(i as int) =~= all);
    edges
}

// ---------------------------------------------------------------------------
// Laws

/// Whether none of the components leads nowhere or up.
pub open spec fn is_direct(parts: Seq<Seq<char>>) -> bool {
    forall|k: int| 0 <= k < parts.len() ==> #[trigger] parts[k] != "."@ && parts[k] != ".."@
}

proof fn lemma_collapsed(parts: Seq<Seq<char>>)
    requires
        are_components(parts),
    ensures
        collapsed(parts) matches Some(out) ==> are_components(out) && is_direct(out),
    decreases parts.len(),
{
    reveal_strlit("/");
    reveal_strlit(".");
    reveal_strlit("..");
    assert("/"@[0] == '/' && "."@[0] == '.' && ".."@[0] == '.');
    if parts.len() > 0 {
        let init = parts.drop_last();
        assert forall|k: int| 0 <= k < init.len() implies is_part(#[trigger] init[k]) || (k == 0 && (
        init[k] == "/"@ || init[k] == "."@)) by {
            assert(init[k] == parts[k]);
        }
        lemma_collapsed(init);
        let last = parts[parts.len() - 1];
        if let Some(before) = collapsed(init) {
            if let Some(out) = collapsed(parts) {
                assert forall|k: int| 0 <= k < out.len() implies (is_part(#[trigger] out[k]) || (k
                    == 0 && (out[k] == "/"@ || out[k] == "."@))) && out[k] != "."@ && out[k]
                    != ".."@ by {
                    if k < before.len() {
                        assert(out[k] == before[k]);
                    } else {
                        assert(out[k] == last);
                        if last == "/"@ {
                            assert(!is_part(last)) by {
                                assert("/"@[0] == '/');
                                assert("/"@.contains('/'));
                            }
                            assert(parts.len() == 1);
                        }
                    }
                }
            }
        }
    }
}

proof fn lemma_collapse_direct(parts: Seq<Seq<char>>)
    requires
        is_direct(parts),
    ensures
        collapsed(parts) == Some(parts),
    decreases parts.len(),
{
    if parts.len() > 0 {
        let init = parts.drop_last();
        assert forall|k: int| 0 <= k < init.len() implies #[trigger] init[k] != "."@ && init[k]
            != ".."@ by {
            assert(init[k] == parts[k]);
        }
        lemma_collapse_direct(init);
        assert(parts[parts.len() - 1] != "."@);
        assert(init.push(parts.last()) =~= parts);
    } else {
        assert(parts =~= Seq::empty());
    }
}

/// A normalized path does not lead up anywhere, so it stays below the directory
/// that it is taken from, and normalizing it again changes nothing.
pub proof fn law_normalized_stays_inside(p: Seq<char>)
    ensures
        normalized(p) matches Some(q) ==> is_direct(components(q)) && normalized(q) == Some(q),
{
    lemma_components(p);
    lemma_collapsed(components(p));
    if let Some(parts) = collapsed(components(p)) {
        law_written_components(parts);
        lemma_collapse_direct(parts);
    }
}

/// An import of a script that names no relative module makes no dependency.
pub proof fn law_packages_are_ignored(
    import: Seq<char>,
    from: Seq<char>,
    files: Map<Seq<char>, i64>,
    module: Seq<char>,
)
    requires
        specifier(import) == Some(module),
        !is_relative(module),
    ensures
        script_target(import, from, files) is None,
{
}

/// Whether `id` is the number of one of the files.
pub open spec fn is_file(files: Seq<(i64, Seq<char>)>, id: i64) -> bool {
    exists|i: int| 0 <= i < files.len() && (#[trigger] files[i]).0 == id
}

proof fn lemma_by_path(files: Seq<(i64, Seq<char>)>, key: Seq<char>)
    requires
        by_path(files).contains_key(key),
    ensures
        exists|i: int|
            0 <= i < files.len() && canonical((#[trigger] files[i]).1) == key && files[i].0
                == by_path(files)[key],
    decreases files.len(),
{
    let init = files.drop_last();
    if by_path(init).contains_key(key) {
        lemma_by_path(init, key);
        let i = choose|i: int|
            0 <= i < init.len() && canonical((#[trigger] init[i]).1) == key && init[i].0 == by_path(
                init,
            )[key];
        assert(files[i] == init[i]);
    } else {
        assert(canonical(files[files.len() - 1].1) == key);
    }
}

/// What is looked up under a path is a file with that path.
pub proof fn law_lookup_finds_the_path(files: Seq<(i64, Seq<char>)>, path: Seq<char>)
    ensures
        at(by_path(files), path) matches Some(id) ==> exists|i: int|
            0 <= i < files.len() && components((#[trigger] files[i]).1) == components(path)
                && files[i].0 == id,
{
    if let Some(id) = at(by_path(files), path) {
        lemma_by_path(files, canonical(path));
        let i = choose|i: int|
            0 <= i < files.len() && canonical((#[trigger] files[i]).1) == canonical(path)
                && files[i].0 == id;
        law_canonical_decides(files[i].1, path);
        assert(components(files[i].1) == components(path));
    }
}

/// Every file can be looked up under its path.
pub proof fn law_every_file_is_found(files: Seq<(i64, Seq<char>)>, i: int)
    requires
        0 <= i < files.len(),
    ensures
        at(by_path(files), files[i].1) is Some,
    decreases files.len(),
{
    if i < files.len() - 1 {
        law_every_file_is_found(files.drop_last(), i);
        assert(files.drop_last()[i] == files[i]);
    }
}

proof fn lemma_first_at(files: Seq<(i64, Seq<char>)>, paths: Seq<Seq<char>>)
    ensures
        first_at(by_path(files), paths) matches Some(id) ==> is_file(files, id),
    decreases paths.len(),
{
    if paths.len() > 0 {
        if let Some(id) = at(by_path(files), paths[0]) {
            lemma_by_path(files, canonical(paths[0]));
            let i = choose|i: int|
                0 <= i < files.len() && canonical((#[trigger] files[i]).1) == canonical(paths[0])
                    && files[i].0 == id;
            assert(files[i].0 == id);
        } else {
            lemma_first_at(files, paths.drop_first());
        }
    }
}

proof fn lemma_module_targets(
    paths: Seq<Seq<char>>,
    files: Seq<(i64, Seq<char>)>,
    id: i64,
)
    requires
        module_targets(paths, by_path(files)).contains(id),
    ensures
        is_file(files, id),
    decreases paths.len(),
{
    let init = module_targets(paths.drop_last(), by_path(files));
    let last = listed(module_target(paths.last(), by_path(files)));
    let all = init + last;
    let k = choose|k: int| 0 <= k < all.len() && all[k] == id;
    if k < init.len() {
        assert(init[k] == id);
        lemma_module_targets(paths.drop_last(), files, id);
    } else {
        lemma_first_at(
            files,
            module_paths(paths.last().skip("crate::"@.len() as int)),
        );
    }
}

/// What [`in_directory`] gives is a file in the directory that is not skipped.
pub proof fn lemma_in_directory(files: Seq<(i64, Seq<char>)>, dir: Seq<char>, id: i64)
    requires
        in_directory(files, dir).contains(id),
    ensures
        exists|i: int|
            0 <= i < files.len() && (#[trigger] files[i]).0 == id && parent(files[i].1) == Some(dir)
                && !is_skipped(files[i].1),
    decreases files.len(),
{
    let init = files.drop_last();
    let rest = in_directory(init, dir);
    if rest.contains(id) {
        lemma_in_directory(init, dir, id);
        let i = choose|i: int|
            0 <= i < init.len() && (#[trigger] init[i]).0 == id && parent(init[i].1) == Some(dir)
                && !is_skipped(init[i].1);
        assert(files[i] == init[i]);
    } else {
        broadcast use vstd::seq_lib::lemma_seq_contains_after_push;

        assert(files[files.len() - 1].0 == id);
    }
}

/// The directory of each file is among [`directory_names`], and the file in it.
pub proof fn lemma_directories(files: Seq<(i64, Seq<char>)>, i: int)
    requires
        0 <= i < files.len(),
        parent(files[i].1) is Some,
    ensures
        directory_names(files).contains(parent(files[i].1)->0),
        !is_skipped(files[i].1) ==> in_directory(files, parent(files[i].1)->0).contains(files[i].0),
    decreases files.len(),
{
    broadcast use vstd::seq_lib::lemma_seq_contains_after_push;

    if i < files.len() - 1 {
        lemma_directories(files.drop_last(), i);
        assert(files.drop_last()[i] == files[i]);
    }
}

/// What [`files_ending_in`] gives is a file of a directory that ends so.
pub proof fn lemma_files_ending_in(
    dirs: Seq<(Seq<char>, Seq<i64>)>,
    suffix: Seq<char>,
    id: i64,
)
    ensures
        files_ending_in(dirs, suffix).contains(id) <==> exists|k: int|
            0 <= k < dirs.len() && ends_in((#[trigger] dirs[k]).0, suffix) && dirs[k].1.contains(id),
    decreases dirs.len(),
{
    if dirs.len() > 0 {
        let init = dirs.drop_last();
        let last = dirs.last();
        let rest = files_ending_in(init, suffix);
        lemma_files_ending_in(init, suffix, id);
        vstd::seq_lib::lemma_seq_concat_contains_all_elements(rest, last.1, id);
        assert(dirs[dirs.len() - 1] == last);
        if rest.contains(id) {
            let k = choose|k: int|
                0 <= k < init.len() && ends_in((#[trigger] init[k]).0, suffix) && init[k].1.contains(
                    id,
                );
            assert(dirs[k] == init[k]);
        }
        if exists|k: int|
            0 <= k < dirs.len() && ends_in((#[trigger] dirs[k]).0, suffix) && dirs[k].1.contains(
                id,
            ) {
            let k = choose|k: int|
                0 <= k < dirs.len() && ends_in((#[trigger] dirs[k]).0, suffix)
                    && dirs[k].1.contains(id);
            if k < init.len() {
                assert(init[k] == dirs[k]);
            }
        }
    }
}

/// No Go import leads to a test, to generated code or to a mock, and the file that
/// one leads to stands in a directory that ends in the last segments of the package
/// path.
pub proof fn law_go_targets_are_sources(
    segments: Seq<Seq<char>>,
    n: nat,
    files: Seq<(i64, Seq<char>)>,
    id: i64,
)
    requires
        go_targets(segments, n, directories(files)).contains(id),
    ensures
        exists|i: int, m: nat|
            0 <= i < files.len() && (#[trigger] files[i]).0 == id && !is_skipped(files[i].1) && 0 < m
                <= n && parent(files[i].1) is Some && ends_in(
                parent(files[i].1)->0,
                join(#[trigger] segments.skip(segments.len() - m), "/"@),
            ),
    decreases n,
{
    let dirs = directories(files);
    let suffix = join(segments.skip(segments.len() - n), "/"@);
    if some_ends_in(dirs, suffix) {
        lemma_files_ending_in(dirs, suffix, id);
        let k = choose|k: int|
            0 <= k < dirs.len() && ends_in((#[trigger] dirs[k]).0, suffix) && dirs[k].1.contains(id);
        lemma_in_directory(files, dirs[k].0, id);
        let i = choose|i: int|
            0 <= i < files.len() && (#[trigger] files[i]).0 == id && parent(files[i].1) == Some(
                dirs[k].0,
            ) && !is_skipped(files[i].1);
        assert(files[i].0 == id && ends_in(parent(files[i].1)->0, suffix));
    } else {
        law_go_targets_are_sources(segments, (n - 1) as nat, files, id);
        let (i, m) = choose|i: int, m: nat|
            0 <= i < files.len() && (#[trigger] files[i]).0 == id && !is_skipped(files[i].1) && 0 < m
                <= n - 1 && parent(files[i].1) is Some && ends_in(
                parent(files[i].1)->0,
                join(#[trigger] segments.skip(segments.len() - m), "/"@),
            );
        assert(files[i].0 == id && ends_in(
            parent(files[i].1)->0,
            join(segments.skip(segments.len() - m), "/"@),
        ));
    }
}

/// A Go import leads to every source in every directory that ends in its last `m`
/// segments, where none ends in more of them.
pub proof fn law_go_candidates_are_all_found(
    segments: Seq<Seq<char>>,
    n: nat,
    m: nat,
    files: Seq<(i64, Seq<char>)>,
    i: int,
)
    requires
        0 < m <= n <= segments.len(),
        0 <= i < files.len(),
        parent(files[i].1) matches Some(dir) && ends_in(
            dir,
            join(segments.skip(segments.len() - m), "/"@),
        ),
        !is_skipped(files[i].1),
        forall|k: nat|
            m < k <= n ==> !some_ends_in(
                directories(files),
                join(#[trigger] segments.skip(segments.len() - k), "/"@),
            ),
    ensures
        go_targets(segments, n, directories(files)).contains(files[i].0),
    decreases n,
{
    let dirs = directories(files);
    let suffix = join(segments.skip(segments.len() - n), "/"@);
    if n == m {
        lemma_directories(files, i);
        let dir = parent(files[i].1)->0;
        let names = directory_names(files);
        let k = choose|k: int| 0 <= k < names.len() && names[k] == dir;
        assert(dirs[k] == (dir, in_directory(files, dir)));
        assert(some_ends_in(dirs, suffix)) by {
            assert(ends_in(dirs[k].0, suffix));
        }
        lemma_files_ending_in(dirs, suffix, files[i].0);
    } else {
        assert(!some_ends_in(dirs, suffix));
        law_go_candidates_are_all_found(segments, (n - 1) as nat, m, files, i);
    }
}

proof fn lemma_targets_are_files(
    import: (i64, Seq<char>),
    files: Seq<(i64, Seq<char>)>,
    id: i64,
)
    requires
        targets_of(import, files).contains(id),
    ensures
        is_file(files, id),
        is_file(files, import.0),
{
    lemma_path_of(files, import.0);
    if let Some(path) = path_of(files, import.0) {
        if let Some(ext) = extension(path) {
            if ext == "rs"@ {
                lemma_module_targets(expanded(import.1), files, id);
            } else if ext == "py"@ {
                if let Some(raw) = python_module(import.1) {
                    lemma_first_at(files, python_paths(raw, path));
                }
            } else if ext == "go"@ {
                let segments = go_segments(import.1);
                law_go_targets_are_sources(segments, segments.len(), files, id);
                assert(is_file(files, id));
            } else if is_script(ext) {
                if let Some(module) = specifier(import.1) {
                    if let Some(at) = normalized(under(directory(path), module)) {
                        lemma_first_at(files, script_paths(at));
                    }
                }
            }
        }
    }
}

proof fn lemma_path_of(files: Seq<(i64, Seq<char>)>, id: i64)
    ensures
        path_of(files, id) is Some <==> is_file(files, id),
    decreases files.len(),
{
    if files.len() > 0 {
        let init = files.drop_last();
        lemma_path_of(init, id);
        if is_file(init, id) {
            let i = choose|i: int| 0 <= i < init.len() && (#[trigger] init[i]).0 == id;
            assert(files[i] == init[i]);
        }
        if is_file(files, id) {
            let i = choose|i: int| 0 <= i < files.len() && (#[trigger] files[i]).0 == id;
            if i < init.len() {
                assert(init[i] == files[i]);
            }
        }
        if files.last().0 == id {
            assert(files[files.len() - 1].0 == id);
        }
    }
}

proof fn lemma_linked(
    edges: Seq<(i64, i64)>,
    from: i64,
    targets: Seq<i64>,
)
    requires
        edges.no_duplicates(),
    ensures
        linked(edges, from, targets).no_duplicates(),
        forall|e: (i64, i64)| #[trigger]
            linked(edges, from, targets).contains(e) <==> edges.contains(e) || (e.0 == from && e.1
                != from && targets.contains(e.1)),
    decreases targets.len(),
{
    if targets.len() > 0 {
        let init = targets.drop_last();
        let rest = linked(edges, from, init);
        let all = linked(edges, from, targets);
        lemma_linked(edges, from, init);
        let t = targets.last();
        broadcast use vstd::seq_lib::lemma_seq_contains_after_push;

        assert(targets =~= init.push(t));
        assert forall|e: (i64, i64)| #[trigger] all.contains(e) <==> rest.contains(e) || (from != t
            && e == (from, t)) by {}
    }
}

/// The dependencies are distinct; none leads from a file to itself; each joins
/// two files of the repository.
pub proof fn law_dependencies(
    imports: Seq<(i64, Seq<char>)>,
    files: Seq<(i64, Seq<char>)>,
)
    ensures
        dependencies(imports, files).no_duplicates(),
        forall|e: (i64, i64)| #[trigger]
            dependencies(imports, files).contains(e) ==> e.0 != e.1 && is_file(files, e.0) && is_file(
                files,
                e.1,
            ),
    decreases imports.len(),
{
    if imports.len() > 0 {
        let init = imports.drop_last();
        law_dependencies(init, files);
        let targets = targets_of(imports.last(), files);
        lemma_linked(dependencies(init, files), imports.last().0, targets);
        assert forall|e: (i64, i64)| #[trigger] dependencies(imports, files).contains(e) implies e.0
            != e.1 && is_file(files, e.0) && is_file(files, e.1) by {
            if !dependencies(init, files).contains(e) {
                lemma_targets_are_files(imports.last(), files, e.1);
            }
        }
    }
}

/// A dependency is there exactly if an import of its first file names its second
/// one.
pub proof fn law_dependencies_come_from_imports(
    imports: Seq<(i64, Seq<char>)>,
    files: Seq<(i64, Seq<char>)>,
    e: (i64, i64),
)
    ensures
        dependencies(imports, files).contains(e) <==> e.0 != e.1 && exists|i: int|
            0 <= i < imports.len() && (#[trigger] imports[i]).0 == e.0 && targets_of(
                imports[i],
                files,
            ).contains(e.1),
    decreases imports.len(),
{
    if imports.len() > 0 {
        let init = imports.drop_last();
        law_dependencies(init, files);
        law_dependencies_come_from_imports(init, files, e);
        let last = imports.last();
        lemma_linked(dependencies(init, files), last.0, targets_of(last, files));
        if dependencies(init, files).contains(e) {
            let i = choose|i: int|
                0 <= i < init.len() && (#[trigger] init[i]).0 == e.0 && targets_of(
                    init[i],
                    files,
                ).contains(e.1);
            assert(imports[i] == init[i]);
        }
        assert(imports[imports.len() - 1] == last);
        if exists|i: int|
            0 <= i < imports.len() && (#[trigger] imports[i]).0 == e.0 && targets_of(
                imports[i],
                files,
            ).contains(e.1) {
            let i = choose|i: int|
                0 <= i < imports.len() && (#[trigger] imports[i]).0 == e.0 && targets_of(
                    imports[i],
                    files,
                ).contains(e.1);
            if i < init.len() {
                assert(init[i] == imports[i]);
            }
        }
    }
}

} // verus!
