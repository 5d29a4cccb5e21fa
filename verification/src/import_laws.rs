//! What the resolution of imports promises, stated over the components of paths.
use vstd::prelude::*;

use crate::dep_builder::{
    all_resolvable, ascended, at, by_path, collapsed, dependencies, directories, directory,
    directory_names, ends_in, files_ending_in, first_at, go_segments, go_targets, import_targets,
    in_directory, is_skipped, lemma_directories, lemma_files_ending_in, lemma_in_directory, linked,
    listed, module_paths, module_target, module_targets, non_empty, normalized, package, path_of,
    python_module, python_paths, python_target, resolvable, script_extensions, script_paths,
    script_target, some_ends_in, specifier, targets_of,
};
use crate::path::{
    components, extension, is_part, law_canonical_decides, law_components_under,
    law_names_between_slashes, law_parent, law_written_components, lemma_components, parent, under,
};
use crate::text::{
    among, is_white, join, law_join, law_replace_between, law_replace_char_between,
    law_split_joined, law_strip, law_trim, law_trim_ends, lemma_find_is, replace, replace_chars,
    trim_end, trim_start,
};
use crate::tokenizer::{first_word, lemma_first_word};
use crate::use_paths::{expandable, expanded};

verus! {

// ---------------------------------------------------------------------------
// Looking up files

/// Whether the repository holds a file with these components.
pub open spec fn has_file(files: Seq<(i64, Seq<char>)>, parts: Seq<Seq<char>>) -> bool {
    exists|i: int| 0 <= i < files.len() && components((#[trigger] files[i]).1) == parts
}

/// Whether `id` is the number of the first file with these components.
pub open spec fn is_first_file(
    files: Seq<(i64, Seq<char>)>,
    parts: Seq<Seq<char>>,
    id: i64,
) -> bool {
    exists|i: int|
        0 <= i < files.len() && components((#[trigger] files[i]).1) == parts && files[i].0 == id
            && forall|j: int| 0 <= j < i ==> components((#[trigger] files[j]).1) != parts
}

/// Whether `r` is the file at the first of the places where the repository holds one,
/// and nothing if it holds none of them.
pub open spec fn is_first_held(
    files: Seq<(i64, Seq<char>)>,
    places: Seq<Seq<Seq<char>>>,
    r: Seq<i64>,
) -> bool {
    if exists|k: int| 0 <= k < places.len() && has_file(files, #[trigger] places[k]) {
        exists|k: int|
            0 <= k < places.len() && r.len() == 1 && is_first_file(
                files,
                #[trigger] places[k],
                r[0],
            ) && forall|l: int| 0 <= l < k ==> !has_file(files, #[trigger] places[l])
    } else {
        r.len() == 0
    }
}

/// Looking up a path finds the first file with its components.
pub proof fn law_lookup(files: Seq<(i64, Seq<char>)>, path: Seq<char>)
    ensures
        at(by_path(files), path) is Some <==> has_file(files, components(path)),
        at(by_path(files), path) matches Some(id) ==> is_first_file(files, components(path), id),
    decreases files.len(),
{
    if files.len() > 0 {
        let init = files.drop_last();
        let last = files[files.len() - 1];
        let c = components(path);
        law_lookup(init, path);
        law_canonical_decides(last.1, path);
        if has_file(init, c) {
            let i = choose|i: int| 0 <= i < init.len() && components((#[trigger] init[i]).1) == c;
            assert(components(files[i].1) == c);
            let id = at(by_path(init), path)->0;
            let k = choose|i: int|
                0 <= i < init.len() && components((#[trigger] init[i]).1) == c && init[i].0 == id
                    && forall|j: int| 0 <= j < i ==> components((#[trigger] init[j]).1) != c;
            assert(files[k] == init[k]);
            assert forall|j: int| 0 <= j < k implies components((#[trigger] files[j]).1) != c by {
                assert(init[j] == files[j]);
            }
        } else {
            if has_file(files, c) {
                let i = choose|i: int|
                    0 <= i < files.len() && components((#[trigger] files[i]).1) == c;
                if i < init.len() {
                    assert(components(init[i].1) == c);
                }
                assert(components(last.1) == c);
                assert forall|j: int| 0 <= j < files.len() - 1 implies components(
                    (#[trigger] files[j]).1,
                ) != c by {
                    assert(init[j] == files[j]);
                }
            }
            if components(last.1) == c {
                assert(has_file(files, c));
            }
        }
    }
}

/// The first of several paths at which there is a file is taken.
pub proof fn law_first_path(files: Seq<(i64, Seq<char>)>, paths: Seq<Seq<char>>)
    ensures
        is_first_held(
            files,
            paths.map_values(|p: Seq<char>| components(p)),
            listed(first_at(by_path(files), paths)),
        ),
    decreases paths.len(),
{
    let f = |p: Seq<char>| components(p);
    let places = paths.map_values(f);
    let r = listed(first_at(by_path(files), paths));
    if paths.len() > 0 {
        law_lookup(files, paths[0]);
        assert(places[0] == components(paths[0]));
        if has_file(files, places[0]) {
            assert(is_first_file(files, places[0], r[0]));
        } else {
            let rest = paths.drop_first();
            law_first_path(files, rest);
            let others = rest.map_values(f);
            assert forall|k: int| 0 <= k < others.len() implies #[trigger] others[k] == places[k
                + 1] by {}
            if exists|k: int| 0 <= k < others.len() && has_file(files, #[trigger] others[k]) {
                let m = choose|k: int| 0 <= k < others.len() && has_file(files, #[trigger] others[k]);
                assert(has_file(files, places[m + 1]));
                let k = choose|k: int|
                    0 <= k < others.len() && r.len() == 1 && is_first_file(
                        files,
                        #[trigger] others[k],
                        r[0],
                    ) && forall|l: int| 0 <= l < k ==> !has_file(files, #[trigger] others[l]);
                assert(is_first_file(files, places[k + 1], r[0]));
                assert forall|l: int| 0 <= l < k + 1 implies !has_file(
                    files,
                    #[trigger] places[l],
                ) by {
                    if l > 0 {
                        assert(others[l - 1] == places[l]);
                    }
                }
            } else {
                assert forall|k: int| 0 <= k < places.len() implies !has_file(
                    files,
                    #[trigger] places[k],
                ) by {
                    if k > 0 {
                        assert(others[k - 1] == places[k]);
                    }
                }
            }
        }
    }
}

// ---------------------------------------------------------------------------
// Directories

/// The components of a directory above another: `n` fewer, and none where there are not
/// so many.
pub open spec fn above(parts: Seq<Seq<char>>, n: int) -> Seq<Seq<char>> {
    if n <= parts.len() {
        parts.take(parts.len() - n)
    } else {
        Seq::empty()
    }
}

proof fn lemma_empty_path()
    ensures
        components(""@) == Seq::<Seq<char>>::empty(),
{
    reveal_strlit("");
    law_names_between_slashes(Seq::empty());
    assert(join(Seq::empty(), "/"@) =~= ""@);
}

/// The directory of a path in the repository has the components of the path but for the
/// last one.
pub proof fn law_directory(p: Seq<char>)
    requires
        components(p).len() > 0 ==> components(p)[0] != "/"@,
    ensures
        components(directory(p)) == above(components(p), 1),
{
    law_parent(p);
    lemma_empty_path();
    if components(p).len() > 0 {
        assert(components(p) != seq!["/"@]) by {
            if components(p) == seq!["/"@] {
                assert(components(p)[0] == "/"@);
            }
        }
        assert(above(components(p), 1) =~= components(p).drop_last());
    }
}

proof fn lemma_ascended(dir: Seq<char>, n: nat)
    requires
        components(dir).len() > 0 ==> components(dir)[0] != "/"@,
    ensures
        components(ascended(dir, n)) == above(components(dir), n as int),
    decreases n,
{
    if n == 0 {
        assert(above(components(dir), 0) =~= components(dir));
    } else {
        lemma_ascended(dir, (n - 1) as nat);
        let below = ascended(dir, (n - 1) as nat);
        law_directory(below);
        assert(above(above(components(dir), n - 1), 1) =~= above(components(dir), n as int));
    }
}

/// A module with one dot before it, or none, is looked up from the directory of the file
/// that imports it, and with each further dot from one directory higher up.
pub proof fn law_package(from: Seq<char>, dots: nat)
    requires
        components(from).len() > 0,
        components(from)[0] != "/"@,
    ensures
        components(package(from, dots)) == above(
            components(from),
            if dots == 0 {
                1
            } else {
                dots as int
            },
        ),
{
    law_directory(from);
    let n = if dots > 1 {
        (dots - 1) as nat
    } else {
        0
    };
    lemma_ascended(directory(from), n);
    assert(above(above(components(from), 1), n as int) =~= above(components(from), n + 1int));
}

// ---------------------------------------------------------------------------
// Python

/// Whether a text can be a name in the module path of a Python import.
pub open spec fn is_python_name(s: Seq<char>) -> bool {
    &&& s.len() > 0
    &&& forall|k: int|
        0 <= k < s.len() ==> !is_white(#[trigger] s[k]) && s[k] != '.' && s[k] != '/'
}

proof fn lemma_join_solid(names: Seq<Seq<char>>, sep: char)
    requires
        forall|k: int| 0 <= k < names.len() ==> is_python_name(#[trigger] names[k]),
        !is_white(sep),
    ensures
        forall|k: int|
            0 <= k < join(names, seq![sep]).len() ==> !is_white(
                #[trigger] join(names, seq![sep])[k],
            ),
    decreases names.len(),
{
    if names.len() > 0 {
        let init = names.drop_last();
        assert forall|k: int| 0 <= k < init.len() implies is_python_name(#[trigger] init[k]) by {
            assert(init[k] == names[k]);
        }
        lemma_join_solid(init, sep);
        let last = names[names.len() - 1];
        assert(is_python_name(last));
        let head = join(init, seq![sep]);
        let all = join(names, seq![sep]);
        assert forall|k: int| 0 <= k < all.len() implies !is_white(#[trigger] all[k]) by {
            if names.len() == 1 {
                assert(all[k] == last[k]);
            } else if k < head.len() {
                assert(all[k] == head[k]);
            } else if k > head.len() {
                assert(all[k] == last[k - head.len() - 1]);
            }
        }
    }
}

proof fn lemma_python_name(s: Seq<char>)
    requires
        is_python_name(s),
    ensures
        !s.contains('/'),
        !s.contains('.'),
        s != "."@,
        !(s + ".py"@).contains('/'),
        s + ".py"@ != "."@,
{
    reveal_strlit(".");
    reveal_strlit(".py");
    let t = s + ".py"@;
    assert(t.len() == s.len() + 3 && "."@.len() == 1);
    if s == "."@ {
        assert(s[0] == '.');
    }
    if t.contains('/') {
        let k = choose|k: int| 0 <= k < t.len() && t[k] == '/';
        if k < s.len() {
            assert(s[k] == '/');
        } else {
            assert(".py"@[k - s.len()] == '/');
        }
    }
}

/// A joined text begins as its first part does.
proof fn lemma_join_begins(names: Seq<Seq<char>>, sep: Seq<char>)
    requires
        names.len() > 0,
        names[0].len() > 0,
    ensures
        join(names, sep).len() > 0,
        join(names, sep)[0] == names[0][0],
{
    let first = seq![names[0]];
    law_join(first, names.drop_first(), sep);
    assert(names =~= first + names.drop_first());
    if names.len() == 1 {
        assert(names =~= first);
    }
}

proof fn lemma_first_word_behind_space(space: Seq<char>, s: Seq<char>)
    requires
        forall|k: int| 0 <= k < space.len() ==> is_white(#[trigger] space[k]),
    ensures
        first_word(space + s) == first_word(s),
    decreases space.len(),
{
    if space.len() == 0 {
        assert(space + s =~= s);
    } else {
        let rest = space.drop_first();
        assert forall|k: int| 0 <= k < rest.len() implies is_white(#[trigger] rest[k]) by {
            assert(rest[k] == space[k + 1]);
        }
        lemma_first_word_behind_space(rest, s);
        assert((space + s)[0] == space[0]);
        assert((space + s).drop_first() =~= rest + s);
    }
}

proof fn lemma_python_raw(
    keyword: Seq<char>,
    space: Seq<char>,
    dots: nat,
    names: Seq<Seq<char>>,
    rest: Seq<char>,
)
    requires
        keyword == "import "@ || keyword == "from "@,
        forall|k: int| 0 <= k < space.len() ==> is_white(#[trigger] space[k]),
        forall|k: int| 0 <= k < names.len() ==> is_python_name(#[trigger] names[k]),
        names.len() > 0 || dots > 0,
        rest.len() == 0 || is_white(rest[0]),
    ensures
        ({
            let raw = Seq::new(dots, |i: int| '.') + join(names, "."@);
            &&& python_module(keyword + space + raw + rest) == Some(raw)
            &&& trim_start(raw, among("."@)) == join(names, "."@)
        }),
{
    reveal_strlit("import ");
    reveal_strlit("from ");
    reveal_strlit(".");
    assert("."@ =~= seq!['.']);
    let lead = Seq::new(dots, |i: int| '.');
    let m = join(names, "."@);
    let raw = lead + m;
    let import = keyword + space + raw + rest;
    assert(import.subrange(0, keyword.len() as int) =~= keyword);
    assert(import.skip(keyword.len() as int) =~= space + (raw + rest));
    lemma_first_word_behind_space(space, raw + rest);
    if keyword == "import "@ {
        assert(import[0] == 'i');
        assert("from "@[0] == 'f');
    }
    lemma_join_solid(names, '.');
    assert forall|k: int| 0 <= k < raw.len() implies !is_white(#[trigger] raw[k]) by {
        if k < dots {
            assert(raw[k] == '.');
        } else {
            assert(raw[k] == m[k - dots]);
        }
    }
    if names.len() > 0 {
        assert(is_python_name(names[0]));
        lemma_join_begins(names, "."@);
        assert(m[0] == names[0][0]);
        assert(!among("."@)(m[0]));
    }
    lemma_first_word(raw, rest);
    assert forall|k: int| 0 <= k < lead.len() implies among("."@)(#[trigger] lead[k]) by {
        assert("."@[0] == '.');
    }
    law_trim_ends(lead, m, among("."@));
}

/// The places of a Python module in a directory, and from the root of the repository.
proof fn lemma_python_places(dots: nat, names: Seq<Seq<char>>, from: Seq<char>)
    requires
        forall|k: int| 0 <= k < names.len() ==> is_python_name(#[trigger] names[k]),
        names.len() > 0 || dots > 0,
        components(from).len() > 0,
        components(from)[0] != "/"@,
    ensures
        ({
            let raw = Seq::new(dots, |i: int| '.') + join(names, "."@);
            let dir = above(
                components(from),
                if dots == 0 {
                    1
                } else {
                    dots as int
                },
            );
            let places = python_paths(raw, from).map_values(|p: Seq<char>| components(p));
            if names.len() == 0 {
                places == seq![dir + seq!["__init__.py"@]]
            } else {
                let file = names.drop_last().push(names.last() + ".py"@);
                let init = names.push("__init__.py"@);
                places == seq![dir + file, dir + init, file, init]
            }
        }),
{
    reveal_strlit("__init__.py");
    reveal_strlit("/__init__.py");
    reveal_strlit(".py");
    reveal_strlit("/");
    reveal_strlit(".");
    assert("."@ =~= seq!['.']);
    assert("/"@ =~= seq!['/']);
    let lead = Seq::new(dots, |i: int| '.');
    let m = join(names, "."@);
    let raw = lead + m;
    lemma_python_raw("from "@, Seq::empty(), dots, names, Seq::empty());
    let base = package(from, dots);
    law_package(from, dots);
    let dir = components(base);
    let f = |p: Seq<char>| components(p);
    if names.len() == 0 {
        let one = seq!["__init__.py"@];
        assert(!"__init__.py"@.contains('/'));
        law_names_between_slashes(one);
        law_join(one, Seq::empty(), "/"@);
        law_components_under(base, "__init__.py"@);
        assert(python_paths(raw, from).map_values(f) =~= seq![dir + one]);
    } else {
        let rel = replace_chars(m, among("."@), '/');
        assert forall|k: int| 0 <= k < names.len() implies !(#[trigger] names[k]).contains('.') by {
            assert(is_python_name(names[k]));
        }
        law_replace_char_between(names, '.', '/');
        assert(rel == join(names, "/"@));
        let file = names.drop_last().push(names.last() + ".py"@);
        let init = names.push("__init__.py"@);
        assert(is_python_name(names[names.len() - 1]));
        assert(file.drop_last() =~= names.drop_last());
        assert(init.drop_last() =~= names);
        assert(rel + ".py"@ =~= join(file, "/"@));
        assert(rel + "/__init__.py"@ =~= join(init, "/"@));
        assert forall|k: int| 0 <= k < file.len() implies (#[trigger] file[k]).len() > 0
            && !file[k].contains('/') && file[k] != "."@ by {
            assert(is_python_name(names[k]));
            lemma_python_name(names[k]);
        }
        assert forall|k: int| 0 <= k < init.len() implies (#[trigger] init[k]).len() > 0
            && !init[k].contains('/') && init[k] != "."@ by {
            if k < names.len() {
                assert(is_python_name(names[k]));
                lemma_python_name(names[k]);
            }
        }
        law_names_between_slashes(file);
        law_names_between_slashes(init);
        assert(is_python_name(names[0]));
        lemma_join_begins(names, "/"@);
        assert((rel + ".py"@)[0] == names[0][0]);
        assert((rel + "/__init__.py"@)[0] == names[0][0]);
        assert(file[0] != "."@ && init[0] != "."@);
        law_components_under(base, rel + ".py"@);
        law_components_under(base, rel + "/__init__.py"@);
        assert(python_paths(raw, from).map_values(f) =~= seq![dir + file, dir + init, file, init]);
    }
}

/// A Python import of the module `m1.m2` leads to the file `m1/m2.py` or else to
/// `m1/m2/__init__.py`, each first below the directory of the importing file and then
/// from the root of the repository. Dots before the module lead up: with one it is looked
/// up from the directory of the importing file, with each further one from one directory
/// higher up. Dots alone lead to the `__init__.py` of that directory.
pub proof fn law_python_import(
    keyword: Seq<char>,
    space: Seq<char>,
    dots: nat,
    names: Seq<Seq<char>>,
    rest: Seq<char>,
    from: Seq<char>,
    files: Seq<(i64, Seq<char>)>,
    dirs: Seq<(Seq<char>, Seq<i64>)>,
)
    requires
        keyword == "import "@ || keyword == "from "@,
        forall|k: int| 0 <= k < space.len() ==> is_white(#[trigger] space[k]),
        forall|k: int| 0 <= k < names.len() ==> is_python_name(#[trigger] names[k]),
        names.len() > 0 || dots > 0,
        rest.len() == 0 || is_white(rest[0]),
        components(from).len() > 0,
        components(from)[0] != "/"@,
    ensures
        ({
            let import = keyword + space + (Seq::new(dots, |i: int| '.') + join(names, "."@))
                + rest;
            let r = listed(python_target(import, from, by_path(files)));
            let dir = above(
                components(from),
                if dots == 0 {
                    1
                } else {
                    dots as int
                },
            );
            &&& names.len() == 0 ==> is_first_held(files, seq![dir + seq!["__init__.py"@]], r)
            &&& names.len() > 0 ==> is_first_held(
                files,
                seq![
                    dir + names.drop_last().push(names.last() + ".py"@),
                    dir + names.push("__init__.py"@),
                    names.drop_last().push(names.last() + ".py"@),
                    names.push("__init__.py"@),
                ],
                r,
            )
            &&& extension(from) == Some("py"@) ==> import_targets(import, from, by_path(files), dirs)
                == r
        }),
{
    let raw = Seq::new(dots, |i: int| '.') + join(names, "."@);
    lemma_python_raw(keyword, space, dots, names, rest);
    lemma_python_places(dots, names, from);
    law_first_path(files, python_paths(raw, from));
    reveal_strlit("rs");
    reveal_strlit("py");
    assert("rs"@[0] == 'r' && "py"@[0] == 'p');
}

/// A Python import of `m1.m2` leads to the file `m1/m2.py` of the repository where
/// neither a file nor a package of that name stands below the directory of the importing
/// file.
pub proof fn law_python_module_from_root(
    keyword: Seq<char>,
    names: Seq<Seq<char>>,
    rest: Seq<char>,
    from: Seq<char>,
    files: Seq<(i64, Seq<char>)>,
    i: int,
)
    requires
        keyword == "import "@ || keyword == "from "@,
        names.len() > 0,
        forall|k: int| 0 <= k < names.len() ==> is_python_name(#[trigger] names[k]),
        rest.len() == 0 || is_white(rest[0]),
        components(from).len() > 0,
        components(from)[0] != "/"@,
        0 <= i < files.len(),
        components(files[i].1) == names.drop_last().push(names.last() + ".py"@),
        forall|j: int| 0 <= j < i ==> components((#[trigger] files[j]).1) != components(files[i].1),
        forall|j: int|
            0 <= j < files.len() ==> components((#[trigger] files[j]).1) != components(
                from,
            ).drop_last() + names.drop_last().push(names.last() + ".py"@) && components(files[j].1)
                != components(from).drop_last() + names.push("__init__.py"@),
    ensures
        listed(python_target(keyword + join(names, "."@) + rest, from, by_path(files))) == seq![
            files[i].0,
        ],
{
    let none = Seq::new(0, |i: int| '.');
    assert(none + join(names, "."@) =~= join(names, "."@));
    assert(keyword + Seq::<char>::empty() =~= keyword);
    law_python_import(keyword, Seq::empty(), 0, names, rest, from, files, Seq::empty());
    let r = listed(python_target(keyword + join(names, "."@) + rest, from, by_path(files)));
    let dir = above(components(from), 1);
    assert(dir =~= components(from).drop_last());
    let file = names.drop_last().push(names.last() + ".py"@);
    let init = names.push("__init__.py"@);
    let places = seq![dir + file, dir + init, file, init];
    assert(has_file(files, places[2])) by {
        assert(components(files[i].1) == file);
    }
    assert(!has_file(files, places[0]));
    assert(!has_file(files, places[1]));
    let k = choose|k: int|
        0 <= k < places.len() && r.len() == 1 && is_first_file(files, #[trigger] places[k], r[0])
            && forall|l: int| 0 <= l < k ==> !has_file(files, #[trigger] places[l]);
    assert(k == 2) by {
        if k == 0 || k == 1 {
            let m = choose|m: int|
                0 <= m < files.len() && components((#[trigger] files[m]).1) == places[k]
                    && files[m].0 == r[0];
            assert(has_file(files, places[k]));
        }
        if k == 3 {
            assert(!has_file(files, places[2]));
        }
    }
    let m = choose|m: int|
        0 <= m < files.len() && components((#[trigger] files[m]).1) == file && files[m].0 == r[0]
            && forall|j: int| 0 <= j < m ==> components((#[trigger] files[j]).1) != file;
    assert(m == i) by {
        if i < m {
            assert(components(files[i].1) != file);
        }
        if m < i {
            assert(components(files[m].1) != components(files[i].1));
        }
    }
    assert(r =~= seq![files[i].0]);
}

/// What does not begin with `import` or `from` names no module.
pub proof fn law_python_keyword(
    import: Seq<char>,
    from: Seq<char>,
    files: Map<Seq<char>, i64>,
)
    requires
        !"import "@.is_prefix_of(import),
        !"from "@.is_prefix_of(import),
    ensures
        listed(python_target(import, from, files)).len() == 0,
{
}

// ---------------------------------------------------------------------------
// Rust

/// Whether a text can be a name in the path of a Rust `use`.
pub open spec fn is_rust_name(s: Seq<char>) -> bool {
    s.len() > 0 && !s.contains(':') && !s.contains('/') && !s.contains('.')
}

proof fn lemma_rust_name(s: Seq<char>)
    requires
        is_rust_name(s),
    ensures
        s != "."@,
        !(s + ".rs"@).contains('/'),
        s + ".rs"@ != "."@,
{
    reveal_strlit(".");
    reveal_strlit(".rs");
    let t = s + ".rs"@;
    assert(t.len() == s.len() + 3 && "."@.len() == 1);
    if s == "."@ {
        assert(s[0] == '.');
        assert(s.contains('.'));
    }
    if t.contains('/') {
        let k = choose|k: int| 0 <= k < t.len() && t[k] == '/';
        if k < s.len() {
            assert(s[k] == '/');
            assert(s.contains('/'));
        } else {
            assert(".rs"@[k - s.len()] == '/');
        }
    }
}

/// The path `crate::m1::m2` leads to the file `src/m1/m2.rs`, or else to
/// `src/m1/m2/mod.rs`.
pub proof fn law_rust_module(names: Seq<Seq<char>>, files: Seq<(i64, Seq<char>)>)
    requires
        names.len() > 0,
        forall|k: int| 0 <= k < names.len() ==> is_rust_name(#[trigger] names[k]),
    ensures
        is_first_held(
            files,
            seq![
                seq!["src"@] + names.drop_last().push(names.last() + ".rs"@),
                seq!["src"@] + names.push("mod.rs"@),
            ],
            listed(module_target("crate::"@ + join(names, "::"@), by_path(files))),
        ),
{
    reveal_strlit("crate::");
    reveal_strlit("::");
    reveal_strlit("src");
    reveal_strlit("src/");
    reveal_strlit("/");
    reveal_strlit("mod.rs");
    reveal_strlit("/mod.rs");
    reveal_strlit(".rs");
    reveal_strlit(".");
    let tail = join(names, "::"@);
    let path = "crate::"@ + tail;
    assert(path.subrange(0, "crate::"@.len() as int) =~= "crate::"@);
    assert(path.skip("crate::"@.len() as int) =~= tail);
    assert forall|k: int| 0 <= k < names.len() implies !(#[trigger] names[k]).contains(
        "::"@[0],
    ) by {
        assert(is_rust_name(names[k]));
    }
    law_replace_between(names, "::"@, "/"@);
    let rel = replace(tail, "::"@, "/"@);
    assert(rel == join(names, "/"@));
    let src = seq!["src"@];
    let file = names.drop_last().push(names.last() + ".rs"@);
    let inner = names.push("mod.rs"@);
    assert(file.drop_last() =~= names.drop_last());
    assert(inner.drop_last() =~= names);
    law_join(src, file, "/"@);
    law_join(src, inner, "/"@);
    assert("src/"@ + rel + ".rs"@ =~= join(src + file, "/"@));
    assert("src/"@ + rel + "/mod.rs"@ =~= join(src + inner, "/"@));
    assert(!"src"@.contains('/'));
    assert(!"mod.rs"@.contains('/'));
    assert("src"@ != "."@ && "mod.rs"@ != "."@) by {
        assert("src"@.len() == 3 && "mod.rs"@.len() == 6 && "."@.len() == 1);
    }
    let a = src + file;
    assert forall|k: int| 0 <= k < a.len() implies (#[trigger] a[k]).len() > 0 && !a[k].contains(
        '/',
    ) && a[k] != "."@ by {
        if k > 0 {
            assert(a[k] == file[k - 1]);
            assert(is_rust_name(names[k - 1]));
            lemma_rust_name(names[k - 1]);
        }
    }
    let b = src + inner;
    assert forall|k: int| 0 <= k < b.len() implies (#[trigger] b[k]).len() > 0 && !b[k].contains(
        '/',
    ) && b[k] != "."@ by {
        if k > 0 {
            assert(b[k] == inner[k - 1]);
            if k - 1 < names.len() {
                assert(is_rust_name(names[k - 1]));
                lemma_rust_name(names[k - 1]);
            }
        }
    }
    law_names_between_slashes(a);
    law_names_between_slashes(b);
    law_first_path(files, module_paths(tail));
    assert(module_paths(tail).map_values(|p: Seq<char>| components(p)) =~= seq![a, b]);
}

/// A path that does not begin with `crate::` leads to no file of the repository.
pub proof fn law_rust_other_crates(path: Seq<char>, files: Map<Seq<char>, i64>)
    requires
        !"crate::"@.is_prefix_of(path),
    ensures
        listed(module_target(path, files)).len() == 0,
{
}

/// A `use` leads to the files of all paths that it stands for, in their order.
pub proof fn law_rust_paths_one_by_one(
    a: Seq<Seq<char>>,
    path: Seq<char>,
    b: Seq<Seq<char>>,
    files: Map<Seq<char>, i64>,
    import: Seq<char>,
    from: Seq<char>,
    dirs: Seq<(Seq<char>, Seq<i64>)>,
)
    ensures
        module_targets(a + seq![path] + b, files) == module_targets(a, files) + listed(
            module_target(path, files),
        ) + module_targets(b, files),
        module_targets(Seq::empty(), files).len() == 0,
        extension(from) == Some("rs"@) ==> import_targets(import, from, files, dirs)
            == module_targets(expanded(import), files),
    decreases b.len(),
{
    let all = a + seq![path] + b;
    if b.len() == 0 {
        assert(all.drop_last() =~= a);
        assert(all.last() == path);
        assert(module_targets(b, files) =~= Seq::empty());
        assert(module_targets(a, files) + listed(module_target(path, files)) + module_targets(
            b,
            files,
        ) =~= module_targets(a, files) + listed(module_target(path, files)));
    } else {
        law_rust_paths_one_by_one(a, path, b.drop_last(), files, import, from, dirs);
        assert(all.drop_last() =~= a + seq![path] + b.drop_last());
        assert(all.last() == b.last());
        let x = module_targets(a, files) + listed(module_target(path, files));
        let y = module_targets(b.drop_last(), files);
        let z = listed(module_target(b.last(), files));
        assert((x + y) + z =~= x + (y + z));
    }
}

// ---------------------------------------------------------------------------
// TypeScript and JavaScript

proof fn lemma_quotes(c: char)
    ensures
        among("\"'`"@)(c) <==> c == '"' || c == '\'' || c == '`',
{
    reveal_strlit("\"'`");
    let set = "\"'`"@;
    assert(set.len() == 3);
    assert(set[0] == '"' && set[1] == '\'' && set[2] == '`');
}

/// The module of an import stands between the first quotation mark and the next one of
/// the same kind. Without a pair of these there is none.
pub proof fn law_specifier(a: Seq<char>, q: char, module: Seq<char>, b: Seq<char>)
    requires
        !a.contains('"'),
        !a.contains('\''),
        !a.contains('`'),
        q == '"' || q == '\'' || q == '`',
        !module.contains(q),
    ensures
        specifier(a + seq![q] + module + seq![q] + b) == Some(module),
        specifier(a) is None,
        specifier(a + seq![q] + module) is None,
{
    let p = among("\"'`"@);
    let only = among(seq![q]);
    assert(seq![q][0] == q);
    assert(only(q));
    lemma_quotes(q);
    assert forall|k: int| 0 <= k < a.len() implies !p(#[trigger] a[k]) by {
        lemma_quotes(a[k]);
        assert(a.contains(a[k]));
    }
    lemma_find_is(a, p, a.len() as int);
    assert forall|k: int| 0 <= k < module.len() implies !only(#[trigger] module[k]) by {
        assert(module.contains(module[k]));
    }
    let s = a + seq![q] + module + seq![q] + b;
    assert forall|k: int| 0 <= k < a.len() implies !p(#[trigger] s[k]) by {
        assert(s[k] == a[k]);
    }
    assert(s[a.len() as int] == q);
    lemma_find_is(s, p, a.len() as int);
    let rest = s.skip(a.len() + 1int);
    assert(rest =~= module + seq![q] + b);
    assert forall|k: int| 0 <= k < module.len() implies !only(#[trigger] rest[k]) by {
        assert(rest[k] == module[k]);
    }
    assert(rest[module.len() as int] == q);
    lemma_find_is(rest, only, module.len() as int);
    assert(rest.take(module.len() as int) =~= module);
    let t = a + seq![q] + module;
    assert forall|k: int| 0 <= k < a.len() implies !p(#[trigger] t[k]) by {
        assert(t[k] == a[k]);
    }
    assert(t[a.len() as int] == q);
    lemma_find_is(t, p, a.len() as int);
    assert(t.skip(a.len() + 1int) =~= module);
    lemma_find_is(module, only, module.len() as int);
}

/// Collapsing depends on what stands before a component only by what that collapses to.
proof fn lemma_collapse_after(a: Seq<Seq<char>>, x: Seq<Seq<char>>, b: Seq<Seq<char>>)
    requires
        collapsed(a) == collapsed(x),
    ensures
        collapsed(a + b) == collapsed(x + b),
    decreases b.len(),
{
    if b.len() == 0 {
        assert(a + b =~= a);
        assert(x + b =~= x);
    } else {
        lemma_collapse_after(a, x, b.drop_last());
        assert((a + b).drop_last() =~= a + b.drop_last());
        assert((x + b).drop_last() =~= x + b.drop_last());
    }
}

proof fn lemma_nothing_after_none(a: Seq<Seq<char>>, b: Seq<Seq<char>>)
    requires
        collapsed(a) is None,
    ensures
        collapsed(a + b) is None,
    decreases b.len(),
{
    if b.len() == 0 {
        assert(a + b =~= a);
    } else {
        lemma_nothing_after_none(a, b.drop_last());
        assert((a + b).drop_last() =~= a + b.drop_last());
    }
}

/// A single dot in a path is dropped, and two dots are dropped together with the name
/// before them. A path that begins with two dots, or goes up from the root, leads
/// nowhere.
pub proof fn law_collapsed(a: Seq<Seq<char>>, name: Seq<char>, b: Seq<Seq<char>>)
    ensures
        collapsed(a + seq!["."@] + b) == collapsed(a + b),
        name != "."@ && name != ".."@ && name != "/"@ ==> collapsed(a + seq![name, ".."@] + b)
            == collapsed(a + b),
        collapsed(seq![".."@] + b) is None,
        collapsed(seq!["/"@, ".."@] + b) is None,
        (forall|k: int| 0 <= k < a.len() ==> #[trigger] a[k] != "."@ && a[k] != ".."@)
            ==> collapsed(a) == Some(a),
    decreases a.len(),
{
    reveal_strlit(".");
    reveal_strlit("..");
    reveal_strlit("/");
    assert("."@.len() == 1 && ".."@.len() == 2 && "/"@.len() == 1);
    assert("/"@[0] == '/' && "."@[0] == '.');
    let dot = a + seq!["."@];
    assert(dot.drop_last() =~= a);
    lemma_collapse_after(dot, a, b);
    if name != "."@ && name != ".."@ && name != "/"@ {
        let two = a + seq![name, ".."@];
        assert(two.drop_last() =~= a.push(name));
        assert(a.push(name).drop_last() =~= a);
        assert(two.last() == ".."@);
        assert(a.push(name).last() == name);
        if let Some(out) = collapsed(a) {
            assert(collapsed(a.push(name)) == Some(out.push(name)));
            assert(out.push(name).last() == name);
            assert(out.push(name).drop_last() =~= out);
        } else {
            assert(collapsed(a.push(name)) is None);
        }
        lemma_collapse_after(two, a, b);
    }
    let up = seq![".."@];
    assert(up.drop_last() =~= Seq::empty());
    assert(up.last() == ".."@);
    assert(collapsed(Seq::<Seq<char>>::empty()) == Some(Seq::<Seq<char>>::empty()));
    assert(collapsed(up) is None);
    lemma_nothing_after_none(up, b);
    let above_root = seq!["/"@, ".."@];
    assert(above_root.drop_last() =~= seq!["/"@]);
    assert(seq!["/"@].drop_last() =~= Seq::empty());
    reveal_with_fuel(collapsed, 3);
    assert(collapsed(seq!["/"@]) == Some(Seq::<Seq<char>>::empty().push("/"@)));
    assert(collapsed(above_root) is None);
    lemma_nothing_after_none(above_root, b);
    if forall|k: int| 0 <= k < a.len() ==> #[trigger] a[k] != "."@ && a[k] != ".."@ {
        if a.len() > 0 {
            let init = a.drop_last();
            assert forall|k: int| 0 <= k < init.len() implies #[trigger] init[k] != "."@ && init[k]
                != ".."@ by {
                assert(init[k] == a[k]);
            }
            law_collapsed(init, name, b);
            assert(a[a.len() - 1] != "."@);
            assert(init.push(a.last()) =~= a);
        } else {
            assert(a =~= Seq::empty());
        }
    }
}

/// Where the module with the components `t` may stand: at its path itself, then with each
/// of the extensions, then as an index file in the directory of that name.
pub open spec fn script_places(t: Seq<Seq<char>>) -> Seq<Seq<Seq<char>>> {
    let dir = t.drop_last();
    let name = t.last();
    seq![
        t,
        dir.push(name + ".ts"@),
        dir.push(name + ".tsx"@),
        dir.push(name + ".js"@),
        dir.push(name + ".jsx"@),
        dir.push(name + ".mts"@),
        dir.push(name + ".cts"@),
        dir.push(name + ".mjs"@),
        dir.push(name + ".cjs"@),
        t.push("index.ts"@),
        t.push("index.tsx"@),
        t.push("index.js"@),
        t.push("index.jsx"@),
        t.push("index.mts"@),
        t.push("index.cts"@),
        t.push("index.mjs"@),
        t.push("index.cjs"@),
    ]
}

/// Whether a text names something in a directory.
pub open spec fn is_plain_name(s: Seq<char>) -> bool {
    s.len() > 0 && !s.contains('/') && s != "."@ && s != ".."@
}

proof fn lemma_no_slash(a: Seq<char>, b: Seq<char>)
    requires
        !a.contains('/'),
        !b.contains('/'),
    ensures
        !(a + b).contains('/'),
{
    let t = a + b;
    if t.contains('/') {
        let k = choose|k: int| 0 <= k < t.len() && t[k] == '/';
        if k < a.len() {
            assert(a[k] == '/');
        } else {
            assert(b[k - a.len()] == '/');
        }
    }
}

proof fn lemma_script_place(t: Seq<Seq<char>>, ext: Seq<char>)
    requires
        t.len() > 0,
        forall|k: int| 0 <= k < t.len() ==> is_plain_name(#[trigger] t[k]),
        !ext.contains('/'),
        ext.len() > 0,
    ensures
        components(join(t, "/"@) + "."@ + ext) == t.drop_last().push(t.last() + ("."@ + ext)),
        components(under(join(t, "/"@), "index."@ + ext)) == t.push("index."@ + ext),
{
    reveal_strlit(".");
    reveal_strlit("index.");
    let path = join(t, "/"@);
    let file = t.drop_last().push(t.last() + ("."@ + ext));
    assert(is_plain_name(t[t.len() - 1]));
    assert(!"."@.contains('/'));
    assert(!"index."@.contains('/'));
    lemma_no_slash("."@, ext);
    lemma_no_slash(t.last(), "."@ + ext);
    lemma_no_slash("index."@, ext);
    assert((t.last() + ("."@ + ext)).len() == t.last().len() + 1 + ext.len());
    assert forall|k: int| 0 <= k < file.len() implies (#[trigger] file[k]).len() > 0
        && !file[k].contains('/') && file[k] != "."@ by {
        if k < t.len() - 1 {
            assert(is_plain_name(t[k]));
        }
    }
    law_names_between_slashes(file);
    assert(file.drop_last() =~= t.drop_last());
    assert(path + "."@ + ext =~= join(file, "/"@));
    assert forall|k: int| 0 <= k < t.len() implies (#[trigger] t[k]).len() > 0 && !t[k].contains(
        '/',
    ) && t[k] != "."@ by {
        assert(is_plain_name(t[k]));
    }
    law_names_between_slashes(t);
    let index = "index."@ + ext;
    assert(index.len() == 6 + ext.len());
    let one = seq![index];
    law_names_between_slashes(one);
    law_join(one, Seq::empty(), "/"@);
    assert(index[0] == 'i');
    law_components_under(path, index);
    assert(t + one =~= t.push(index));
}

proof fn lemma_script_places(t: Seq<Seq<char>>)
    requires
        t.len() > 0,
        forall|k: int| 0 <= k < t.len() ==> is_plain_name(#[trigger] t[k]),
    ensures
        script_paths(join(t, "/"@)).map_values(|p: Seq<char>| components(p)) == script_places(t),
{
    let path = join(t, "/"@);
    let f = |p: Seq<char>| components(p);
    assert forall|k: int| 0 <= k < t.len() implies (#[trigger] t[k]).len() > 0 && !t[k].contains(
        '/',
    ) && t[k] != "."@ by {
        assert(is_plain_name(t[k]));
    }
    law_names_between_slashes(t);
    let exts = script_extensions();
    reveal_strlit(".");
    reveal_strlit("index.");
    reveal_strlit("ts");
    reveal_strlit("tsx");
    reveal_strlit("js");
    reveal_strlit("jsx");
    reveal_strlit("mts");
    reveal_strlit("cts");
    reveal_strlit("mjs");
    reveal_strlit("cjs");
    reveal_strlit(".ts");
    reveal_strlit(".tsx");
    reveal_strlit(".js");
    reveal_strlit(".jsx");
    reveal_strlit(".mts");
    reveal_strlit(".cts");
    reveal_strlit(".mjs");
    reveal_strlit(".cjs");
    reveal_strlit("index.ts");
    reveal_strlit("index.tsx");
    reveal_strlit("index.js");
    reveal_strlit("index.jsx");
    reveal_strlit("index.mts");
    reveal_strlit("index.cts");
    reveal_strlit("index.mjs");
    reveal_strlit("index.cjs");
    assert("."@ + "ts"@ =~= ".ts"@);
    assert("."@ + "tsx"@ =~= ".tsx"@);
    assert("."@ + "js"@ =~= ".js"@);
    assert("."@ + "jsx"@ =~= ".jsx"@);
    assert("."@ + "mts"@ =~= ".mts"@);
    assert("."@ + "cts"@ =~= ".cts"@);
    assert("."@ + "mjs"@ =~= ".mjs"@);
    assert("."@ + "cjs"@ =~= ".cjs"@);
    assert("index."@ + "ts"@ =~= "index.ts"@);
    assert("index."@ + "tsx"@ =~= "index.tsx"@);
    assert("index."@ + "js"@ =~= "index.js"@);
    assert("index."@ + "jsx"@ =~= "index.jsx"@);
    assert("index."@ + "mts"@ =~= "index.mts"@);
    assert("index."@ + "cts"@ =~= "index.cts"@);
    assert("index."@ + "mjs"@ =~= "index.mjs"@);
    assert("index."@ + "cjs"@ =~= "index.cjs"@);
    assert forall|k: int| 0 <= k < 8 implies {
        let e = #[trigger] exts[k];
        &&& components(path + "."@ + e) == t.drop_last().push(t.last() + ("."@ + e))
        &&& components(under(path, "index."@ + e)) == t.push("index."@ + e)
    } by {
        let e = exts[k];
        assert(!e.contains('/'));
        lemma_script_place(t, e);
    }
    let got = script_paths(path).map_values(f);
    let want = script_places(t);
    assert(got.len() == 17);
    assert forall|k: int| 0 <= k < 17 implies #[trigger] got[k] == want[k] by {
        if 0 < k && k <= 8 {
            assert(script_paths(path)[k] == path + "."@ + exts[k - 1]);
        } else if k > 8 {
            assert(script_paths(path)[k] == under(path, "index."@ + exts[k - 9]));
        }
    }
    assert(got =~= want);
}

/// So many steps up.
pub open spec fn steps_up(n: nat) -> Seq<Seq<char>> {
    Seq::new(n, |i: int| ".."@)
}

proof fn lemma_collapse_up(dir: Seq<Seq<char>>, n: nat, rest: Seq<Seq<char>>)
    requires
        forall|k: int| 0 <= k < dir.len() ==> is_plain_name(#[trigger] dir[k]),
        forall|k: int| 0 <= k < rest.len() ==> is_plain_name(#[trigger] rest[k]),
    ensures
        n <= dir.len() ==> collapsed(dir + steps_up(n) + rest) == Some(
            dir.take(dir.len() - n) + rest,
        ),
        n > dir.len() ==> collapsed(dir + steps_up(n) + rest) is None,
    decreases n,
{
    reveal_strlit("/");
    if n == 0 {
        let all = dir + rest;
        assert(dir + steps_up(0) + rest =~= all);
        assert forall|k: int| 0 <= k < all.len() implies #[trigger] all[k] != "."@ && all[k]
            != ".."@ by {
            if k < dir.len() {
                assert(is_plain_name(dir[k]));
            } else {
                assert(is_plain_name(rest[k - dir.len()]));
            }
        }
        law_collapsed(all, "."@, Seq::empty());
        assert(dir.take(dir.len() - n) =~= dir);
    } else {
        let less = steps_up((n - 1) as nat);
        assert(steps_up(n) =~= seq![".."@] + less);
        if dir.len() == 0 {
            law_collapsed(dir, "."@, less + rest);
            assert(dir + steps_up(n) + rest =~= seq![".."@] + (less + rest));
        } else {
            let init = dir.drop_last();
            let name = dir[dir.len() - 1];
            assert(is_plain_name(name));
            if name == "/"@ {
                assert(name[0] == '/');
                assert(name.contains('/'));
            }
            assert forall|k: int| 0 <= k < init.len() implies is_plain_name(#[trigger] init[k]) by {
                assert(init[k] == dir[k]);
            }
            law_collapsed(init, name, less + rest);
            assert(dir + steps_up(n) + rest =~= init + seq![name, ".."@] + (less + rest));
            lemma_collapse_up(init, (n - 1) as nat, rest);
            assert(init + (less + rest) =~= init + less + rest);
            if n <= dir.len() {
                assert(init.take(init.len() - (n - 1)) =~= dir.take(dir.len() - n));
            }
        }
    }
}

proof fn lemma_names_of_path(p: Seq<char>)
    requires
        components(p).len() > 0 ==> components(p)[0] != "/"@,
        forall|k: int|
            0 <= k < components(p).len() ==> #[trigger] components(p)[k] != "."@ && components(p)[k]
                != ".."@,
    ensures
        forall|k: int| 0 <= k < components(p).len() ==> is_plain_name(#[trigger] components(p)[k]),
{
    lemma_components(p);
    let parts = components(p);
    assert forall|k: int| 0 <= k < parts.len() implies is_plain_name(#[trigger] parts[k]) by {
        assert(is_part(parts[k]) || k == 0);
    }
}

proof fn lemma_relative_module(n: nat, names: Seq<Seq<char>>, module: Seq<char>)
    requires
        names.len() > 0,
        forall|k: int| 0 <= k < names.len() ==> is_plain_name(#[trigger] names[k]),
        module == if n == 0 {
            "./"@ + join(names, "/"@)
        } else {
            join(steps_up(n) + names, "/"@)
        },
    ensures
        "./"@.is_prefix_of(module) || "../"@.is_prefix_of(module),
        module.len() > 0,
        module[0] != '/',
        components(module) == if n == 0 {
            seq!["."@] + names
        } else {
            steps_up(n) + names
        },
{
    reveal_strlit("./");
    reveal_strlit("../");
    reveal_strlit(".");
    reveal_strlit("..");
    reveal_strlit("/");
    if n == 0 {
        let one = seq!["."@];
        let all = one + names;
        law_join(one, names, "/"@);
        assert(module =~= join(all, "/"@));
        assert(module.subrange(0, 2) =~= "./"@);
        assert forall|k: int| 0 <= k < all.len() implies is_part(#[trigger] all[k]) || (k == 0 && (
        all[k] == "/"@ || all[k] == "."@)) by {
            if k > 0 {
                assert(all[k] == names[k - 1]);
                assert(is_plain_name(names[k - 1]));
            }
        }
        assert("."@[0] == '.' && "/"@[0] == '/');
        assert(all[0] != "/"@);
        law_written_components(all);
    } else {
        let all = steps_up(n) + names;
        let first = seq![".."@];
        let tail = all.drop_first();
        assert(all =~= first + tail);
        law_join(first, tail, "/"@);
        assert(module =~= ".."@ + "/"@ + join(tail, "/"@));
        assert(module.subrange(0, 3) =~= "../"@);
        assert(!".."@.contains('/'));
        assert(".."@.len() == 2 && "."@.len() == 1);
        assert forall|k: int| 0 <= k < all.len() implies (#[trigger] all[k]).len() > 0
            && !all[k].contains('/') && all[k] != "."@ by {
            if k >= n {
                assert(all[k] == names[k - n]);
                assert(is_plain_name(names[k - n]));
            } else {
                assert(all[k] == ".."@);
            }
        }
        law_names_between_slashes(all);
    }
}

/// An import of a script names a module by a path from its own directory, with `./` or
/// with so many steps up before it. The file that it leads to is the one at that path,
/// else the one with the first of the extensions, else the index file with the first of
/// them. A path that leads out of the repository leads to nothing.
pub proof fn law_script_import(
    a: Seq<char>,
    q: char,
    n: nat,
    names: Seq<Seq<char>>,
    module: Seq<char>,
    b: Seq<char>,
    from: Seq<char>,
    files: Seq<(i64, Seq<char>)>,
)
    requires
        !a.contains('"'),
        !a.contains('\''),
        !a.contains('`'),
        q == '"' || q == '\'' || q == '`',
        names.len() > 0,
        forall|k: int| 0 <= k < names.len() ==> is_plain_name(#[trigger] names[k]),
        module == if n == 0 {
            "./"@ + join(names, "/"@)
        } else {
            join(steps_up(n) + names, "/"@)
        },
        !module.contains(q),
        components(from).len() > 0,
        components(from)[0] != "/"@,
        forall|k: int|
            0 <= k < components(from).len() ==> #[trigger] components(from)[k] != "."@
                && components(from)[k] != ".."@,
    ensures
        ({
            let dir = components(from).drop_last();
            let r = listed(
                script_target(a + seq![q] + module + seq![q] + b, from, by_path(files)),
            );
            &&& n <= dir.len() ==> is_first_held(
                files,
                script_places(dir.take(dir.len() - n) + names),
                r,
            )
            &&& n > dir.len() ==> r.len() == 0
        }),
{
    law_specifier(a, q, module, b);
    lemma_relative_module(n, names, module);
    let base = directory(from);
    let dir = components(from).drop_last();
    law_directory(from);
    assert(components(base) =~= dir);
    lemma_names_of_path(from);
    assert forall|k: int| 0 <= k < dir.len() implies is_plain_name(#[trigger] dir[k]) by {
        assert(dir[k] == components(from)[k]);
    }
    reveal_strlit("..");
    reveal_strlit(".");
    reveal_strlit("/");
    let p = under(base, module);
    law_components_under(base, module);
    lemma_collapse_up(dir, n, names);
    if n == 0 {
        assert(dir + steps_up(0) + names =~= dir + names);
        assert((seq!["."@] + names).drop_first() =~= names);
        if base.len() == 0 {
            lemma_empty_path();
            reveal_strlit("");
            assert(base =~= ""@);
            assert(dir =~= Seq::empty());
            let none = Seq::<Seq<char>>::empty();
            law_collapsed(none, "."@, names);
            assert(none + seq!["."@] + names =~= seq!["."@] + names);
            assert(dir + names =~= none + names);
        }
    } else {
        assert((steps_up(n) + names)[0] == ".."@);
        assert(".."@.len() == 2 && "."@.len() == 1);
        assert(dir + (steps_up(n) + names) =~= dir + steps_up(n) + names);
    }
    if n <= dir.len() {
        let t = dir.take(dir.len() - n) + names;
        assert forall|k: int| 0 <= k < t.len() implies is_plain_name(#[trigger] t[k]) by {
            if k < dir.len() - n {
                assert(t[k] == dir[k]);
            } else {
                assert(t[k] == names[k - (dir.len() - n)]);
            }
        }
        assert(is_plain_name(t[0]));
        if t[0] == "/"@ {
            assert(t[0][0] == '/');
            assert(t[0].contains('/'));
        }
        assert(normalized(p) == Some(join(t, "/"@)));
        lemma_script_places(t);
        law_first_path(files, script_paths(join(t, "/"@)));
    }
}

/// A module that is named by no relative path leads to nothing, nor does a text that
/// names none.
pub proof fn law_script_packages(
    a: Seq<char>,
    q: char,
    module: Seq<char>,
    b: Seq<char>,
    from: Seq<char>,
    files: Map<Seq<char>, i64>,
)
    requires
        !a.contains('"'),
        !a.contains('\''),
        !a.contains('`'),
        q == '"' || q == '\'' || q == '`',
        !module.contains(q),
    ensures
        !"./"@.is_prefix_of(module) && !"../"@.is_prefix_of(module) ==> listed(
            script_target(a + seq![q] + module + seq![q] + b, from, files),
        ).len() == 0,
        listed(script_target(a, from, files)).len() == 0,
        listed(script_target(a + seq![q] + module, from, files)).len() == 0,
{
    law_specifier(a, q, module, b);
}

// ---------------------------------------------------------------------------
// Go

/// The texts that are not empty.
pub open spec fn not_empty() -> spec_fn(Seq<char>) -> bool {
    |s: Seq<char>| s.len() > 0
}

proof fn lemma_non_empty(pieces: Seq<Seq<char>>)
    ensures
        non_empty(pieces) == pieces.filter(not_empty()),
    decreases pieces.len(),
{
    reveal(Seq::filter);
    if pieces.len() > 0 {
        lemma_non_empty(pieces.drop_last());
    }
}

proof fn lemma_quoted(inner: Seq<char>)
    requires
        !inner.contains('"'),
    ensures
        trim_end(
            trim_start(seq!['"'] + inner + seq!['"'], among("\""@)),
            among("\""@),
        ) == inner,
{
    reveal_strlit("\"");
    let p = among("\""@);
    let mark = seq!['"'];
    assert("\""@ =~= mark);
    assert(mark[0] == '"');
    assert(p('"'));
    if inner.len() == 0 {
        let both = mark + mark;
        assert(mark + inner + mark =~= both + inner);
        law_trim_ends(both, inner, p);
        law_trim_ends(Seq::empty(), inner, p);
        assert(inner + Seq::<char>::empty() =~= inner);
    } else {
        assert(inner.contains(inner[0]));
        assert(inner.contains(inner[inner.len() - 1]));
        assert((inner + mark)[0] == inner[0]);
        assert(mark + inner + mark =~= mark + (inner + mark));
        law_trim_ends(mark, inner + mark, p);
        law_trim_ends(mark, inner, p);
    }
}

/// The segments of a Go import are what stands between the slashes of the quoted path,
/// without empty ones. The keyword and white space round the path do not matter.
pub proof fn law_go_segments(
    a: Seq<char>,
    b: Seq<char>,
    parts: Seq<Seq<char>>,
    c: Seq<char>,
)
    requires
        forall|k: int| 0 <= k < a.len() ==> is_white(#[trigger] a[k]),
        forall|k: int| 0 <= k < b.len() ==> is_white(#[trigger] b[k]),
        forall|k: int| 0 <= k < c.len() ==> is_white(#[trigger] c[k]),
        parts.len() > 0,
        forall|k: int| 0 <= k < parts.len() ==> !(#[trigger] parts[k]).contains('/'),
        !join(parts, "/"@).contains('"'),
    ensures
        go_segments(a + ("import"@ + b + "\""@ + join(parts, "/"@) + "\""@) + c) == parts.filter(
            |s: Seq<char>| s.len() > 0,
        ),
        go_segments(a + ("\""@ + join(parts, "/"@) + "\""@) + c) == parts.filter(
            |s: Seq<char>| s.len() > 0,
        ),
{
    reveal_strlit("import");
    reveal_strlit("\"");
    reveal_strlit("/");
    let inner = join(parts, "/"@);
    let mark = seq!['"'];
    assert("\""@ =~= mark);
    assert("/"@ =~= seq!['/']);
    let quoted = mark + inner + mark;
    lemma_quoted(inner);
    law_split_joined(parts, '/');
    lemma_non_empty(parts);
    assert((|s: Seq<char>| s.len() > 0) =~= not_empty());
    let none = Seq::<char>::empty();
    let m = "import"@ + b + "\""@ + inner + "\""@;
    assert(m =~= "import"@ + (b + quoted));
    assert(m[0] == 'i' && m.last() == '"');
    law_trim(a, m, c);
    law_strip(b + quoted, "import"@);
    assert(!"import"@.is_prefix_of(b + quoted)) by {
        assert((b + quoted)[0] == if b.len() > 0 {
            b[0]
        } else {
            '"'
        });
        if "import"@.is_prefix_of(b + quoted) {
            assert("import"@[0] == (b + quoted)[0]);
            assert(!is_white('i'));
        }
    }
    assert(quoted[0] == '"' && quoted.last() == '"');
    law_trim(b, quoted, none);
    assert(b + quoted + none =~= b + quoted);
    assert("\""@ + inner + "\""@ =~= quoted);
    law_trim(a, quoted, c);
    law_strip(quoted, "import"@);
    assert(!"import"@.is_prefix_of(quoted)) by {
        if "import"@.is_prefix_of(quoted) {
            assert("import"@[0] == quoted[0]);
        }
    }
    law_trim(none, quoted, none);
    assert(none + quoted + none =~= quoted);
}

/// Whether a file stands in a directory whose last components are `tail`.
pub open spec fn in_package(file: Seq<char>, tail: Seq<Seq<char>>) -> bool {
    components(file).len() > 0 && tail.is_suffix_of(components(file).drop_last())
}

/// Whether a file is a test, generated code or a mock of Go.
pub open spec fn is_go_extra(file: Seq<char>) -> bool {
    let name = components(file).last();
    ||| "_test.go"@.is_suffix_of(name)
    ||| ".pb.go"@.is_suffix_of(name)
    ||| "mock_"@.is_prefix_of(name) && ".go"@.is_suffix_of(name)
}

proof fn lemma_skipped(file: Seq<char>)
    requires
        components(file).len() > 0,
    ensures
        is_skipped(file) == is_go_extra(file),
{
    reveal_strlit("_test.go");
    reveal_strlit(".pb.go");
    reveal_strlit("mock_");
    reveal_strlit(".go");
    reveal_strlit("/");
    reveal_strlit(".");
    reveal_strlit("..");
    assert("/"@.len() == 1 && "."@.len() == 1 && ".."@.len() == 2);
    assert("_test.go"@.len() == 8 && ".pb.go"@.len() == 6 && "mock_"@.len() == 5);
}

proof fn lemma_directory_names(files: Seq<(i64, Seq<char>)>, dir: Seq<char>)
    requires
        directory_names(files).contains(dir),
    ensures
        exists|i: int|
            0 <= i < files.len() && parent((#[trigger] files[i]).1) == Some(dir),
    decreases files.len(),
{
    broadcast use vstd::seq_lib::lemma_seq_contains_after_push;

    if files.len() > 0 {
        let init = files.drop_last();
        if directory_names(init).contains(dir) {
            lemma_directory_names(init, dir);
            let i = choose|i: int|
                0 <= i < init.len() && parent((#[trigger] init[i]).1) == Some(dir);
            assert(files[i] == init[i]);
        } else {
            assert(parent(files[files.len() - 1].1) == Some(dir));
        }
    }
}

proof fn lemma_in_package(file: Seq<char>, tail: Seq<Seq<char>>, suffix: Seq<char>)
    requires
        tail.len() > 0,
        components(suffix) == tail,
    ensures
        in_package(file, tail) <==> (parent(file) matches Some(dir) && ends_in(
            dir,
            suffix,
        )),
{
    law_parent(file);
    let parts = components(file);
    if parts.len() > 0 {
        if parts == seq!["/"@] {
            assert(parts.drop_last().len() == 0);
        }
    }
}

proof fn lemma_some_package(
    files: Seq<(i64, Seq<char>)>,
    tail: Seq<Seq<char>>,
    suffix: Seq<char>,
)
    requires
        tail.len() > 0,
        components(suffix) == tail,
    ensures
        some_ends_in(directories(files), suffix) <==> exists|i: int|
            0 <= i < files.len() && in_package((#[trigger] files[i]).1, tail),
        forall|id: i64|
            #[trigger] files_ending_in(directories(files), suffix).contains(id) <==> exists|i: int|
                0 <= i < files.len() && in_package((#[trigger] files[i]).1, tail) && files[i].0 == id
                    && !is_go_extra(files[i].1),
{
    let dirs = directories(files);
    let names = directory_names(files);
    if some_ends_in(dirs, suffix) {
        let k = choose|k: int| 0 <= k < dirs.len() && ends_in((#[trigger] dirs[k]).0, suffix);
        assert(names.contains(names[k]));
        lemma_directory_names(files, names[k]);
        let i = choose|i: int|
            0 <= i < files.len() && parent((#[trigger] files[i]).1) == Some(names[k]);
        lemma_in_package(files[i].1, tail, suffix);
        assert(in_package(files[i].1, tail));
    }
    if exists|i: int| 0 <= i < files.len() && in_package((#[trigger] files[i]).1, tail) {
        let i = choose|i: int| 0 <= i < files.len() && in_package((#[trigger] files[i]).1, tail);
        lemma_in_package(files[i].1, tail, suffix);
        lemma_directories(files, i);
        let dir = parent(files[i].1)->0;
        let k = choose|k: int| 0 <= k < names.len() && names[k] == dir;
        assert(dirs[k].0 == dir);
        assert(ends_in(dirs[k].0, suffix));
    }
    assert forall|id: i64|
        #[trigger] files_ending_in(dirs, suffix).contains(id) <==> exists|i: int|
            0 <= i < files.len() && in_package((#[trigger] files[i]).1, tail) && files[i].0 == id
                && !is_go_extra(files[i].1) by {
        lemma_files_ending_in(dirs, suffix, id);
        if files_ending_in(dirs, suffix).contains(id) {
            let k = choose|k: int|
                0 <= k < dirs.len() && ends_in((#[trigger] dirs[k]).0, suffix)
                    && dirs[k].1.contains(id);
            lemma_in_directory(files, dirs[k].0, id);
            let i = choose|i: int|
                0 <= i < files.len() && (#[trigger] files[i]).0 == id && parent(
                    files[i].1,
                ) == Some(dirs[k].0) && !is_skipped(files[i].1);
            lemma_in_package(files[i].1, tail, suffix);
            lemma_skipped(files[i].1);
            assert(in_package(files[i].1, tail));
        }
        if exists|i: int|
            0 <= i < files.len() && in_package((#[trigger] files[i]).1, tail) && files[i].0 == id
                && !is_go_extra(files[i].1) {
            let i = choose|i: int|
                0 <= i < files.len() && in_package((#[trigger] files[i]).1, tail) && files[i].0
                    == id && !is_go_extra(files[i].1);
            lemma_in_package(files[i].1, tail, suffix);
            lemma_skipped(files[i].1);
            lemma_directories(files, i);
            let dir = parent(files[i].1)->0;
            let k = choose|k: int| 0 <= k < names.len() && names[k] == dir;
            assert(dirs[k] == (dir, in_directory(files, dir)));
            assert(ends_in(dirs[k].0, suffix) && dirs[k].1.contains(id));
        }
    }
}

proof fn lemma_go_package(
    segments: Seq<Seq<char>>,
    n: nat,
    m: nat,
    files: Seq<(i64, Seq<char>)>,
)
    requires
        m <= n <= segments.len(),
        forall|k: int| 0 <= k < segments.len() ==> is_plain_name(#[trigger] segments[k]),
        m > 0 ==> exists|i: int|
            0 <= i < files.len() && in_package(
                (#[trigger] files[i]).1,
                segments.skip(segments.len() - m),
            ),
        forall|k: nat, i: int|
            m < k <= n && 0 <= i < files.len() ==> !#[trigger] in_package(
                files[i].1,
                segments.skip(segments.len() - k),
            ),
    ensures
        m > 0 ==> go_targets(segments, n, directories(files)) == files_ending_in(
            directories(files),
            join(segments.skip(segments.len() - m), "/"@),
        ),
        m == 0 ==> go_targets(segments, n, directories(files)).len() == 0,
    decreases n,
{
    if n > 0 {
        let tail = segments.skip(segments.len() - n);
        assert forall|k: int| 0 <= k < tail.len() implies (#[trigger] tail[k]).len() > 0
            && !tail[k].contains('/') && tail[k] != "."@ by {
            assert(is_plain_name(segments[segments.len() - n + k]));
        }
        law_names_between_slashes(tail);
        lemma_some_package(files, tail, join(tail, "/"@));
        if m < n {
            assert(!exists|i: int| 0 <= i < files.len() && in_package((#[trigger] files[i]).1, tail))
                by {
                if exists|i: int| 0 <= i < files.len() && in_package((#[trigger] files[i]).1, tail) {
                    let i = choose|i: int|
                        0 <= i < files.len() && in_package((#[trigger] files[i]).1, tail);
                    assert(!in_package(files[i].1, segments.skip(segments.len() - n)));
                }
            }
            lemma_go_package(segments, (n - 1) as nat, m, files);
        }
    }
}

/// A Go import leads to the files of all directories that end in the most segments of
/// its path, of the last ones, that some directory of the repository ends in, but not to
/// tests, generated code or mocks. Where no directory ends in the last segment it leads to
/// nothing.
pub proof fn law_go_import(segments: Seq<Seq<char>>, m: nat, files: Seq<(i64, Seq<char>)>, id: i64)
    requires
        forall|k: int| 0 <= k < segments.len() ==> is_plain_name(#[trigger] segments[k]),
        m <= segments.len(),
        m > 0 ==> exists|i: int|
            0 <= i < files.len() && in_package(
                (#[trigger] files[i]).1,
                segments.skip(segments.len() - m),
            ),
        forall|k: nat, i: int|
            m < k <= segments.len() && 0 <= i < files.len() ==> !#[trigger] in_package(
                files[i].1,
                segments.skip(segments.len() - k),
            ),
    ensures
        go_targets(segments, segments.len(), directories(files)).contains(id) <==> m > 0 && exists|
            i: int,
        |
            0 <= i < files.len() && in_package(
                (#[trigger] files[i]).1,
                segments.skip(segments.len() - m),
            ) && files[i].0 == id && !is_go_extra(files[i].1),
{
    lemma_go_package(segments, segments.len(), m, files);
    if m > 0 {
        let tail = segments.skip(segments.len() - m);
        assert forall|k: int| 0 <= k < tail.len() implies (#[trigger] tail[k]).len() > 0
            && !tail[k].contains('/') && tail[k] != "."@ by {
            assert(is_plain_name(segments[segments.len() - m + k]));
        }
        law_names_between_slashes(tail);
        let suffix = join(tail, "/"@);
        lemma_some_package(files, tail, suffix);
        assert(files_ending_in(directories(files), suffix).contains(id) <==> exists|i: int|
            0 <= i < files.len() && in_package((#[trigger] files[i]).1, tail) && files[i].0 == id
                && !is_go_extra(files[i].1));
    }
}

// ---------------------------------------------------------------------------
// All imports

/// The extension of the importing file says how an import is resolved; one in a file with
/// another extension, or with none, leads to nothing.
pub proof fn law_import_by_extension(
    import: Seq<char>,
    from: Seq<char>,
    files: Map<Seq<char>, i64>,
    dirs: Seq<(Seq<char>, Seq<i64>)>,
)
    ensures
        ({
            let r = import_targets(import, from, files, dirs);
            match extension(from) {
                None => r.len() == 0,
                Some(e) => {
                    if e == "rs"@ {
                        r == module_targets(expanded(import), files)
                    } else if e == "py"@ {
                        r == listed(python_target(import, from, files))
                    } else if e == "go"@ {
                        r == go_targets(go_segments(import), go_segments(import).len(), dirs)
                    } else if e == "ts"@ || e == "tsx"@ || e == "mts"@ || e == "cts"@ || e == "js"@
                        || e == "jsx"@ || e == "mjs"@ || e == "cjs"@ {
                        r == listed(script_target(import, from, files))
                    } else {
                        r.len() == 0
                    }
                },
            }
        }),
{
}

/// Normalizing a path drops each single dot, and each two dots with the name before them.
/// A path without dots keeps its components, and one that leads up from nothing is
/// refused.
pub proof fn law_normalized(
    a: Seq<Seq<char>>,
    name: Seq<char>,
    b: Seq<Seq<char>>,
    p: Seq<char>,
    q: Seq<char>,
)
    ensures
        components(p) == a + seq!["."@] + b && components(q) == a + b ==> normalized(p)
            == normalized(q),
        name != "."@ && name != ".."@ && name != "/"@ && components(p) == a + seq![name, ".."@] + b
            && components(q) == a + b ==> normalized(p) == normalized(q),
        components(p) == seq![".."@] + b ==> normalized(p) is None,
        components(p) == seq!["/"@, ".."@] + b ==> normalized(p) is None,
        (forall|k: int|
            0 <= k < components(p).len() ==> #[trigger] components(p)[k] != "."@ && components(p)[k]
                != ".."@) ==> (normalized(p) matches Some(r) && components(r) == components(p)),
{
    law_collapsed(a, name, b);
    law_collapsed(components(p), name, b);
    lemma_components(p);
    law_written_components(components(p));
}

/// The files that an import leads to are those that its text leads to from the path of the
/// first file with its number. One of a file that is not there leads to none.
pub proof fn law_import_of_file(
    import: (i64, Seq<char>),
    files: Seq<(i64, Seq<char>)>,
    i: int,
)
    ensures
        0 <= i < files.len() && files[i].0 == import.0 && (forall|j: int|
            0 <= j < i ==> (#[trigger] files[j]).0 != import.0) ==> targets_of(import, files)
            == import_targets(import.1, files[i].1, by_path(files), directories(files)),
        (forall|j: int| 0 <= j < files.len() ==> (#[trigger] files[j]).0 != import.0)
            ==> targets_of(import, files).len() == 0,
{
    lemma_path_of_first(files, import.0, i);
}

proof fn lemma_path_of_first(files: Seq<(i64, Seq<char>)>, id: i64, i: int)
    ensures
        0 <= i < files.len() && files[i].0 == id && (forall|j: int|
            0 <= j < i ==> (#[trigger] files[j]).0 != id) ==> path_of(files, id) == Some(files[i].1),
        (forall|j: int| 0 <= j < files.len() ==> (#[trigger] files[j]).0 != id) ==> path_of(
            files,
            id,
        ) is None,
    decreases files.len(),
{
    if files.len() > 0 {
        let init = files.drop_last();
        lemma_path_of_first(init, id, i);
        assert forall|j: int| 0 <= j < init.len() implies (#[trigger] init[j]) == files[j] by {}
        if forall|j: int| 0 <= j < i ==> (#[trigger] files[j]).0 != id {
            assert forall|j: int| 0 <= j < i && j < init.len() implies (#[trigger] init[j]).0
                != id by {
                assert(files[j].0 != id);
            }
        }
    }
}

/// A further import adds its dependencies behind those of the imports before it.
pub proof fn law_dependencies_grow(
    imports: Seq<(i64, Seq<char>)>,
    import: (i64, Seq<char>),
    files: Seq<(i64, Seq<char>)>,
)
    ensures
        dependencies(imports, files).is_prefix_of(dependencies(imports.push(import), files)),
        dependencies(Seq::empty(), files).len() == 0,
{
    assert(imports.push(import).drop_last() =~= imports);
    lemma_linked_prefix(dependencies(imports, files), import.0, targets_of(import, files));
}

proof fn lemma_linked_prefix(edges: Seq<(i64, i64)>, from: i64, targets: Seq<i64>)
    ensures
        edges.is_prefix_of(linked(edges, from, targets)),
    decreases targets.len(),
{
    if targets.len() > 0 {
        lemma_linked_prefix(edges, from, targets.drop_last());
        let rest = linked(edges, from, targets.drop_last());
        let all = linked(edges, from, targets);
        assert(all.subrange(0, edges.len() as int) =~= rest.subrange(0, edges.len() as int));
    } else {
        assert(edges.subrange(0, edges.len() as int) =~= edges);
    }
}

/// An import can be resolved unless it stands in a Rust file and its braces cannot be
/// expanded.
pub proof fn law_which_can_be_resolved(import: Seq<char>, from: Seq<char>)
    ensures
        extension(from) == Some("rs"@) ==> resolvable(import, from) == expandable(import),
        extension(from) != Some("rs"@) ==> resolvable(import, from),
{
}

/// The module of a Python import alone, with no name behind the keyword, leads to the
/// package of the importing file.
pub proof fn law_python_no_module(keyword: Seq<char>, space: Seq<char>, from: Seq<char>)
    requires
        keyword == "import "@ || keyword == "from "@,
        forall|k: int| 0 <= k < space.len() ==> is_white(#[trigger] space[k]),
    ensures
        python_module(keyword + space) == Some(Seq::<char>::empty()),
        python_paths(Seq::empty(), from) == seq![under(package(from, 0), "__init__.py"@)],
{
    reveal_strlit("import ");
    reveal_strlit("from ");
    let import = keyword + space;
    assert(import.subrange(0, keyword.len() as int) =~= keyword);
    assert(import.skip(keyword.len() as int) =~= space);
    if keyword == "import "@ {
        assert(import[0] == 'i');
        assert("from "@[0] == 'f');
    }
    let none = Seq::<char>::empty();
    lemma_first_word_behind_space(space, none);
    assert(space + none =~= space);
    assert(first_word(none) =~= none);
}

/// Two relative modules that lead to the same place lead to the same file, whatever the
/// way there, and one that leads out of the repository leads to none.
pub proof fn law_script_same_place(
    a: Seq<char>,
    q: char,
    module: Seq<char>,
    other: Seq<char>,
    b: Seq<char>,
    from: Seq<char>,
    files: Map<Seq<char>, i64>,
)
    requires
        !a.contains('"'),
        !a.contains('\''),
        !a.contains('`'),
        q == '"' || q == '\'' || q == '`',
        !module.contains(q),
        !other.contains(q),
        "./"@.is_prefix_of(module) || "../"@.is_prefix_of(module),
        "./"@.is_prefix_of(other) || "../"@.is_prefix_of(other),
    ensures
        collapsed(components(under(directory(from), module))) == collapsed(
            components(under(directory(from), other)),
        ) ==> script_target(a + seq![q] + module + seq![q] + b, from, files) == script_target(
            a + seq![q] + other + seq![q] + b,
            from,
            files,
        ),
        collapsed(components(under(directory(from), module))) is None ==> script_target(
            a + seq![q] + module + seq![q] + b,
            from,
            files,
        ) is None,
{
    law_specifier(a, q, module, b);
    law_specifier(a, q, other, b);
}

proof fn lemma_unquoted(left: Seq<char>, inner: Seq<char>, right: Seq<char>)
    requires
        forall|k: int| 0 <= k < left.len() ==> #[trigger] left[k] == '"',
        forall|k: int| 0 <= k < right.len() ==> #[trigger] right[k] == '"',
        inner.len() > 0,
        inner[0] != '"',
        inner.last() != '"',
    ensures
        trim_end(trim_start(left + inner + right, among("\""@)), among("\""@)) == inner,
{
    reveal_strlit("\"");
    let p = among("\""@);
    assert("\""@ =~= seq!['"']);
    assert(seq!['"'][0] == '"');
    assert(p('"'));
    assert(left + inner + right =~= left + (inner + right));
    assert((inner + right)[0] == inner[0]);
    law_trim_ends(left, inner + right, p);
    law_trim_ends(right, inner, p);
}

/// The segments of any Go import: white space round the text, the keyword before it and
/// quotation marks at its ends are taken off, and what is left is divided at its slashes.
pub proof fn law_go_segments_of_text(
    a: Seq<char>,
    b: Seq<char>,
    left: Seq<char>,
    parts: Seq<Seq<char>>,
    right: Seq<char>,
    c: Seq<char>,
)
    requires
        forall|k: int| 0 <= k < a.len() ==> is_white(#[trigger] a[k]),
        forall|k: int| 0 <= k < b.len() ==> is_white(#[trigger] b[k]),
        forall|k: int| 0 <= k < c.len() ==> is_white(#[trigger] c[k]),
        forall|k: int| 0 <= k < left.len() ==> #[trigger] left[k] == '"',
        forall|k: int| 0 <= k < right.len() ==> #[trigger] right[k] == '"',
        parts.len() > 0,
        forall|k: int| 0 <= k < parts.len() ==> !(#[trigger] parts[k]).contains('/'),
        ({
            let inner = join(parts, "/"@);
            &&& inner.len() > 0
            &&& inner[0] != '"'
            &&& inner.last() != '"'
            &&& left.len() == 0 ==> !is_white(inner[0]) && !"import"@.is_prefix_of(inner + right)
            &&& right.len() == 0 ==> !is_white(inner.last())
        }),
    ensures
        go_segments(a + ("import"@ + b + (left + join(parts, "/"@) + right)) + c) == parts.filter(
            |s: Seq<char>| s.len() > 0,
        ),
        go_segments(a + (left + join(parts, "/"@) + right) + c) == parts.filter(
            |s: Seq<char>| s.len() > 0,
        ),
{
    reveal_strlit("import");
    reveal_strlit("/");
    let inner = join(parts, "/"@);
    assert("/"@ =~= seq!['/']);
    let text = left + inner + right;
    lemma_unquoted(left, inner, right);
    law_split_joined(parts, '/');
    lemma_non_empty(parts);
    assert((|s: Seq<char>| s.len() > 0) =~= not_empty());
    let none = Seq::<char>::empty();
    assert(!is_white('"'));
    assert(text[0] == if left.len() > 0 {
        left[0]
    } else {
        inner[0]
    });
    assert(text.last() == if right.len() > 0 {
        right.last()
    } else {
        inner.last()
    });
    if right.len() > 0 {
        assert(right[right.len() - 1] == '"');
    }
    assert(!is_white(text[0]) && !is_white(text.last()));
    assert(!"import"@.is_prefix_of(text)) by {
        if left.len() > 0 {
            if "import"@.is_prefix_of(text) {
                assert("import"@[0] == text[0]);
            }
        } else {
            assert(text =~= inner + right);
        }
    }
    let m = "import"@ + b + text;
    assert(m =~= "import"@ + (b + text));
    assert(m[0] == 'i' && m.last() == text.last());
    law_trim(a, m, c);
    law_strip(b + text, "import"@);
    assert(!"import"@.is_prefix_of(b + text)) by {
        if b.len() > 0 {
            assert((b + text)[0] == b[0]);
            if "import"@.is_prefix_of(b + text) {
                assert("import"@[0] == (b + text)[0]);
                assert(!is_white('i'));
            }
        } else {
            assert(b + text =~= text);
        }
    }
    law_trim(b, text, none);
    assert(b + text + none =~= b + text);
    law_trim(a, text, c);
    law_strip(text, "import"@);
    law_trim(none, text, none);
    assert(none + text + none =~= text);
}

proof fn lemma_directory_names_differ(files: Seq<(i64, Seq<char>)>)
    ensures
        directory_names(files).no_duplicates(),
    decreases files.len(),
{
    if files.len() > 0 {
        lemma_directory_names_differ(files.drop_last());
    }
}

proof fn lemma_in_directory_once(files: Seq<(i64, Seq<char>)>, dir: Seq<char>)
    requires
        forall|i: int, j: int|
            0 <= i < j < files.len() ==> (#[trigger] files[i]).0 != (#[trigger] files[j]).0,
    ensures
        in_directory(files, dir).no_duplicates(),
    decreases files.len(),
{
    if files.len() > 0 {
        let init = files.drop_last();
        assert forall|i: int, j: int| 0 <= i < j < init.len() implies (#[trigger] init[i]).0 != (
        #[trigger] init[j]).0 by {
            assert(files[i].0 != files[j].0);
        }
        lemma_in_directory_once(init, dir);
        let rest = in_directory(init, dir);
        let last = files[files.len() - 1];
        if rest.contains(last.0) {
            lemma_in_directory(init, dir, last.0);
            let i = choose|i: int|
                0 <= i < init.len() && (#[trigger] init[i]).0 == last.0 && parent(init[i].1) == Some(
                    dir,
                ) && !is_skipped(init[i].1);
            assert(files[i].0 != files[files.len() - 1].0);
        }
    }
}

proof fn lemma_files_once(
    files: Seq<(i64, Seq<char>)>,
    names: Seq<Seq<char>>,
    dirs: Seq<(Seq<char>, Seq<i64>)>,
    suffix: Seq<char>,
)
    requires
        forall|i: int, j: int|
            0 <= i < j < files.len() ==> (#[trigger] files[i]).0 != (#[trigger] files[j]).0,
        names.no_duplicates(),
        dirs.len() == names.len(),
        forall|k: int|
            0 <= k < dirs.len() ==> #[trigger] dirs[k] == (names[k], in_directory(files, names[k])),
    ensures
        files_ending_in(dirs, suffix).no_duplicates(),
    decreases dirs.len(),
{
    if dirs.len() > 0 {
        let init = dirs.drop_last();
        let init_names = names.drop_last();
        let last = dirs[dirs.len() - 1];
        assert forall|k: int| 0 <= k < init.len() implies #[trigger] init[k] == (
            init_names[k],
            in_directory(files, init_names[k]),
        ) by {
            assert(init[k] == dirs[k]);
        }
        lemma_files_once(files, init_names, init, suffix);
        let rest = files_ending_in(init, suffix);
        lemma_in_directory_once(files, last.0);
        assert forall|id: i64| rest.contains(id) implies !last.1.contains(id) by {
            if last.1.contains(id) {
                lemma_files_ending_in(init, suffix, id);
                let k = choose|k: int|
                    0 <= k < init.len() && ends_in((#[trigger] init[k]).0, suffix)
                        && init[k].1.contains(id);
                lemma_in_directory(files, init_names[k], id);
                lemma_in_directory(files, last.0, id);
                let a = choose|a: int|
                    0 <= a < files.len() && (#[trigger] files[a]).0 == id && parent(files[a].1)
                        == Some(init_names[k]) && !is_skipped(files[a].1);
                let b = choose|b: int|
                    0 <= b < files.len() && (#[trigger] files[b]).0 == id && parent(files[b].1)
                        == Some(last.0) && !is_skipped(files[b].1);
                assert(a == b) by {
                    if a < b {
                        assert(files[a].0 != files[b].0);
                    } else if b < a {
                        assert(files[b].0 != files[a].0);
                    }
                }
                assert(names[k] == init_names[k] && names[names.len() - 1] == last.0);
            }
        }
        let all = rest + last.1;
        assert(all.no_duplicates()) by {
            assert forall|i: int, j: int| 0 <= i < j < all.len() implies all[i] != all[j] by {
                if j < rest.len() {
                    assert(all[i] == rest[i] && all[j] == rest[j]);
                } else if i < rest.len() {
                    assert(all[i] == rest[i] && all[j] == last.1[j - rest.len()]);
                    assert(rest.contains(all[i]));
                    assert(last.1.contains(all[j]));
                } else {
                    assert(all[i] == last.1[i - rest.len()] && all[j] == last.1[j - rest.len()]);
                }
            }
        }
    }
}

/// A Go import leads to no file twice.
pub proof fn law_go_targets_once(
    segments: Seq<Seq<char>>,
    n: nat,
    files: Seq<(i64, Seq<char>)>,
)
    requires
        forall|i: int, j: int|
            0 <= i < j < files.len() ==> (#[trigger] files[i]).0 != (#[trigger] files[j]).0,
    ensures
        go_targets(segments, n, directories(files)).no_duplicates(),
    decreases n,
{
    if n > 0 {
        let dirs = directories(files);
        let names = directory_names(files);
        let suffix = join(segments.skip(segments.len() - n), "/"@);
        lemma_directory_names_differ(files);
        assert forall|k: int| 0 <= k < dirs.len() implies #[trigger] dirs[k] == (
            names[k],
            in_directory(files, names[k]),
        ) by {}
        lemma_files_once(files, names, dirs, suffix);
        law_go_targets_once(segments, (n - 1) as nat, files);
    }
}

/// All imports can be resolved exactly if each can be from the path of the first file with
/// its number; those of files that are not there do not count.
pub proof fn law_all_can_be_resolved(
    imports: Seq<(i64, Seq<char>)>,
    files: Seq<(i64, Seq<char>)>,
)
    ensures
        all_resolvable(imports, files) <==> forall|i: int, j: int|
            0 <= i < imports.len() && 0 <= j < files.len() && (#[trigger] imports[i]).0 == (
            #[trigger] files[j]).0 && (forall|k: int|
                0 <= k < j ==> (#[trigger] files[k]).0 != imports[i].0) ==> resolvable(
                imports[i].1,
                files[j].1,
            ),
{
    if all_resolvable(imports, files) {
        assert forall|i: int, j: int|
            0 <= i < imports.len() && 0 <= j < files.len() && (#[trigger] imports[i]).0 == (
            #[trigger] files[j]).0 && (forall|k: int|
                0 <= k < j ==> (#[trigger] files[k]).0 != imports[i].0) implies resolvable(
            imports[i].1,
            files[j].1,
        ) by {
            lemma_path_of_first(files, imports[i].0, j);
        }
    }
    if forall|i: int, j: int|
        0 <= i < imports.len() && 0 <= j < files.len() && (#[trigger] imports[i]).0 == (
        #[trigger] files[j]).0 && (forall|k: int|
            0 <= k < j ==> (#[trigger] files[k]).0 != imports[i].0) ==> resolvable(
            imports[i].1,
            files[j].1,
        ) {
        assert forall|i: int| 0 <= i < imports.len() implies (path_of(
            files,
            (#[trigger] imports[i]).0,
        ) matches Some(path) ==> resolvable(imports[i].1, path)) by {
            let id = imports[i].0;
            let j = lemma_first_with_number(files, id);
            lemma_path_of_first(files, id, j);
            if j < files.len() {
                assert(imports[i].0 == files[j].0);
            }
        }
    }
}

proof fn lemma_first_with_number(files: Seq<(i64, Seq<char>)>, id: i64) -> (j: int)
    ensures
        0 <= j <= files.len(),
        j < files.len() ==> files[j].0 == id,
        forall|k: int| 0 <= k < j ==> (#[trigger] files[k]).0 != id,
    decreases files.len(),
{
    if files.len() == 0 {
        0
    } else {
        let init = files.drop_last();
        let j = lemma_first_with_number(init, id);
        assert forall|k: int| 0 <= k < j implies (#[trigger] files[k]).0 != id by {
            assert(init[k].0 != id);
        }
        if j < init.len() {
            assert(init[j] == files[j]);
            j
        } else if files.last().0 == id {
            j
        } else {
            assert forall|k: int| 0 <= k < j + 1 implies (#[trigger] files[k]).0 != id by {
                if k < j {
                    assert(init[k].0 != id);
                }
            }
            j + 1
        }
    }
}

} // verus!
