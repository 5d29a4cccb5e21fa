use std::collections::HashMap;

use context_smith::dep_builder::{
    build_deps, build_go_dir_index, build_path_index, can_resolve, can_resolve_all,
    extract_module_specifier, normalize_path, resolve_go, resolve_import, resolve_python,
    resolve_rust, resolve_ts_js, GoDirIndex,
};
use context_smith::dep_graph::{bfs_expand, Expansion};
use context_smith::score::Score;
use context_smith::use_paths::{can_expand, expand_rust_use, split_brace_aware};
use context_smith::{Language, SymbolExtractor, SymbolKind};

fn score(x: f32) -> Score {
    Score::from_bits(x.to_bits()).unwrap()
}

fn numbered(paths: &[&str]) -> Vec<(i64, String)> {
    paths
        .iter()
        .enumerate()
        .map(|(i, p)| (i as i64 + 1, (*p).to_owned()))
        .collect()
}

/// The dependencies between sources, found from their text.
fn dep_edges(sources: &[(&str, &str)]) -> Vec<(String, String)> {
    let paths: Vec<&str> = sources.iter().map(|s| s.0).collect();
    let files = numbered(&paths);
    let mut imports: Vec<(i64, String)> = Vec::new();
    for (i, (path, text)) in sources.iter().enumerate() {
        let symbols = SymbolExtractor::extract(path, text, Language::from_path(path)).unwrap();
        for (name, kind, _) in symbols {
            if kind == SymbolKind::Import {
                assert!(can_resolve(&name, path));
                imports.push((i as i64 + 1, name));
            }
        }
    }
    build_deps(&imports, &files)
        .into_iter()
        .map(|(a, b)| {
            (
                paths[a as usize - 1].to_owned(),
                paths[b as usize - 1].to_owned(),
            )
        })
        .collect()
}

#[test]
fn regression_14_python_multidot_relative_import() {
    let edges = dep_edges(&[
        ("pkg/__init__.py", "\n"),
        ("pkg/foo.py", "def bar():\n    pass\n"),
        ("pkg/sub/__init__.py", "\n"),
        ("pkg/sub/consumer.py", "from ..foo import bar\n"),
    ]);
    assert!(
        edges.contains(&("pkg/sub/consumer.py".into(), "pkg/foo.py".into())),
        "expected consumer.py -> pkg/foo.py, got {edges:?}"
    );
}

#[test]
fn regression_16_go_samename_dir_no_false_edge() {
    let edges = dep_edges(&[
        (
            "consumer/main.go",
            "package main\nimport \"mymod/a/util\"\nfunc main() {}\n",
        ),
        ("a/util/helper.go", "package util\nfunc A() {}\n"),
        ("b/util/helper.go", "package util\nfunc B() {}\n"),
    ]);
    let has_to = |p: &str| edges.iter().any(|(_, to)| to == p);
    assert!(
        has_to("a/util/helper.go"),
        "expected edge to a/util/helper.go, got {edges:?}"
    );
    assert!(
        !has_to("b/util/helper.go"),
        "must NOT link same-named b/util/helper.go, got {edges:?}"
    );
}

#[test]
fn rust_sources_depend_on_the_modules_they_use() {
    let edges = dep_edges(&[
        ("src/lib.rs", "use crate::{a::b, c};\nuse crate::a::b as other;\nuse crate::lib;\n"),
        ("src/a/b.rs", "use crate::c::*;\nuse std::fmt;\n"),
        ("src/c/mod.rs", "fn c() {}\n"),
    ]);
    assert_eq!(
        edges,
        vec![
            ("src/lib.rs".to_owned(), "src/a/b.rs".to_owned()),
            ("src/lib.rs".to_owned(), "src/c/mod.rs".to_owned()),
            ("src/a/b.rs".to_owned(), "src/c/mod.rs".to_owned()),
        ]
    );
}

#[test]
fn imports_of_unknown_files_are_left_out() {
    let files = numbered(&["src/a.rs", "src/b.rs"]);
    let imports = vec![
        (9, "crate::a".to_owned()),
        (1, "crate::b".to_owned()),
        (1, "crate::b".to_owned()),
        (2, "crate::b".to_owned()),
    ];
    assert_eq!(build_deps(&imports, &files), vec![(1, 2)]);
}

#[test]
fn grouped_paths_are_expanded() {
    assert_eq!(expand_rust_use("crate::{a, b}"), vec!["crate::a", "crate::b"]);
    assert_eq!(
        expand_rust_use("crate::{a::{b, c as d}, e::*}"),
        vec!["crate::a::b", "crate::a::c", "crate::e"]
    );
    assert_eq!(expand_rust_use("crate::x as y"), vec!["crate::x"]);
    assert_eq!(expand_rust_use("crate::x::*"), vec!["crate::x"]);
    assert_eq!(expand_rust_use("crate::{a"), vec!["crate::a"]);
    assert_eq!(expand_rust_use(""), vec![""]);
}

#[test]
fn crossed_braces_cannot_be_expanded() {
    assert!(can_expand("crate::{a, b}"));
    assert!(can_expand("plain"));
    assert!(!can_expand("}{"));
    assert!(!can_expand("}{ {a }"));
    assert!(!can_resolve("}{", "src/a.rs"));
    assert!(can_resolve("}{", "src/a.py"));
}

#[test]
fn commas_in_braces_do_not_split() {
    assert_eq!(split_brace_aware("a, b::{c, d}, e"), vec!["a", " b::{c, d}", " e"]);
    assert_eq!(split_brace_aware(""), vec![""]);
    assert_eq!(split_brace_aware("}, x"), vec!["}", " x"]);
}

#[test]
fn rust_modules_are_files_or_directories() {
    let index = build_path_index(&numbered(&["src/a.rs", "src/b/mod.rs", "src/b/c.rs"]));
    assert_eq!(resolve_rust("crate::a", &index), vec![1]);
    assert_eq!(resolve_rust("crate::b", &index), vec![2]);
    assert_eq!(resolve_rust("crate::b::{c, nothing}", &index), vec![3]);
    assert!(resolve_rust("std::fmt", &index).is_empty());
}

#[test]
fn python_modules_are_looked_up_near_and_at_the_root() {
    let index = build_path_index(&numbered(&[
        "pkg/mod.py",
        "pkg/sub/__init__.py",
        "top.py",
        "pkg/__init__.py",
    ]));
    let from = "pkg/user.py";
    assert_eq!(resolve_python("import mod", from, &index), vec![1]);
    assert_eq!(resolve_python("from .sub import x", from, &index), vec![2]);
    assert_eq!(resolve_python("import top", from, &index), vec![3]);
    assert_eq!(resolve_python("from . import x", from, &index), vec![4]);
    assert_eq!(resolve_python("from .. import x", "pkg/sub/deep.py", &index), vec![4]);
    assert!(resolve_python("import nothing", from, &index).is_empty());
    assert!(resolve_python("x = 1", from, &index).is_empty());
}

#[test]
fn go_packages_leave_tests_generated_code_and_mocks_out() {
    let files = numbered(&[
        "pkg/auth/auth.go",
        "pkg/auth/auth_test.go",
        "pkg/auth/auth.pb.go",
        "pkg/auth/mock_auth.go",
        "pkg/auth/token.go",
        "only/x_test.go",
    ]);
    let index = build_go_dir_index(&files);
    assert_eq!(resolve_go("import \"example.com/m/pkg/auth\"", &index), vec![1, 5]);
    assert!(resolve_go("import \"m/only\"", &index).is_empty());
    assert!(resolve_go("import \"fmt\"", &index).is_empty());
    assert!(resolve_go("import \"\"", &index).is_empty());
}

#[test]
fn longer_go_matches_win() {
    let index = build_go_dir_index(&numbered(&["util/a.go", "x/util/b.go"]));
    assert_eq!(resolve_go("\"m/x/util\"", &index), vec![2]);
    assert_eq!(resolve_go("\"m/y/util\"", &index), vec![1, 2]);
}

#[test]
fn all_go_directories_with_one_ending_are_candidates() {
    let index = GoDirIndex::new(&vec![
        ("internal/auth".to_owned(), vec![1]),
        ("pkg/auth".to_owned(), vec![2]),
        ("pkg/authz".to_owned(), vec![3]),
        ("auth/pkg".to_owned(), vec![4]),
    ]);
    assert_eq!(resolve_go("import \"example.com/auth\"", &index), vec![1, 2]);
    assert_eq!(resolve_go("import \"example.com/pkg/auth\"", &index), vec![2]);
    assert_eq!(resolve_go("import \"example.com/x/pkg/\"", &index), vec![4]);
    assert!(resolve_go("import \"example.com/uth\"", &index).is_empty());
    let built = build_go_dir_index(&numbered(&["internal/auth/a.go", "pkg/auth/b.go", "main.go"]));
    assert_eq!(resolve_go("import \"example.com/auth\"", &built), vec![1, 2]);
}

#[test]
fn scripts_import_relative_modules() {
    let index = build_path_index(&numbered(&[
        "web/a.ts",
        "web/lib/index.tsx",
        "web/c.js",
        "root.mjs",
    ]));
    let from = "web/main.ts";
    assert_eq!(resolve_ts_js("import { a } from \"./a\"", from, &index), vec![1]);
    assert_eq!(resolve_ts_js("import x from './lib'", from, &index), vec![2]);
    assert_eq!(resolve_ts_js("require(`./c.js`)", from, &index), vec![3]);
    assert_eq!(resolve_ts_js("import '../root'", from, &index), vec![4]);
    assert!(resolve_ts_js("import React from 'react'", from, &index).is_empty());
    assert!(resolve_ts_js("import '../../root'", from, &index).is_empty());
    assert!(resolve_ts_js("import ./a", from, &index).is_empty());
    let hidden = build_path_index(&numbered(&["web/.foo", "web/.foo.ts", "web/index.ts"]));
    assert!(resolve_ts_js("import '.foo'", from, &hidden).is_empty());
    assert_eq!(resolve_ts_js("import './.foo'", from, &hidden), vec![1]);
    assert_eq!(resolve_ts_js("import './'", from, &hidden), vec![3]);
    assert!(resolve_ts_js("import '.'", from, &hidden).is_empty());
}

#[test]
fn specifiers_stand_between_like_quotes() {
    assert_eq!(
        extract_module_specifier("import { a } from \"./b\""),
        Some("./b".to_owned())
    );
    assert_eq!(extract_module_specifier("require('./c')"), Some("./c".to_owned()));
    assert_eq!(extract_module_specifier("'it\"s'"), Some("it\"s".to_owned()));
    assert_eq!(extract_module_specifier("no quotes"), None);
    assert_eq!(extract_module_specifier("'open"), None);
}

#[test]
fn paths_are_normalized_within_the_repository() {
    assert_eq!(normalize_path("a/./b/../c"), Some("a/c".to_owned()));
    assert_eq!(normalize_path("./x//y/"), Some("x/y".to_owned()));
    assert_eq!(normalize_path("a/.."), Some("".to_owned()));
    assert_eq!(normalize_path("a/../.."), None);
    assert_eq!(normalize_path("../x"), None);
    assert_eq!(normalize_path("/.."), None);
    assert_eq!(normalize_path("/a/b/.."), Some("/a".to_owned()));
}

#[test]
fn imports_go_by_the_language_of_the_file() {
    let files = numbered(&["src/a.rs", "a.py", "a/x.go", "a.ts"]);
    let index = build_path_index(&files);
    let dirs = build_go_dir_index(&files);
    assert_eq!(resolve_import("crate::a", "src/x.rs", &index, &dirs), vec![1]);
    assert_eq!(resolve_import("import a", "x.py", &index, &dirs), vec![2]);
    assert_eq!(resolve_import("import \"m/a\"", "x.go", &index, &dirs), vec![3]);
    assert_eq!(resolve_import("import './a'", "x.cjs", &index, &dirs), vec![4]);
    assert!(resolve_import("crate::a", "x.txt", &index, &dirs).is_empty());
    assert!(resolve_import("crate::a", "Makefile", &index, &dirs).is_empty());
}

// ---------------------------------------------------------------------------
// Spreading scores

fn values(scores: &HashMap<i64, Score>) -> Vec<(i64, f32)> {
    let mut v: Vec<(i64, f32)> = scores
        .iter()
        .map(|(k, s)| (*k, f32::from_bits(s.to_bits())))
        .collect();
    v.sort_by_key(|e| e.0);
    v
}

#[test]
fn scores_halve_with_each_hop_in_both_directions() {
    let edges = vec![(1, 2), (3, 2), (3, 4), (4, 5)];
    let seeds = vec![(2, score(8.0))];
    assert_eq!(
        values(&bfs_expand(&edges, &seeds, 2)),
        vec![(1, 4.0), (2, 8.0), (3, 4.0), (4, 2.0)]
    );
    assert_eq!(values(&bfs_expand(&edges, &seeds, 0)), vec![(2, 8.0)]);
    assert_eq!(values(&bfs_expand(&edges, &seeds, 3)).last(), Some(&(5, 1.0)));
}

#[test]
fn the_largest_score_wins() {
    let edges = vec![(1, 2), (2, 3)];
    let seeds = vec![(1, score(8.0)), (3, score(1.0)), (1, score(2.0))];
    assert_eq!(
        values(&bfs_expand(&edges, &seeds, 2)),
        vec![(1, 8.0), (2, 4.0), (3, 2.0)]
    );
}

#[test]
fn seeds_that_are_not_positive_reach_one_hop() {
    let edges = vec![(1, 2), (2, 3)];
    let seeds = vec![(1, score(-1.0))];
    assert_eq!(values(&bfs_expand(&edges, &seeds, 5)), vec![(1, 0.0), (2, 0.0)]);
}

/// The walk along a queue, edge by edge.
fn by_queue(edges: &[(i64, i64)], seeds: &[(i64, f32)], depth: u8) -> Vec<(i64, f32)> {
    let mut scores: HashMap<i64, f32> = HashMap::new();
    let mut queue: Vec<(i64, f32, u8)> = Vec::new();
    for (id, s) in seeds {
        let prev = scores.entry(*id).or_insert(0.0);
        if *s > *prev {
            *prev = *s;
        }
        queue.push((*id, *s, 0));
    }
    let mut next = 0;
    while next < queue.len() {
        let (id, s, d) = queue[next];
        next += 1;
        if d >= depth {
            continue;
        }
        for (a, b) in edges {
            for (u, x) in [(a, b), (b, a)] {
                if *u == id {
                    let prev = scores.entry(*x).or_insert(0.0);
                    if s * 0.5 > *prev {
                        *prev = s * 0.5;
                        queue.push((*x, s * 0.5, d + 1));
                    }
                }
            }
        }
    }
    let mut v: Vec<(i64, f32)> = scores.into_iter().collect();
    v.sort_by_key(|e| e.0);
    v
}

#[test]
fn spreading_agrees_with_a_queue() {
    let mut state: u64 = 7;
    let mut draw = |n: u64| -> u64 {
        state = state.wrapping_mul(6_364_136_223_846_793_005).wrapping_add(1);
        (state >> 33) % n
    };
    for _ in 0..200 {
        let edges: Vec<(i64, i64)> = (0..draw(12))
            .map(|_| (draw(8) as i64, draw(8) as i64))
            .collect();
        let seeds: Vec<(i64, f32)> = (0..draw(4))
            .map(|_| (draw(8) as i64, draw(9) as f32 - 2.0))
            .collect();
        let depth = draw(4) as u8;
        let scored: Vec<(i64, Score)> = seeds.iter().map(|(id, x)| (*id, score(*x))).collect();
        let expected = by_queue(&edges, &seeds, depth);
        assert_eq!(values(&bfs_expand(&edges, &scored, depth)), expected);

        let mut hops = Expansion::start(&scored, depth);
        while let Some(ids) = hops.pending() {
            let near: Vec<(i64, i64)> = edges
                .iter()
                .filter(|(a, b)| ids.contains(a) || ids.contains(b))
                .copied()
                .collect();
            hops.advance(&near);
        }
        assert_eq!(values(&hops.finish()), expected);
    }
}

#[test]
fn the_direction_of_edges_does_not_matter() {
    let edges = vec![(1, 2), (3, 2), (4, 3)];
    let swapped: Vec<(i64, i64)> = edges.iter().map(|(a, b)| (*b, *a)).collect();
    let seeds = vec![(1, score(3.0)), (4, score(5.0))];
    assert_eq!(
        values(&bfs_expand(&edges, &seeds, 2)),
        values(&bfs_expand(&swapped, &seeds, 2))
    );
}

#[test]
fn no_score_rises_above_the_seeds_and_none_falls_with_a_hop() {
    let edges = vec![(1, 2), (2, 3), (3, 1), (3, 4)];
    let seeds = vec![(1, score(3.0)), (3, score(0.25))];
    let mut last: Vec<(i64, f32)> = Vec::new();
    for depth in 0..4 {
        let now = values(&bfs_expand(&edges, &seeds, depth));
        assert!(now.iter().all(|(_, x)| *x <= 3.0));
        for (id, x) in &last {
            assert!(now.iter().any(|(other, y)| other == id && y >= x));
        }
        last = now;
    }
}

#[test]
fn expanded_paths_have_no_groups() {
    for s in ["a::{b::{c, d}, e}", "{{x}, {y, {z}}}", "p::{q", "plain"] {
        assert!(expand_rust_use(s).iter().all(|path| !path.contains('{')));
    }
}

#[test]
fn imports_are_tested_before_they_are_resolved() {
    let files = numbered(&["src/a.rs", "b.py"]);
    let good = vec![(1, "crate::{a}".to_owned()), (2, "}{".to_owned()), (9, "}{".to_owned())];
    assert!(can_resolve_all(&good, &files));
    assert!(!can_resolve_all(&vec![(1, "}{".to_owned())], &files));
}

#[test]
fn dependencies_are_distinct_and_lead_elsewhere() {
    let files = numbered(&["src/a.rs", "src/b.rs"]);
    let imports = vec![
        (1, "crate::{a, b, b}".to_owned()),
        (2, "crate::a".to_owned()),
        (2, "crate::a".to_owned()),
    ];
    assert_eq!(build_deps(&imports, &files), vec![(1, 2), (2, 1)]);
}
