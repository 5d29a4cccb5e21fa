use context_smith::git::{cap_diff, GitRepo, ScannedFile, TreeEntry, DIFF_LIMIT};
use context_smith::index_builder::{
    body_text, file_rows, index_source, rows_from, sha_changed, stale_files, FileAction,
    IndexError, IndexStats, BODY_LIMIT,
};
use context_smith::index_run::{IndexAction, IndexEvent, IndexRun, Stage};
use context_smith::search_index::populate_fts_with_paths;
use context_smith::symbols::ExtractError;
use context_smith::timestamp::{date_of, timestamp};
use context_smith::{Language, SymbolKind};

fn entry(dir: &str, name: Option<&str>, blob: bool, size: Option<i64>) -> TreeEntry {
    TreeEntry {
        dir: dir.to_owned(),
        name: name.map(str::to_owned),
        blob,
        sha: "sha".to_owned(),
        size,
    }
}

fn scanned(path: &str) -> ScannedFile {
    ScannedFile {
        path: path.to_owned(),
        lang: Language::from_path(path),
        blob_sha: "s".to_owned(),
        size: 0,
    }
}

#[test]
fn trees_are_scanned_for_files() {
    let repo = GitRepo::new("/work/repo");
    assert_eq!(repo.root(), "/work/repo");
    assert_eq!(repo.file_path("src/a.rs"), "/work/repo/src/a.rs");
    let written = GitRepo::new("/work//./repo/");
    assert_eq!(written.root(), "/work/repo");
    assert_eq!(GitRepo::new(written.root()).root(), written.root());
    assert_eq!(GitRepo::new("/").root(), "/");
    let files = repo.scan(&vec![
        entry("", Some("src"), false, None),
        entry("src/", Some("lib.rs"), true, Some(12)),
        entry("", Some("main.go"), true, None),
        entry("", None, true, Some(1)),
    ]);
    let seen: Vec<(&str, Language, i64)> = files
        .iter()
        .map(|f| (f.path.as_str(), f.lang, f.size))
        .collect();
    assert_eq!(
        seen,
        vec![
            ("src/lib.rs", Language::Rust, 12),
            ("main.go", Language::Go, 0),
            ("", Language::Unknown, 1),
        ]
    );
    assert_eq!(files[0].blob_sha, "sha");
}

#[test]
fn languages_go_by_extension() {
    for (path, lang) in [
        ("a.rs", Language::Rust),
        ("dir.rs/a.py", Language::Python),
        ("a.b.go", Language::Go),
        ("a.txt", Language::Unknown),
        (".rs", Language::Unknown),
        ("rs", Language::Unknown),
        ("a.rs/..", Language::Unknown),
        ("", Language::Unknown),
    ] {
        assert_eq!(Language::from_path(path), lang, "{path}");
    }
    assert_eq!(Language::Rust.as_str(), "rust");
    assert_eq!(Language::Python.as_str(), "python");
    assert_eq!(Language::Go.as_str(), "go");
    assert_eq!(Language::Unknown.as_str(), "unknown");
    assert_eq!(SymbolKind::Function.as_str(), "function");
    assert_eq!(SymbolKind::Struct.as_str(), "struct");
    assert_eq!(SymbolKind::Class.as_str(), "class");
    assert_eq!(SymbolKind::Impl.as_str(), "impl");
    assert_eq!(SymbolKind::Import.as_str(), "import");
}

#[test]
fn unchanged_files_are_not_indexed_again() {
    assert!(sha_changed(&None, "a"));
    assert!(!sha_changed(&Some("a".to_owned()), "a"));
    assert!(sha_changed(&Some("a".to_owned()), "b"));
}

#[test]
fn files_that_left_the_repository_are_stale() {
    let indexed = vec![
        (1, "a.rs".to_owned()),
        (2, "gone.rs".to_owned()),
        (3, "b.rs".to_owned()),
    ];
    assert_eq!(stale_files(&indexed, &vec![scanned("b.rs"), scanned("a.rs")]), vec![2]);
    assert_eq!(stale_files(&indexed, &vec![]), vec![1, 2, 3]);
}

#[test]
fn every_file_is_counted_once() {
    let mut stats = IndexStats::default();
    assert_eq!(stats.take_file(Language::Rust, false), FileAction::Skip);
    assert_eq!(stats.take_file(Language::Unknown, true), FileAction::MarkIndexed);
    assert_eq!(stats.take_file(Language::Unknown, false), FileAction::Skip);
    assert_eq!(stats.take_file(Language::Go, true), FileAction::Read);
    stats.file_indexed(7);
    assert_eq!(stats.take_file(Language::Python, true), FileAction::Read);
    stats.file_unreadable();
    stats.file_deleted();
    assert_eq!(
        stats,
        IndexStats {
            files_total: 5,
            files_indexed: 2,
            files_skipped: 3,
            files_deleted: 1,
            symbols_total: 7,
            deps_total: 0,
        }
    );
}

#[test]
fn sources_are_indexed() {
    let source = "one\nuse crate::x;\nfn fooBar() {}\nfour\nfive\nsix\n";
    let rows = index_source(4, "src/myFile.rs", source, Language::Rust).unwrap();
    assert_eq!(rows.path_terms, "src my file rs");
    assert_eq!(rows.symbol_terms, vec!["foobar foo bar"]);
    assert_eq!(rows.body, source);
    assert_eq!(rows.symbols.len(), 2);
    assert_eq!(rows.symbols[0].name, "crate::x");
    assert_eq!(rows.symbols[0].kind, SymbolKind::Import);
    assert_eq!(rows.symbols[1].file_id, 4);
    assert_eq!(rows.symbols[1].line, 3);
    assert_eq!(rows.symbols[1].snippet, "one\nuse crate::x;\nfn fooBar() {}\nfour\nfive");
}

#[test]
fn snippets_stay_in_the_source() {
    let symbols = vec![
        ("first".to_owned(), SymbolKind::Function, 1),
        ("last".to_owned(), SymbolKind::Function, 3),
        ("behind".to_owned(), SymbolKind::Function, 6),
    ];
    let rows = file_rows(1, "a", "a\r\nb\nc", &symbols);
    let snippets: Vec<&str> = rows.symbols.iter().map(|s| s.snippet.as_str()).collect();
    assert_eq!(snippets, vec!["a\nb\nc", "a\nb\nc", ""]);
}

#[test]
fn symbols_far_behind_the_source_are_errors() {
    let symbols = vec![("x".to_owned(), SymbolKind::Function, 7)];
    assert_eq!(
        rows_from(1, "a", "a\nb\nc", Ok(symbols)).unwrap_err(),
        IndexError::Line
    );
    assert_eq!(
        rows_from(1, "a", "a", Err(ExtractError::Parse)).unwrap_err(),
        IndexError::Extract(ExtractError::Parse)
    );
}

#[test]
fn regression_11_multibyte_body_no_panic() {
    let big = "あ".repeat(175_000);
    let rows = index_source(1, "notes.py", &big, Language::Python).unwrap();
    assert_eq!(rows.body.len(), BODY_LIMIT - BODY_LIMIT % 3);
    assert!(big.starts_with(&rows.body));
}

#[test]
fn bodies_are_cut_between_characters() {
    assert_eq!(body_text("short"), "short");
    let exact = "x".repeat(BODY_LIMIT);
    assert_eq!(body_text(&exact).len(), BODY_LIMIT);
    let over = format!("{}é", "x".repeat(BODY_LIMIT - 1));
    assert_eq!(body_text(&over).len(), BODY_LIMIT - 1);
    let diff = "y".repeat(DIFF_LIMIT + 9);
    assert_eq!(cap_diff(&diff).len(), DIFF_LIMIT);
}

#[test]
fn a_run_takes_every_file_up_once() {
    let indexed = vec![(1, "gone.rs".to_owned()), (2, "a.rs".to_owned()), (3, "old.py".to_owned())];
    let files = vec![
        scanned("a.rs"),
        scanned("same.go"),
        scanned("notes.txt"),
        scanned("secret.py"),
    ];
    let mut run = IndexRun::start(&indexed, files);
    let mut event = IndexEvent::Done;
    let mut log: Vec<String> = Vec::new();
    let (stats, paths) = loop {
        event = match run.step(event) {
            IndexAction::Delete(id) => {
                log.push(format!("delete {id}"));
                IndexEvent::Done
            }
            IndexAction::Upsert(at) => {
                log.push(format!("upsert {}", run.file(at).path));
                let sha = if at == 1 { Some("s".to_owned()) } else { None };
                IndexEvent::Known(at as i64 + 10, sha)
            }
            IndexAction::Mark(id) => {
                log.push(format!("mark {id}"));
                IndexEvent::Done
            }
            IndexAction::Read(at) => {
                log.push(format!("read {}", run.file(at).path));
                if at == 0 {
                    IndexEvent::Text("fn a() {}\nfn b() {}\n".to_owned())
                } else {
                    IndexEvent::Unreadable
                }
            }
            IndexAction::Write(id, rows) => {
                log.push(format!("write {id} {}", rows.symbols.len()));
                IndexEvent::Done
            }
            IndexAction::Resolve => {
                assert_eq!(run.stage(), Stage::Finished);
                break run.finish();
            }
            IndexAction::Fail(e) => panic!("{e:?}"),
        };
    };
    assert_eq!(
        log,
        vec![
            "delete 1",
            "delete 3",
            "upsert a.rs",
            "read a.rs",
            "write 10 2",
            "upsert same.go",
            "upsert notes.txt",
            "mark 12",
            "upsert secret.py",
            "read secret.py",
        ]
    );
    assert_eq!(
        stats,
        IndexStats {
            files_total: 4,
            files_indexed: 2,
            files_skipped: 2,
            files_deleted: 2,
            symbols_total: 2,
            deps_total: 0,
        }
    );
    assert_eq!(paths[3], (13, "secret.py".to_owned()));
    assert_eq!(paths.len(), 4);
}

#[test]
fn a_run_fails_where_a_file_cannot_be_indexed() {
    let mut run = IndexRun::start(&vec![], vec![scanned("a.rs")]);
    assert!(matches!(run.step(IndexEvent::Done), IndexAction::Upsert(0)));
    assert!(matches!(run.step(IndexEvent::Known(5, None)), IndexAction::Read(0)));
    assert_eq!(run.stage(), Stage::Reading(5));
    let failed = run.take_rows(Err(IndexError::Line));
    assert!(matches!(failed, IndexAction::Fail(IndexError::Line)));
    assert_eq!(run.stage(), Stage::Failed);
}

#[test]
fn full_text_rows_are_made_anew() {
    let rows = populate_fts_with_paths(
        &vec![(1, "src/fooBar.rs".to_owned())],
        &vec![
            (1, "doIt".to_owned(), SymbolKind::Function),
            (1, "crate::x".to_owned(), SymbolKind::Import),
        ],
        &vec![(1, Some("text".to_owned())), (2, None)],
    );
    assert_eq!(rows.paths, vec![(1, "src foo bar rs".to_owned())]);
    assert_eq!(rows.symbols, vec![(1, "doit do it".to_owned())]);
    assert_eq!(rows.bodies, vec![(1, "text".to_owned())]);
}

/// An index in memory: the files by path, each with its number, the hash of its
/// content and that of what was indexed of it.
type Rows = Vec<(String, i64, String, Option<String>)>;

/// Carries out a run on an index, where `text` gives the texts of files by path, and
/// counts the files that were read.
fn carry_out(
    rows: &mut Rows,
    files: Vec<ScannedFile>,
    text: fn(&str) -> Option<&'static str>,
) -> (IndexStats, Vec<(i64, String)>, usize) {
    let indexed: Vec<(i64, String)> = rows.iter().map(|r| (r.1, r.0.clone())).collect();
    let mut run = IndexRun::start(&indexed, files);
    let mut event = IndexEvent::Done;
    let mut reads = 0;
    loop {
        event = match run.step(event) {
            IndexAction::Delete(id) => {
                rows.retain(|r| r.1 != id);
                IndexEvent::Done
            }
            IndexAction::Upsert(at) => {
                let file = run.file(at);
                match rows.iter_mut().find(|r| r.0 == file.path) {
                    Some(row) => {
                        row.2 = file.blob_sha.clone();
                        IndexEvent::Known(row.1, row.3.clone())
                    }
                    None => {
                        let id = rows.iter().map(|r| r.1).max().unwrap_or(0) + 1;
                        rows.push((file.path.clone(), id, file.blob_sha.clone(), None));
                        IndexEvent::Known(id, None)
                    }
                }
            }
            IndexAction::Mark(id) | IndexAction::Write(id, _) => {
                for row in rows.iter_mut().filter(|r| r.1 == id) {
                    row.3 = Some(row.2.clone());
                }
                IndexEvent::Done
            }
            IndexAction::Read(at) => {
                reads += 1;
                match text(&run.file(at).path) {
                    Some(text) => IndexEvent::Text(text.to_owned()),
                    None => IndexEvent::Unreadable,
                }
            }
            IndexAction::Resolve => {
                let (stats, paths) = run.finish();
                return (stats, paths, reads);
            }
            IndexAction::Fail(e) => panic!("{e:?}"),
        };
    }
}

#[test]
fn a_second_run_over_an_unchanged_repository_changes_nothing() {
    let files = || vec![scanned("a.rs"), scanned("b.txt"), scanned("c.rs")];
    let mut rows: Rows = vec![
        ("gone.rs".to_owned(), 4, "x".to_owned(), Some("x".to_owned())),
        ("c.rs".to_owned(), 7, "x".to_owned(), Some("x".to_owned())),
    ];
    let text = |_: &str| Some("fn f() {}\n");
    let (first, paths, reads) = carry_out(&mut rows, files(), text);
    assert_eq!((first.files_total, first.files_indexed, first.files_deleted), (3, 3, 1));
    assert_eq!(reads, 2);
    assert!(rows.iter().all(|r| r.3 == Some("s".to_owned())));
    assert_eq!(
        paths,
        vec![(8, "a.rs".to_owned()), (9, "b.txt".to_owned()), (7, "c.rs".to_owned())]
    );

    let before = rows.clone();
    let (second, paths_then, reads_then) = carry_out(&mut rows, files(), text);
    assert_eq!(
        second,
        IndexStats {
            files_total: 3,
            files_indexed: 0,
            files_skipped: 3,
            files_deleted: 0,
            symbols_total: 0,
            deps_total: 0,
        }
    );
    assert_eq!(reads_then, 0);
    assert_eq!(rows, before);
    assert_eq!(paths_then, paths);

    let mut changed = files();
    changed[0].blob_sha = "t".to_owned();
    let (third, _, reads_last) = carry_out(&mut rows, changed, text);
    assert_eq!((third.files_indexed, third.files_skipped, reads_last), (1, 2, 1));
}

#[test]
fn timestamps_follow_the_calendar() {
    for (seconds, text) in [
        (0, "1970-01-01T00:00:00Z"),
        (68_169_599, "1972-02-28T23:59:59Z"),
        (68_169_600, "1972-02-29T00:00:00Z"),
        (951_782_400, "2000-02-29T00:00:00Z"),
        (1_700_000_000, "2023-11-14T22:13:20Z"),
        (1_735_689_599, "2024-12-31T23:59:59Z"),
        (4_107_542_400, "2100-03-01T00:00:00Z"),
        (253_402_300_800, "10000-01-01T00:00:00Z"),
    ] {
        assert_eq!(timestamp(seconds), text);
    }
    let day = date_of(11_016);
    assert_eq!((day.year, day.month, day.day), (2000, 2, 29));
}

#[test]
fn index_command_creates_db() {
    let mut rows: Rows = Vec::new();
    let files = vec![scanned("src/lib.rs"), scanned("main.go"), scanned("script.py")];
    let (stats, paths, reads) = carry_out(&mut rows, files, |path| match path {
        "src/lib.rs" => Some("pub fn hello() -> &'static str { \"hello\" }\n"),
        "main.go" => Some("package main\nfunc main() {}\n"),
        "script.py" => Some("def run(): pass\n"),
        _ => None,
    });
    assert_eq!(stats.files_total, 3);
    assert_eq!(stats.files_indexed, 3);
    assert!(
        stats.symbols_total > 0,
        "should extract at least one symbol"
    );
    assert_eq!(stats.symbols_total, 3);
    assert_eq!((rows.len(), paths.len(), reads), (3, 3, 3));
}

#[test]
fn the_index_holds_the_repository_even_where_files_cannot_be_read() {
    let mut rows: Rows = vec![("gone.rs".to_owned(), 4, "x".to_owned(), Some("x".to_owned()))];
    let files = || vec![scanned("a.rs"), scanned("b.rs")];
    let text = |path: &str| {
        if path == "a.rs" {
            None
        } else {
            Some("fn f() {}\n")
        }
    };
    let (stats, _, _) = carry_out(&mut rows, files(), text);
    assert_eq!((stats.files_indexed, stats.files_skipped, stats.files_deleted), (1, 1, 1));
    let held: Vec<(&str, bool)> = rows.iter().map(|r| (r.0.as_str(), r.3.is_some())).collect();
    assert_eq!(held, vec![("a.rs", false), ("b.rs", true)]);
    let (again, _, reads) = carry_out(&mut rows, files(), text);
    assert_eq!((again.files_skipped, reads), (2, 1));
}
