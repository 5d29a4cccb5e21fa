use context_smith::search_index::{bm25_query, sanitize_fts_query};

#[test]
fn sanitize_removes_fts5_operators() {
    let result = sanitize_fts_query("foo(bar)*baz");
    assert!(result.contains("foo"));
    assert!(result.contains("bar"));
    assert!(result.contains("baz"));
    assert!(!result.contains('('));
    assert!(!result.contains('*'));
}

#[test]
fn sanitize_all_operators_returns_whitespace() {
    assert!(sanitize_fts_query("()").trim().is_empty());
    assert!(sanitize_fts_query("***").trim().is_empty());
    assert!(sanitize_fts_query("(\"*\")").trim().is_empty());
}

#[test]
fn sanitize_empty_input() {
    assert!(sanitize_fts_query("").trim().is_empty());
}

#[test]
fn sanitize_plain_word_unchanged() {
    assert_eq!(sanitize_fts_query("hello").trim(), "hello");
}

#[test]
fn sanitize_downcases_fts5_boolean_keywords() {
    let result = sanitize_fts_query("authentication OR 1=1");
    assert!(!result.contains("OR"), "OR should be downcased, got: {result}");
    assert!(result.contains("or"), "OR should become 'or', got: {result}");

    let result = sanitize_fts_query("foo AND bar");
    assert!(!result.contains("AND"), "AND should be downcased, got: {result}");

    let result = sanitize_fts_query("foo NOT bar");
    assert!(!result.contains("NOT"), "NOT should be downcased, got: {result}");

    let result = sanitize_fts_query("NEAR(foo bar)");
    assert!(!result.contains("NEAR"), "NEAR should be downcased, got: {result}");
}

#[test]
fn sanitize_preserves_mixed_case_non_keywords() {
    let result = sanitize_fts_query("And Oregon Notify");
    assert!(
        result.contains("And"),
        "mixed-case 'And' should be preserved, got: {result}"
    );
    assert!(result.contains("Oregon"), "got: {result}");
    assert!(result.contains("Notify"), "got: {result}");
}

#[test]
fn sanitized_queries_hold_plain_words() {
    let cases = [
        ("parse()", "parse"),
        ("foo-bar", "foo bar"),
        ("\"quoted\"", "quoted"),
        ("wild*card", "wild card"),
        ("a AND (b OR c)", "a and b or c"),
        ("col:val ^boost ~tilde !bang {brace}", "col val boost tilde bang brace"),
        ("  spaced \t out\u{3000}words ", "spaced out words"),
    ];
    for (query, plain) in cases {
        let once = sanitize_fts_query(query);
        assert_eq!(once, plain);
        assert_eq!(sanitize_fts_query(&once), once);
    }
}

#[test]
fn blank_tasks_search_for_nothing() {
    assert!(bm25_query("", 10).is_none());
    assert!(bm25_query(" (*) ", 10).is_none());
    let query = bm25_query("fix OR break", 20).unwrap();
    assert_eq!(query.matching, "fix or break");
    assert_eq!(query.sub_limit, 60);
    assert_eq!(query.limit, 20);
}

#[test]
fn regression_12_fts_special_chars_no_error() {
    let conn = rusqlite::Connection::open_in_memory().unwrap();
    conn.execute_batch(
        "CREATE VIRTUAL TABLE fts_body USING fts5(file_id UNINDEXED, content);
         INSERT INTO fts_body VALUES (1, 'pub fn parse(input: &str) -> bool { input.is_empty() }');",
    )
    .unwrap();
    for q in [
        "parse()",
        "foo-bar",
        "\"quoted\"",
        "wild*card",
        "a AND (b OR c)",
        "col:val ^boost ~tilde !bang {brace}",
    ] {
        let query = bm25_query(q, 10).unwrap();
        let res: rusqlite::Result<i64> = conn.query_row(
            "SELECT COUNT(*) FROM fts_body WHERE content MATCH ?1",
            [&query.matching],
            |row| row.get(0),
        );
        assert!(res.is_ok(), "query {q:?} should not error: {:?}", res.err());
    }
}
