use context_smith::budget::{allocate, estimate_tokens, truncate_to_tokens, Candidate};
use context_smith::score::Score;

fn score(x: f32) -> Score {
    Score::from_bits(x.to_bits()).unwrap()
}

fn number(s: Score) -> f32 {
    f32::from_bits(s.to_bits())
}

fn candidate(path: &str, x: f32, content: &str) -> Candidate {
    Candidate {
        file_id: 0,
        path: path.to_owned(),
        score: score(x),
        score_text: format!("{:.3}", x),
        content: content.to_owned(),
    }
}

fn make(x: f32, chars: usize) -> Candidate {
    candidate("x.rs", x, &"a".repeat(chars))
}

#[test]
fn selects_by_score_descending() {
    let cs = vec![make(0.5, 400), make(0.9, 400), make(0.1, 400)];
    let out = allocate(cs, 200);
    assert_eq!(out.len(), 2);
    assert!((number(out[0].score) - 0.9).abs() < f32::EPSILON);
    assert!((number(out[1].score) - 0.5).abs() < f32::EPSILON);
}

#[test]
fn truncates_last_file() {
    let cs = vec![make(1.0, 400), make(0.5, 800)];
    let out = allocate(cs, 150);
    assert_eq!(out.len(), 2);
    assert!(out[1].tokens() <= 50);
}

#[test]
fn truncation_takes_all_that_fits() {
    let out = allocate(vec![make(1.0, 400), make(0.5, 800)], 150);
    assert_eq!(out[0].tokens(), 100);
    assert_eq!(out[1].tokens(), 50);
    assert_eq!(out[1].content.len(), 203);
}

#[test]
fn empty_when_budget_zero() {
    let cs = vec![make(1.0, 400)];
    let out = allocate(cs, 0);
    assert!(out.is_empty());
}

#[test]
fn ascii_estimate_matches_chars_over_four() {
    assert_eq!(estimate_tokens(&"a".repeat(400)), 100);
    assert_eq!(estimate_tokens("abc"), 1);
    assert_eq!(estimate_tokens("a"), 1);
    assert_eq!(estimate_tokens(""), 0);
}

#[test]
fn short_ascii_never_zero_tokens() {
    for n in 1..=3 {
        let s = "a".repeat(n);
        assert_eq!(
            estimate_tokens(&s),
            1,
            "{n}-char ASCII string must estimate as 1 token, not 0"
        );
    }
}

#[test]
fn cjk_estimate_exceeds_chars_over_four() {
    let jp = "あ".repeat(100);
    let est = estimate_tokens(&jp);
    assert_eq!(est, 100, "each multi-byte char counts as one token");
    assert!(est > jp.chars().count() / 4, "must exceed the chars/4 estimate");
}

#[test]
fn cjk_allocation_never_overflows_budget() {
    let jp = candidate("notes.md", 1.0, &"日本語のコメント。".repeat(500));
    let budget = 200;
    let out = allocate(vec![jp], budget);
    assert_eq!(out.len(), 1);
    let total: usize = out.iter().map(|c| c.tokens()).sum();
    assert!(
        total <= budget,
        "selected tokens {total} must not exceed budget {budget}"
    );
}

#[test]
fn regression_17_short_file_selected() {
    let tiny = candidate("tiny.rs", 1.0, "ok");
    let selected = allocate(vec![tiny], 100);
    assert_eq!(selected.len(), 1, "short-but-nonempty file must be selected");
    assert_eq!(selected[0].path, "tiny.rs");
}

#[test]
fn empty_files_are_passed_over() {
    let cs = vec![candidate("empty.rs", 2.0, ""), candidate("full.rs", 1.0, "abcd")];
    let out = allocate(cs, 10);
    assert_eq!(out.len(), 1);
    assert_eq!(out[0].path, "full.rs");
}

#[test]
fn equal_scores_keep_their_order() {
    let cs = vec![
        candidate("a", 1.0, "aaaa"),
        candidate("b", 2.0, "bbbb"),
        candidate("c", 1.0, "cccc"),
    ];
    let paths: Vec<String> = allocate(cs, 100).into_iter().map(|c| c.path).collect();
    assert_eq!(paths, vec!["b", "a", "c"]);
}

#[test]
fn everything_is_taken_where_everything_fits() {
    let cs = vec![make(0.5, 40), make(0.9, 40), make(0.1, 40)];
    assert_eq!(allocate(cs, 30).len(), 3);
}

#[test]
fn cutting_counts_wide_characters_whole() {
    assert_eq!(truncate_to_tokens("あいう", 2), "あい");
    assert_eq!(truncate_to_tokens("abcdefgh", 1), "abcdefg");
    assert_eq!(truncate_to_tokens("abcあdef", 1), "abcあ");
    assert_eq!(truncate_to_tokens("abc", 0), "");
    assert_eq!(truncate_to_tokens("", 5), "");
}
