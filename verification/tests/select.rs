use std::collections::HashMap;

use context_smith::score::Score;
use context_smith::select::{
    check_budget, make_candidates, merge_seeds, non_empty_string, relevant_files, require_index, require_seeds,
    resolve_index_path,
};
use context_smith::GitRepo;

fn score(x: f32) -> Score {
    Score::from_bits(x.to_bits()).unwrap()
}

#[test]
fn blank_arguments_are_refused() {
    assert_eq!(non_empty_string(" x "), Ok(" x ".to_owned()));
    assert_eq!(non_empty_string(" \t"), Err("value must not be empty".to_owned()));
    assert_eq!(non_empty_string(""), Err("value must not be empty".to_owned()));
}

#[test]
fn a_budget_of_zero_is_refused() {
    assert_eq!(check_budget(1), Ok(1));
    assert_eq!(check_budget(0), Err("budget must be greater than 0".to_owned()));
}

#[test]
fn the_index_is_in_the_repository() {
    let repo = GitRepo::new("/r");
    assert_eq!(resolve_index_path(&repo, None), "/r/.contextsmith/index.db");
    assert_eq!(resolve_index_path(&repo, Some("x.db".to_owned())), "x.db");
    assert_eq!(require_index("x.db".to_owned(), true), Ok("x.db".to_owned()));
    assert_eq!(
        require_index("x.db".to_owned(), false),
        Err("Index not found at x.db. Run `contextsmith index --repo <path>` first.".to_owned())
    );
}

#[test]
fn a_task_needs_seeds() {
    assert_eq!(
        require_seeds("fix", vec![]),
        Err("No matching files found for task: fix".to_owned())
    );
    assert_eq!(require_seeds("fix", vec![(1, score(1.0))]), Ok(vec![(1, score(1.0))]));
}

#[test]
fn seeds_raise_scores() {
    let mut scores: HashMap<i64, Score> = HashMap::new();
    scores.insert(1, score(2.0));
    scores.insert(2, score(0.5));
    merge_seeds(&mut scores, &vec![(1, score(1.0)), (2, score(1.0)), (3, score(-1.0))]);
    assert_eq!(scores[&1], score(2.0));
    assert_eq!(scores[&2], score(1.0));
    assert_eq!(scores[&3], score(-1.0));
}

#[test]
fn files_without_a_positive_score_are_not_read() {
    let mut scores: HashMap<i64, Score> = HashMap::new();
    scores.insert(1, score(2.0));
    scores.insert(2, score(0.0));
    scores.insert(4, score(-0.0));
    let files: Vec<(i64, String)> = vec![
        (4, "d".to_owned()),
        (3, "c".to_owned()),
        (2, "b".to_owned()),
        (1, "a".to_owned()),
    ];
    let kept = relevant_files(&files, &scores);
    assert_eq!(kept, vec![(1, "a".to_owned(), score(2.0))]);
}

#[test]
fn candidates_are_the_files_that_were_read() {
    let files = vec![(1, "a".to_owned(), score(2.0)), (2, "b".to_owned(), score(1.0))];
    let contents = vec![None, Some(("text".to_owned(), "1.000".to_owned()))];
    let made = make_candidates(&files, contents);
    assert_eq!(made.len(), 1);
    assert_eq!(made[0].file_id, 2);
    assert_eq!(made[0].path, "b");
    assert_eq!(made[0].score, score(1.0));
    assert_eq!(made[0].score_text, "1.000");
    assert_eq!(made[0].content, "text");
}
