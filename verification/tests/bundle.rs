use context_smith::budget::Candidate;
use context_smith::bundle_writer::{
    make_base_slug, make_slug, render_file_md, render_task_md, safe_fence, used_tokens,
    write_bundle,
};
use context_smith::score::Score;

fn cand(path: &str, x: f32, content: &str) -> Candidate {
    Candidate {
        file_id: 1,
        path: path.to_owned(),
        score: Score::from_bits(x.to_bits()).unwrap(),
        score_text: format!("{:.3}", x),
        content: content.to_owned(),
    }
}

#[test]
fn safe_fence_plain_content_uses_triple_backticks() {
    assert_eq!(safe_fence("fn main() {}"), "```");
}

#[test]
fn safe_fence_content_with_triple_backtick_uses_four() {
    assert_eq!(safe_fence("before\n```\nafter"), "````");
}

#[test]
fn safe_fence_content_with_four_backticks_uses_five() {
    assert_eq!(safe_fence("````"), "`````");
}

#[test]
fn write_bundle_codefence_injection_not_possible() {
    let malicious_content = "before\n```\ninjected: bad content\n```\nafter";
    let selected = vec![cand("src/attack.rs", 0.9, malicious_content)];
    let bundle = write_bundle("task", 10000, &selected, "", false);
    assert_eq!(bundle.code[0].name, "src_attack_rs.md");
    let md = &bundle.code[0].text;
    assert!(
        md.starts_with("<!-- src/attack.rs -->\n````"),
        "fence must be longer than content's backtick run; got:\n{md}"
    );
    assert!(
        md.contains(malicious_content),
        "content must appear unchanged"
    );
}

#[test]
fn render_task_md_lists_files_and_diff() {
    let sel = vec![cand("src/a.rs", 0.9, "fn a() {}")];
    let md = render_task_md("do X", 1000, &sel, "diff body", false);
    assert!(md.contains("**Task:** do X"));
    assert!(md.contains("**Budget:** 1000 tokens"));
    assert!(md.contains("`src/a.rs`"));
    assert!(md.contains("## Recent Diff"));
    assert!(md.contains("diff body"));
    assert!(!md.contains("score="));
}

#[test]
fn render_task_md_explain_shows_score_and_omits_empty_diff() {
    let sel = vec![cand("src/a.rs", 0.875, "fn a() {}")];
    let md = render_task_md("t", 1000, &sel, "", true);
    assert!(md.contains("(score=0.875)"));
    assert!(!md.contains("## Recent Diff"), "empty diff must be omitted");
}

#[test]
fn make_slug_no_collision_returns_base() {
    assert_eq!(make_slug("src_lib_rs", 0), "src_lib_rs");
}

#[test]
fn make_slug_first_collision_uses_zero_suffix() {
    assert_eq!(make_slug("src_lib_rs", 1), "src_lib_rs_0");
}

#[test]
fn make_slug_subsequent_collisions_are_sequential() {
    assert_eq!(make_slug("src_lib_rs", 2), "src_lib_rs_1");
    assert_eq!(make_slug("src_lib_rs", 3), "src_lib_rs_2");
}

#[test]
fn write_bundle_slug_collision_no_gap() {
    let path = "src/lib.rs";
    let selected = vec![
        cand(path, 0.9, "fn a() {}"),
        cand(path, 0.8, "fn b() {}"),
        cand(path, 0.7, "fn c() {}"),
    ];
    let bundle = write_bundle("task", 10000, &selected, "", false);
    let names: Vec<&str> = bundle.code.iter().map(|f| f.name.as_str()).collect();
    assert_eq!(names, vec!["src_lib_rs.md", "src_lib_rs_0.md", "src_lib_rs_1.md"]);
}

#[test]
fn regression_20_slug_collision_distinct_files() {
    let selected = vec![
        cand("src/a.rs", 1.0, "first version"),
        cand("src/a.rs", 1.0, "second version"),
    ];
    let bundle = write_bundle("t", 1000, &selected, "", false);
    assert_eq!(bundle.code.len(), 2);
    assert_ne!(bundle.code[0].name, bundle.code[1].name);
}

#[test]
fn whole_summary() {
    let sel = vec![cand("src/a.rs", 0.5, "abcdefgh"), cand("b.py", 0.25, "あ")];
    assert_eq!(
        render_task_md("fix it", 30000, &sel, "+x", true),
        "# Context Bundle\n\n**Task:** fix it\n\n**Budget:** 30000 tokens  \n**Used:** 3 tokens\n\n\
         ## Selected Files\n\n\
         1. `src/a.rs` (score=0.500) — 2 tokens\n\
         2. `b.py` (score=0.250) — 1 tokens\n\
         \n## Recent Diff\n\n```diff\n+x\n```\n"
    );
    assert_eq!(used_tokens(&sel), 3);
    assert_eq!(
        render_task_md("t", 1, &vec![], "", false),
        "# Context Bundle\n\n**Task:** t\n\n**Budget:** 1 tokens  \n**Used:** 0 tokens\n\n\
         ## Selected Files\n\n"
    );
}

#[test]
fn whole_code_file() {
    assert_eq!(
        render_file_md(&cand("src/a.rs", 1.0, "fn a() {}")),
        "<!-- src/a.rs -->\n```rs\nfn a() {}\n```\n"
    );
    assert_eq!(
        render_file_md(&cand("Makefile", 1.0, "`x` ``` y")),
        "<!-- Makefile -->\n````txt\n`x` ``` y\n````\n"
    );
}

#[test]
fn citations_tell_the_score() {
    let bundle = write_bundle("t", 10, &vec![cand("a.rs", 0.125, "abcd")], "", false);
    assert_eq!(bundle.citations.len(), 1);
    let c = &bundle.citations[0];
    assert_eq!(c.path, "a.rs");
    assert_eq!(c.score.to_bits(), 0.125f32.to_bits());
    assert_eq!(c.tokens, 1);
    assert_eq!(c.reason, "bm25_score=0.125");
}

#[test]
fn slugs_keep_letters_and_numbers_only() {
    assert_eq!(make_base_slug("src/lib.rs"), "src_lib_rs");
    assert_eq!(make_base_slug("a\0b\u{202e}c-d e"), "a_b_c_d_e");
    assert_eq!(make_base_slug("認証/9.rs"), "認証_9_rs");
}

#[test]
fn different_paths_with_one_name_are_told_apart() {
    let selected = vec![cand("a/b.rs", 1.0, "x"), cand("a.b/rs", 1.0, "y"), cand("c", 1.0, "z")];
    let bundle = write_bundle("t", 10, &selected, "", false);
    let names: Vec<&str> = bundle.code.iter().map(|f| f.name.as_str()).collect();
    assert_eq!(names, vec!["a_b_rs.md", "a_b_rs_0.md", "c.md"]);
}

#[test]
fn fence_outgrows_every_run() {
    for content in ["", "`", "``", "a```b``c", "x`````", "`````y", "````\n```"] {
        let fence = safe_fence(content);
        assert!(fence.len() >= 3);
        assert!(!content.contains(&fence));
        assert!(fence.len() == 3 || content.contains(&fence[1..]));
    }
}

#[test]
fn no_two_files_get_one_name() {
    for (paths, names) in [
        (["a", "a", "a_0"], ["a.md", "a_0.md", "a_0_0.md"]),
        (["a", "a_0", "a"], ["a.md", "a_0.md", "a_1.md"]),
        (["a_0", "a", "a"], ["a_0.md", "a.md", "a_1.md"]),
        (["a.b", "a_b", "a_b_0"], ["a_b.md", "a_b_0.md", "a_b_0_0.md"]),
    ] {
        let selected: Vec<Candidate> = paths.iter().map(|p| cand(p, 1.0, "x")).collect();
        let bundle = write_bundle("t", 10, &selected, "", false);
        let got: Vec<&str> = bundle.code.iter().map(|f| f.name.as_str()).collect();
        assert_eq!(got, names);
    }
}

#[test]
fn every_file_of_a_bundle_holds_its_content() {
    let selected = vec![cand("a", 1.0, "one"), cand("a", 1.0, "two"), cand("a_0", 1.0, "three")];
    let bundle = write_bundle("t", 10, &selected, "", false);
    assert_eq!(bundle.code.len(), 3);
    for (file, c) in bundle.code.iter().zip(&selected) {
        assert!(file.text.contains(&c.content));
    }
}
