use context_smith::path::{
    canonical_path, extension_of, file_name_of, join_path, parent_of, split_components,
};
use context_smith::text::{
    before_first, byte_len, chars_of, cut_to_bytes, joined, parse_number, replace_all, replace_any,
    same, slice, split_at_any, split_lines, split_words, to_decimal, trim_end_any, trim_start_any,
    trimmed, white_space, without_prefix, without_prefixes, without_suffixes,
};

const SAMPLES: [&str; 12] = [
    "",
    "a",
    " a b ",
    "a\u{3000}b\u{a0}c",
    "line\r\nline\nlast",
    "\n\n",
    "\r",
    "x\r\r\n",
    "use use x;;",
    "a::b::*::*",
    "::::",
    "é漢🙂\t",
];

#[test]
fn white_space_is_that_of_unicode() {
    for v in 0..0x11_0000u32 {
        if let Some(c) = char::from_u32(v) {
            assert_eq!(white_space(c), c.is_whitespace(), "{v:x}");
        }
    }
}

#[test]
fn strings_split_as_in_std() {
    for s in SAMPLES {
        assert_eq!(split_words(s), s.split_whitespace().collect::<Vec<_>>());
        assert_eq!(split_lines(s), s.lines().collect::<Vec<_>>());
        assert_eq!(split_at_any(s, ":a"), s.split([':', 'a']).collect::<Vec<_>>());
        assert_eq!(chars_of(s), s.chars().collect::<Vec<_>>());
        assert_eq!(byte_len(s), s.len());
    }
}

#[test]
fn strings_are_trimmed_as_in_std() {
    for s in SAMPLES {
        assert_eq!(trimmed(s), s.trim());
        assert_eq!(trim_start_any(s, "ua "), s.trim_start_matches(['u', 'a', ' ']));
        assert_eq!(trim_end_any(s, ";*"), s.trim_end_matches([';', '*']));
        assert_eq!(without_prefixes(s, "use "), s.trim_start_matches("use "));
        assert_eq!(without_suffixes(s, "::*"), s.trim_end_matches("::*"));
        assert_eq!(without_prefix(s, "a"), s.strip_prefix("a").map(str::to_owned));
    }
}

#[test]
fn strings_are_replaced_as_in_std() {
    for s in SAMPLES {
        assert_eq!(replace_all(s, "::", "/"), s.replace("::", "/"));
        assert_eq!(replace_any(s, ":;", '_'), s.replace([':', ';'], "_"));
        assert_eq!(before_first(s, "::"), s.split("::").next().unwrap());
    }
}

#[test]
fn strings_are_joined_and_sliced() {
    let parts = vec!["a".to_owned(), "".to_owned(), "b".to_owned()];
    assert_eq!(joined(&parts, ", "), "a, , b");
    assert_eq!(joined(&vec![], ", "), "");
    assert_eq!(slice(&chars_of("héllo"), 1, 3), "él");
    assert!(same("é", "é"));
    assert!(!same("é", "e"));
}

#[test]
fn cuts_end_between_characters() {
    for s in SAMPLES {
        for limit in 0..s.len() + 2 {
            let mut end = limit.min(s.len());
            while !s.is_char_boundary(end) {
                end -= 1;
            }
            assert_eq!(cut_to_bytes(s, limit), &s[..end]);
        }
    }
}

#[test]
fn numbers_are_written_and_read() {
    for n in [0u128, 7, 10, 99, 12_345, u64::MAX as u128, u128::MAX] {
        assert_eq!(to_decimal(n), format!("{n}"));
    }
    assert_eq!(parse_number("0042"), Some(42));
    assert_eq!(parse_number("99999999999999999999"), None);
}

#[test]
fn paths_go_by_components() {
    for p in [
        "", "a", "a/b", "a//b/", "./a", "a/./b", "/", "/a", "//a/../b", "..", "a/..", ".", "./.",
        "a/b.c.d", ".hidden", "a/.b", "a.", "x/..y",
    ] {
        let path = std::path::Path::new(p);
        let parts: Vec<String> = path
            .components()
            .map(|c| c.as_os_str().to_str().unwrap().to_owned())
            .collect();
        assert_eq!(split_components(p), parts, "components of {p:?}");
        let parent = path.parent();
        assert_eq!(parent_of(p).is_some(), parent.is_some(), "parent of {p:?}");
        if let (Some(a), Some(b)) = (parent_of(p), parent) {
            assert_eq!(std::path::Path::new(&a), b, "parent of {p:?}");
        }
        assert_eq!(
            file_name_of(p),
            path.file_name().map(|n| n.to_str().unwrap().to_owned()),
            "name of {p:?}"
        );
        assert_eq!(
            extension_of(p),
            path.extension().map(|n| n.to_str().unwrap().to_owned()),
            "extension of {p:?}"
        );
        assert_eq!(std::path::Path::new(&canonical_path(p)), path, "{p:?}");
        for tail in ["", "x", "/x", "../x"] {
            assert_eq!(join_path(p, tail), path.join(tail).to_str().unwrap(), "{p:?} and {tail:?}");
        }
    }
    assert_eq!(canonical_path("a//./b/"), "a/b");
    assert_eq!(canonical_path("//a"), "/a");
}
