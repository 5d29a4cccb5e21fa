use context_smith::tokenizer::{join_code_terms, split_identifier, tokenize_code, tokenize_path};

#[test]
fn camel_case() {
    let t = tokenize_code("authenticateUser");
    assert!(t.contains("authenticate"), "got: {}", t);
    assert!(t.contains("user"), "got: {}", t);
    assert!(t.starts_with("authenticateuser"), "got: {}", t);
}

#[test]
fn snake_case() {
    let t = tokenize_code("parse_json_body");
    assert!(t.contains("parse"), "got: {}", t);
    assert!(t.contains("json"), "got: {}", t);
    assert!(t.contains("body"), "got: {}", t);
}

#[test]
fn single_word() {
    assert_eq!(tokenize_code("index"), "index");
}

#[test]
fn acronym() {
    let t = tokenize_code("parseHTTPRequest");
    assert!(t.contains("parse"), "got: {}", t);
    assert!(t.contains("request"), "got: {}", t);
}

#[test]
fn path_tokenization() {
    let t = tokenize_path("src/auth/middleware.rs");
    assert!(t.contains("src"), "got: {}", t);
    assert!(t.contains("auth"), "got: {}", t);
    assert!(t.contains("middleware"), "got: {}", t);
    assert!(!t.contains("rs") || t.contains("rs"), "extension present");
}

#[test]
fn path_camel_component() {
    let t = tokenize_path("src/parseHTTPRequest.go");
    assert!(t.contains("parse"), "got: {}", t);
    assert!(t.contains("request"), "got: {}", t);
    assert!(t.contains("go"), "got: {}", t);
}

#[test]
fn empty_string_does_not_panic() {
    let t = tokenize_code("");
    assert!(t.is_empty() || !t.is_empty());
}

#[test]
fn empty_path_does_not_panic() {
    let _ = tokenize_path("");
}

#[test]
fn digit_mixed_identifier() {
    let t = tokenize_code("parse2JSON");
    assert!(t.contains("parse"), "got: {}", t);
    assert!(t.contains("json"), "got: {}", t);
}

#[test]
fn consecutive_underscores() {
    let t = tokenize_code("foo__bar");
    assert!(t.contains("foo"), "got: {}", t);
    assert!(t.contains("bar"), "got: {}", t);
}

#[test]
fn all_caps_acronym() {
    let t = tokenize_code("HTTPURL");
    assert!(!t.is_empty(), "got empty for HTTPURL");
}

#[test]
fn screaming_snake_case() {
    let t = tokenize_code("MAX_RETRY_COUNT");
    assert!(t.contains("max"), "got: {}", t);
    assert!(t.contains("retry"), "got: {}", t);
    assert!(t.contains("count"), "got: {}", t);
}

#[test]
fn kebab_case() {
    let t = tokenize_code("my-module-name");
    assert!(t.contains("my"), "got: {}", t);
    assert!(t.contains("module"), "got: {}", t);
    assert!(t.contains("name"), "got: {}", t);
}

#[test]
fn only_underscores() {
    let _ = tokenize_code("___");
}

#[test]
fn only_digits() {
    let t = tokenize_code("12345");
    assert!(!t.is_empty(), "got empty for digits-only");
}

#[test]
fn single_uppercase_char() {
    let _ = tokenize_code("A");
}

#[test]
fn leading_uppercase() {
    let t = tokenize_code("MyStruct");
    assert!(t.contains("my"), "got: {}", t);
    assert!(t.contains("struct"), "got: {}", t);
}

#[test]
fn documented_terms() {
    assert_eq!(tokenize_path("src/auth/middleware.rs"), "src auth middleware rs");
    assert_eq!(tokenize_path("src/parseHTTPRequest.go"), "src parse http request go");
    assert_eq!(tokenize_code("authenticateUser"), "authenticateuser authenticate user");
    assert_eq!(tokenize_code("parse_json_body"), "parse_json_body parse json body");
}

#[test]
fn words_of_identifiers() {
    assert_eq!(split_identifier("parseHTTPRequest"), vec!["parse", "HTTP", "Request"]);
    assert_eq!(split_identifier("parse2JSON"), vec!["parse2", "JSON"]);
    assert_eq!(split_identifier("_A-b__c"), vec!["A", "b", "c"]);
    assert_eq!(split_identifier("___"), vec!["___"]);
    assert_eq!(split_identifier(""), vec![""]);
    assert_eq!(split_identifier("HTTPURL"), vec!["HTTPURL"]);
}

#[test]
fn lower_case_beyond_ascii() {
    assert_eq!(tokenize_code("ÄrgerÖl"), "ärgeröl");
    assert_eq!(tokenize_path("Über/StraßeΣ.RS"), "über straßeς rs");
}

#[test]
fn terms_are_joined() {
    let parts = vec!["a".to_owned(), "b".to_owned()];
    assert_eq!(join_code_terms("ab", &parts), "ab a b");
    assert_eq!(join_code_terms("ab", &vec!["a".to_owned()]), "ab");
}

#[test]
fn splitting_keeps_every_character_but_separators() {
    for s in ["aB_c-DE2f", "__x", "ABCdef", "", "-", "héllo_Wörld"] {
        let joined: String = split_identifier(s).concat();
        let kept = |t: &str| -> String { t.chars().filter(|c| *c != '_' && *c != '-').collect() };
        assert_eq!(kept(&joined), kept(s));
    }
}

#[test]
fn terms_are_lower_case_and_stable() {
    for s in ["fooBar", "HTTPServer", "A_B_C", "x1Y2", "kebab-Case"] {
        let t = tokenize_code(s);
        assert_eq!(t.to_lowercase(), t);
        let first = t.split_whitespace().next().unwrap();
        assert_eq!(first, s.to_lowercase());
        let again = tokenize_code(first);
        assert_eq!(again.split_whitespace().next().unwrap(), first);
    }
}
