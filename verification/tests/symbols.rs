use context_smith::symbols::{
    collect_go_symbols, collect_python_symbols, collect_rust_symbols, symbols_in, ExtractError,
    SyntaxNode,
};
use context_smith::{Language, SymbolExtractor, SymbolKind};

#[test]
fn rust_symbols_extracted() {
    let src = r#"
use std::collections::HashMap;

pub struct MyStruct {
    value: i32,
}

impl MyStruct {
    pub fn new(v: i32) -> Self { MyStruct { value: v } }
}

pub fn add(a: i32, b: i32) -> i32 { a + b }
"#;
    let syms = SymbolExtractor::extract("test.rs", src, Language::Rust).unwrap();

    let names: Vec<&str> = syms.iter().map(|(n, _, _)| n.as_str()).collect();
    assert!(names.contains(&"MyStruct"), "expected struct MyStruct");
    assert!(names.contains(&"new"), "expected fn new");
    assert!(names.contains(&"add"), "expected fn add");

    let kinds: Vec<&SymbolKind> = syms.iter().map(|(_, k, _)| k).collect();
    assert!(kinds.contains(&&SymbolKind::Import), "expected use import");
    assert!(kinds.contains(&&SymbolKind::Struct));
    assert!(kinds.contains(&&SymbolKind::Function));

    assert_eq!(
        syms,
        vec![
            ("std::collections::HashMap".to_owned(), SymbolKind::Import, 2),
            ("MyStruct".to_owned(), SymbolKind::Struct, 4),
            ("MyStruct".to_owned(), SymbolKind::Impl, 8),
            ("new".to_owned(), SymbolKind::Function, 9),
            ("add".to_owned(), SymbolKind::Function, 12),
        ]
    );
}

#[test]
fn go_symbols_extracted() {
    let src = r#"package main

import "fmt"

type Point struct {
    X, Y int
}

func NewPoint(x, y int) Point {
    return Point{X: x, Y: y}
}

func main() {
    fmt.Println(NewPoint(1, 2))
}
"#;
    let syms = SymbolExtractor::extract("main.go", src, Language::Go).unwrap();

    let names: Vec<&str> = syms.iter().map(|(n, _, _)| n.as_str()).collect();
    assert!(names.contains(&"NewPoint"), "expected func NewPoint");
    assert!(names.contains(&"main"), "expected func main");
    assert!(names.contains(&"Point"), "expected type Point");

    let kinds: Vec<&SymbolKind> = syms.iter().map(|(_, k, _)| k).collect();
    assert!(kinds.contains(&&SymbolKind::Import));
    assert!(kinds.contains(&&SymbolKind::Function));

    assert_eq!(
        syms,
        vec![
            ("import \"fmt\"".to_owned(), SymbolKind::Import, 3),
            ("Point".to_owned(), SymbolKind::Struct, 5),
            ("NewPoint".to_owned(), SymbolKind::Function, 9),
            ("main".to_owned(), SymbolKind::Function, 13),
        ]
    );
}

#[test]
fn python_symbols_extracted() {
    let src = r#"import os
from pathlib import Path

class MyClass:
    def method(self):
        pass

def standalone():
    pass
"#;
    let syms = SymbolExtractor::extract("test.py", src, Language::Python).unwrap();

    let names: Vec<&str> = syms.iter().map(|(n, _, _)| n.as_str()).collect();
    assert!(names.contains(&"MyClass"), "expected class MyClass");
    assert!(names.contains(&"method"), "expected def method");
    assert!(names.contains(&"standalone"), "expected def standalone");

    assert_eq!(
        syms,
        vec![
            ("import os".to_owned(), SymbolKind::Import, 1),
            ("from pathlib import Path".to_owned(), SymbolKind::Import, 2),
            ("MyClass".to_owned(), SymbolKind::Class, 4),
            ("method".to_owned(), SymbolKind::Function, 5),
            ("standalone".to_owned(), SymbolKind::Function, 8),
        ]
    );
}

#[test]
fn grouped_go_types_stand_on_the_line_of_the_declaration() {
    let src = "package p\n\ntype (\n\tA struct{ B int }\n\tC = int\n\tD interface{}\n)\n\nfunc (a A) M() {}\n";
    let syms = SymbolExtractor::extract("p.go", src, Language::Go).unwrap();
    assert_eq!(
        syms,
        vec![
            ("A".to_owned(), SymbolKind::Struct, 3),
            ("D".to_owned(), SymbolKind::Struct, 3),
            ("M".to_owned(), SymbolKind::Function, 9),
        ]
    );
}

#[test]
fn unknown_languages_have_no_symbols() {
    let syms = SymbolExtractor::extract("a.txt", "fn a() {}", Language::Unknown).unwrap();
    assert!(syms.is_empty());
}

/// Visits a tree child by child.
fn visit(node: tree_sitter::Node, depth: u32, out: &mut Vec<SyntaxNode>) {
    let range = |field: &str| -> Option<(usize, usize)> {
        node.child_by_field_name(field)
            .map(|n| (n.start_byte(), n.end_byte()))
    };
    out.push(SyntaxNode {
        kind: node.kind().to_owned(),
        row: node.start_position().row,
        start: node.start_byte(),
        end: node.end_byte(),
        depth,
        name: range("name"),
        subject: range("type"),
    });
    for i in 0..node.child_count() {
        visit(node.child(i).unwrap(), depth + 1, out);
    }
}

fn nodes_of(language: &tree_sitter::Language, src: &str) -> Vec<SyntaxNode> {
    let mut parser = tree_sitter::Parser::new();
    parser.set_language(language).unwrap();
    let tree = parser.parse(src, None).unwrap();
    let mut out = Vec::new();
    visit(tree.root_node(), 0, &mut out);
    out
}

const RUST: &str = "use a::{b, c};\nmod m {\n    pub struct S;\n    impl<T> Tr for V<T> { fn f() { fn g() {} } }\n}\nfn é() {}\nuse x as y ;; fn broken( {\n";
const PYTHON: &str = "import a, b\nclass C:\n  async def d(self):\n    def e(): pass\nfrom .x import (y,\n z)\ndef (:\n";
const GO: &str = "package p\nimport (\n\"a\"\n\"b\"\n)\ntype T struct { f func() }\ntype ( U int; V string )\nfunc (t T) m() { type W int }\nfunc broken( {\n";

#[test]
fn trees_are_read_node_by_node() {
    let rust = nodes_of(&tree_sitter_rust::language(), RUST);
    assert_eq!(
        SymbolExtractor::extract("a.rs", RUST, Language::Rust).unwrap(),
        collect_rust_symbols(&rust, RUST.as_bytes())
    );
    let python = nodes_of(&tree_sitter_python::language(), PYTHON);
    assert_eq!(
        SymbolExtractor::extract("a.py", PYTHON, Language::Python).unwrap(),
        collect_python_symbols(&python, PYTHON.as_bytes())
    );
    let go = nodes_of(&tree_sitter_go::language(), GO);
    assert_eq!(
        SymbolExtractor::extract("a.go", GO, Language::Go).unwrap(),
        collect_go_symbols(&go, GO.as_bytes())
    );
}

fn node(kind: &str, row: usize, range: (usize, usize), name: Option<(usize, usize)>) -> SyntaxNode {
    SyntaxNode {
        kind: kind.to_owned(),
        row,
        start: range.0,
        end: range.1,
        depth: 0,
        name,
        subject: None,
    }
}

#[test]
fn symbols_come_from_the_nodes() {
    let src = "use a; fn f";
    let nodes = vec![
        node("use_declaration", 0, (0, 6), None),
        node("function_item", 4, (7, 11), Some((10, 11))),
        node("struct_item", 5, (7, 11), None),
        node("other", 6, (7, 11), Some((10, 11))),
    ];
    assert_eq!(
        symbols_in("x.rs", src, Language::Rust, &Some(Some(nodes))),
        Ok(vec![
            ("a".to_owned(), SymbolKind::Import, 1),
            ("f".to_owned(), SymbolKind::Function, 5),
        ])
    );
}

#[test]
fn text_that_is_cut_apart_is_empty() {
    let nodes = vec![node("function_item", 0, (0, 2), Some((0, 1)))];
    assert_eq!(
        symbols_in("x.rs", "é", Language::Rust, &Some(Some(nodes))),
        Ok(vec![("".to_owned(), SymbolKind::Function, 1)])
    );
}

#[test]
fn sources_that_cannot_be_read_are_errors() {
    let lang = Language::Python;
    assert_eq!(
        symbols_in("p.py", "x", lang, &None),
        Err(ExtractError::Grammar("p.py".to_owned()))
    );
    assert_eq!(symbols_in("p.py", "x", lang, &Some(None)), Err(ExtractError::Parse));
    let outside = vec![node("module", 0, (0, 2), None)];
    assert_eq!(
        symbols_in("p.py", "x", lang, &Some(Some(outside))),
        Err(ExtractError::Position)
    );
    let low = vec![node("module", u32::MAX as usize, (0, 1), None)];
    assert_eq!(
        symbols_in("p.py", "x", lang, &Some(Some(low))),
        Err(ExtractError::Position)
    );
    assert_eq!(symbols_in("p", "x", Language::Unknown, &None), Ok(vec![]));
}

#[test]
fn names_beyond_ascii_are_found() {
    let symbols = SymbolExtractor::extract("a.rs", "fn größe() {}\n", Language::Rust).unwrap();
    assert_eq!(symbols, vec![("größe".to_owned(), SymbolKind::Function, 1)]);
    assert!(SymbolExtractor::extract("a.rs", "fn f() { 1.é() }\n", Language::Rust).is_ok());
}
