//! Finds the symbols of a source file in its syntax tree.
use vstd::prelude::*;
use vstd::slice::slice_subrange;
use vstd::utf8::*;

use crate::language::{Language, SymbolKind};
use crate::text::{
    among, byte_len, law_trim_ends, lemma_encode_concat, same, strip_prefixes, trim_end,
    trim_end_any, without_prefixes,
};

verus! {

// ---------------------------------------------------------------------------
// Syntax trees

/// A syntax tree. Its nodes are read by [`tree_nodes`] and [`field_range`].
#[verifier::external_type_specification]
#[verifier::external_body]
pub struct ExTree(tree_sitter::Tree);

/// Why a parser refused a grammar.
#[verifier::external_type_specification]
#[verifier::external_body]
pub struct ExLanguageError(tree_sitter::LanguageError);

/// What a slice of bytes has that is not UTF-8.
#[verifier::external_type_specification]
#[verifier::external_body]
pub struct ExUtf8Error(core::str::Utf8Error);

/// A node of a syntax tree as the tree holds it.
#[verifier::ext_equal]
pub struct NodeView {
    /// What the grammar calls it.
    pub kind: Seq<char>,
    /// The line on which it begins, counted from zero.
    pub row: usize,
    /// The first byte of its text.
    pub start: usize,
    /// The byte behind its text.
    pub end: usize,
    /// How many nodes it lies in.
    pub depth: u32,
}

/// The nodes of a tree: each before its children, and these from left to right.
pub uninterp spec fn tree_nodes(tree: tree_sitter::Tree) -> Seq<NodeView>;

/// The first and the last byte of the child of the `index`th node that the
/// grammar calls by the name of a field.
pub uninterp spec fn field_range(
    tree: tree_sitter::Tree,
    index: int,
    field: Seq<char>,
) -> Option<(usize, usize)>;

/// A node of a syntax tree.
#[derive(Debug, Clone)]
pub struct SyntaxNode {
    /// What the grammar calls it.
    pub kind: String,
    /// The line on which it begins, counted from zero.
    pub row: usize,
    /// The first byte of its text.
    pub start: usize,
    /// The byte behind its text.
    pub end: usize,
    /// How many nodes it lies in.
    pub depth: u32,
    /// Where its name stands.
    pub name: Option<(usize, usize)>,
    /// Where the type stands that it is about.
    pub subject: Option<(usize, usize)>,
}

/// A node of a syntax tree, with texts for its strings.
#[verifier::ext_equal]
pub struct SyntaxView {
    pub node: NodeView,
    pub name: Option<(usize, usize)>,
    pub subject: Option<(usize, usize)>,
}

impl View for SyntaxNode {
    type V = SyntaxView;

    open spec fn view(&self) -> SyntaxView {
        SyntaxView {
            node: NodeView {
                kind: self.kind@,
                row: self.row,
                start: self.start,
                end: self.end,
                depth: self.depth,
            },
            name: self.name,
            subject: self.subject,
        }
    }
}

/// The nodes, with texts for their strings.
pub open spec fn syntax_views(nodes: Seq<SyntaxNode>) -> Seq<SyntaxView> {
    nodes.map_values(|n: SyntaxNode| n@)
}

/// The nodes of a tree with their fields.
pub open spec fn syntax(tree: tree_sitter::Tree) -> Seq<SyntaxView> {
    Seq::new(
        tree_nodes(tree).len(),
        |i: int|
            SyntaxView {
                node: tree_nodes(tree)[i],
                name: field_range(tree, i, "name"@),
                subject: field_range(tree, i, "type"@),
            },
    )
}

/// What a parser gives: nothing at all where it refuses the grammar, and perhaps no
/// tree where it does not.
pub type Parsed = Option<Option<Seq<SyntaxView>>>;

/// What a parser gave.
pub open spec fn outcome(
    parsed: Result<Option<tree_sitter::Tree>, tree_sitter::LanguageError>,
) -> Parsed {
    match parsed {
        Err(_) => None,
        Ok(None) => Some(None),
        Ok(Some(tree)) => Some(Some(syntax(tree))),
    }
}

/// What parsing an ASCII text as Rust gives.
pub uninterp spec fn rust_syntax(source: Seq<char>) -> Parsed;

/// What parsing a text as Python gives.
pub uninterp spec fn python_syntax(source: Seq<char>) -> Parsed;

/// What parsing a text as Go gives.
pub uninterp spec fn go_syntax(source: Seq<char>) -> Parsed;

/// `tree_sitter::Parser::parse` with the grammar of `tree_sitter_rust`, without an
/// earlier tree, a time limit or a cancellation flag: what it gives for an ASCII text
/// depends on the text alone. The scanner of the grammar asks the C library which
/// characters are letters and white space, and beyond ASCII the answer depends on the
/// locale, so that nothing is said of what comes of another text. A parser counts
/// bytes with 32 bits, so that a longer text would not end for it.
#[verifier::external_body]
fn parse_rust(source: &str) -> (r: Result<Option<tree_sitter::Tree>, tree_sitter::LanguageError>)
    requires
        encode_utf8(source@).len() <= u32::MAX,
    ensures
        is_ascii_chars(source@) ==> outcome(r) == rust_syntax(source@),
{
    let mut parser = tree_sitter::Parser::new();
    parser.set_language(&tree_sitter_rust::language())?;
    Ok(parser.parse(source, None))
}

/// `tree_sitter::Parser::parse` with the grammar of `tree_sitter_python`, without an
/// earlier tree, a time limit or a cancellation flag: what it gives depends on the
/// text alone. Texts are as long as for [`parse_rust`].
#[verifier::external_body]
fn parse_python(source: &str) -> (r: Result<Option<tree_sitter::Tree>, tree_sitter::LanguageError>)
    requires
        encode_utf8(source@).len() <= u32::MAX,
    ensures
        outcome(r) == python_syntax(source@),
{
    let mut parser = tree_sitter::Parser::new();
    parser.set_language(&tree_sitter_python::language())?;
    Ok(parser.parse(source, None))
}

/// `tree_sitter::Parser::parse` with the grammar of `tree_sitter_go`, without an
/// earlier tree, a time limit or a cancellation flag: what it gives depends on the
/// text alone. Texts are as long as for [`parse_rust`].
#[verifier::external_body]
fn parse_go(source: &str) -> (r: Result<Option<tree_sitter::Tree>, tree_sitter::LanguageError>)
    requires
        encode_utf8(source@).len() <= u32::MAX,
    ensures
        outcome(r) == go_syntax(source@),
{
    let mut parser = tree_sitter::Parser::new();
    parser.set_language(&tree_sitter_go::language())?;
    Ok(parser.parse(source, None))
}

/// `tree_sitter::Node::descendant_count` of the root: the number of nodes of the
/// tree, the root among them.
#[verifier::external_body]
fn node_count(tree: &tree_sitter::Tree) -> (r: usize)
    ensures
        r == tree_nodes(*tree).len(),
{
    tree.root_node().descendant_count()
}

/// `tree_sitter::TreeCursor::goto_descendant` from the root: the cursor stands on
/// the node with that number, which is then read.
#[verifier::external_body]
fn node_at(tree: &tree_sitter::Tree, index: usize) -> (r: SyntaxNode)
    requires
        index < tree_nodes(*tree).len(),
    ensures
        r@.node == tree_nodes(*tree)[index as int],
        r.name is None,
        r.subject is None,
{
    let mut cursor = tree.walk();
    cursor.goto_descendant(index);
    let node = cursor.node();
    SyntaxNode {
        kind: node.kind().to_owned(),
        row: node.start_position().row,
        start: node.start_byte(),
        end: node.end_byte(),
        depth: cursor.depth(),
        name: None,
        subject: None,
    }
}

/// `tree_sitter::Node::child_by_field_name` on the node with the number `index`:
/// the bytes of the first child with that field name, if there is one.
#[verifier::external_body]
fn field_at(tree: &tree_sitter::Tree, index: usize, field: &str) -> (r: Option<(usize, usize)>)
    requires
        index < tree_nodes(*tree).len(),
    ensures
        r == field_range(*tree, index as int, field@),
{
    let mut cursor = tree.walk();
    cursor.goto_descendant(index);
    cursor.node().child_by_field_name(field).map(|n| (n.start_byte(), n.end_byte()))
}

/// `core::str::from_utf8` accepts exactly the bytes that are UTF-8, and gives the
/// text that they encode.
pub assume_specification[ core::str::from_utf8 ](v: &[u8]) -> (r: Result<
    &str,
    core::str::Utf8Error,
>)
    ensures
        r is Ok <==> valid_utf8(v@),
        r matches Ok(s) ==> s@ == decode_utf8(v@),
;

/// Reads all nodes of a tree.
fn read_tree(tree: &tree_sitter::Tree) -> (r: Vec<SyntaxNode>)
    ensures
        syntax_views(r@) == syntax(*tree),
{
    let n = node_count(tree);
    let mut out: Vec<SyntaxNode> = Vec::new();
    let mut i: usize = 0;
    while i < n
        invariant
            i <= n == tree_nodes(*tree).len(),
            syntax_views(out@) =~= syntax(*tree).take(i as int),
        decreases n - i,
    {
        let ghost so_far = syntax_views(out@);
        let mut node = node_at(tree, i);
        node.name = field_at(tree, i, "name");
        node.subject = field_at(tree, i, "type");
        out.push(node);
        assert(syntax_views(out@) =~= so_far.push(node@));
        i += 1;
    }
    assert(syntax(*tree).take(i as int) =~= syntax(*tree));
    out
}

// ---------------------------------------------------------------------------
// Symbols

/// Symbols as they are found: name, kind and line.
pub open spec fn found(symbols: Seq<(String, SymbolKind, u32)>) -> Seq<
    (Seq<char>, SymbolKind, u32),
> {
    symbols.map_values(|s: (String, SymbolKind, u32)| (s.0@, s.1, s.2))
}

/// Whether a range lies in a text of `n` bytes.
pub open spec fn lies_in(range: (usize, usize), n: nat) -> bool {
    range.0 <= range.1 <= n
}

/// Whether a node lies in a text of `n` bytes, and its line can be counted.
pub open spec fn node_lies_in(node: SyntaxView, n: nat) -> bool {
    &&& node.node.row < u32::MAX
    &&& lies_in((node.node.start, node.node.end), n)
    &&& node.name matches Some(range) ==> lies_in(range, n)
    &&& node.subject matches Some(range) ==> lies_in(range, n)
}

/// Whether all nodes lie in a text of `n` bytes.
pub open spec fn all_lie_in(nodes: Seq<SyntaxView>, n: nat) -> bool {
    forall|i: int| 0 <= i < nodes.len() ==> node_lies_in(#[trigger] nodes[i], n)
}

/// The text at a range of bytes; nothing where that is not UTF-8.
pub open spec fn text_at(bytes: Seq<u8>, range: (usize, usize)) -> Seq<char> {
    let part = bytes.subrange(range.0 as int, range.1 as int);
    if valid_utf8(part) {
        decode_utf8(part)
    } else {
        ""@
    }
}

/// The line of a node, counted from one.
pub open spec fn line_of(node: SyntaxView) -> u32 {
    (node.node.row + 1) as u32
}

/// The symbol that stands at a range, if there is one.
pub open spec fn symbol_at(
    bytes: Seq<u8>,
    range: Option<(usize, usize)>,
    kind: SymbolKind,
    line: u32,
) -> Seq<(Seq<char>, SymbolKind, u32)> {
    match range {
        Some(at) => seq![(text_at(bytes, at), kind, line)],
        None => Seq::empty(),
    }
}

/// The whole text of a node.
pub open spec fn whole(node: SyntaxView, bytes: Seq<u8>) -> Seq<char> {
    text_at(bytes, (node.node.start, node.node.end))
}

/// The symbol that a node of a Rust tree stands for: a function, a struct, an
/// implementation or an import.
pub open spec fn rust_symbol(node: SyntaxView, bytes: Seq<u8>) -> Seq<
    (Seq<char>, SymbolKind, u32),
> {
    let kind = node.node.kind;
    if kind == "function_item"@ {
        symbol_at(bytes, node.name, SymbolKind::Function, line_of(node))
    } else if kind == "struct_item"@ {
        symbol_at(bytes, node.name, SymbolKind::Struct, line_of(node))
    } else if kind == "impl_item"@ {
        symbol_at(bytes, node.subject, SymbolKind::Impl, line_of(node))
    } else if kind == "use_declaration"@ {
        let path = strip_prefixes(trim_end(whole(node, bytes), among(";"@)), "use "@);
        seq![(path, SymbolKind::Import, line_of(node))]
    } else {
        Seq::empty()
    }
}

/// The symbols of the first `n` nodes of a Rust tree.
pub open spec fn rust_symbols(nodes: Seq<SyntaxView>, bytes: Seq<u8>, n: nat) -> Seq<
    (Seq<char>, SymbolKind, u32),
>
    decreases n,
{
    if n == 0 {
        Seq::empty()
    } else {
        rust_symbols(nodes, bytes, (n - 1) as nat) + rust_symbol(nodes[n - 1], bytes)
    }
}

/// The symbol that a node of a Python tree stands for: a function, a class or an
/// import.
pub open spec fn python_symbol(node: SyntaxView, bytes: Seq<u8>) -> Seq<
    (Seq<char>, SymbolKind, u32),
> {
    let kind = node.node.kind;
    if kind == "function_definition"@ {
        symbol_at(bytes, node.name, SymbolKind::Function, line_of(node))
    } else if kind == "class_definition"@ {
        symbol_at(bytes, node.name, SymbolKind::Class, line_of(node))
    } else if kind == "import_statement"@ || kind == "import_from_statement"@ {
        seq![(whole(node, bytes), SymbolKind::Import, line_of(node))]
    } else {
        Seq::empty()
    }
}

/// The symbols of the first `n` nodes of a Python tree.
pub open spec fn python_symbols(nodes: Seq<SyntaxView>, bytes: Seq<u8>, n: nat) -> Seq<
    (Seq<char>, SymbolKind, u32),
>
    decreases n,
{
    if n == 0 {
        Seq::empty()
    } else {
        python_symbols(nodes, bytes, (n - 1) as nat) + python_symbol(nodes[n - 1], bytes)
    }
}

/// The types that the children of the `i`th node declare, as far as these stand
/// at or behind `j`. They are found on the line of the declaration.
pub open spec fn declared_types(
    nodes: Seq<SyntaxView>,
    bytes: Seq<u8>,
    i: int,
    j: int,
) -> Seq<(Seq<char>, SymbolKind, u32)>
    decreases nodes.len() - j,
{
    if j >= nodes.len() || nodes[j].node.depth <= nodes[i].node.depth {
        Seq::empty()
    } else {
        let rest = declared_types(nodes, bytes, i, j + 1);
        if nodes[j].node.depth == nodes[i].node.depth + 1 && nodes[j].node.kind == "type_spec"@ {
            symbol_at(bytes, nodes[j].name, SymbolKind::Struct, line_of(nodes[i])) + rest
        } else {
            rest
        }
    }
}

/// The symbols that the `i`th node of a Go tree stands for: a function or a
/// method, the types of a declaration, or an import.
pub open spec fn go_symbol(nodes: Seq<SyntaxView>, bytes: Seq<u8>, i: int) -> Seq<
    (Seq<char>, SymbolKind, u32),
> {
    let node = nodes[i];
    let kind = node.node.kind;
    if kind == "function_declaration"@ || kind == "method_declaration"@ {
        symbol_at(bytes, node.name, SymbolKind::Function, line_of(node))
    } else if kind == "type_declaration"@ {
        declared_types(nodes, bytes, i, i + 1)
    } else if kind == "import_declaration"@ {
        seq![(whole(node, bytes), SymbolKind::Import, line_of(node))]
    } else {
        Seq::empty()
    }
}

/// The symbols of the first `n` nodes of a Go tree.
pub open spec fn go_symbols(nodes: Seq<SyntaxView>, bytes: Seq<u8>, n: nat) -> Seq<
    (Seq<char>, SymbolKind, u32),
>
    decreases n,
{
    if n == 0 {
        Seq::empty()
    } else {
        go_symbols(nodes, bytes, (n - 1) as nat) + go_symbol(nodes, bytes, n - 1)
    }
}

/// The text at a range of bytes.
fn node_text(bytes: &[u8], range: (usize, usize)) -> (r: String)
    requires
        lies_in(range, bytes@.len()),
    ensures
        r@ == text_at(bytes@, range),
{
    match core::str::from_utf8(slice_subrange(bytes, range.0, range.1)) {
        Ok(text) => text.to_owned(),
        Err(_) => "".to_owned(),
    }
}

/// Adds the symbol that stands at a range, if there is one.
fn add_symbol(
    out: &mut Vec<(String, SymbolKind, u32)>,
    bytes: &[u8],
    range: Option<(usize, usize)>,
    kind: SymbolKind,
    line: u32,
)
    requires
        range matches Some(at) ==> lies_in(at, bytes@.len()),
    ensures
        found(final(out)@) == found(old(out)@) + symbol_at(bytes@, range, kind, line),
{
    let ghost so_far = found(out@);
    match range {
        Some(at) => {
            let name = node_text(bytes, at);
            out.push((name, kind, line));
            assert(found(out@) =~= so_far.push((name@, kind, line)));
            assert(so_far.push((name@, kind, line)) =~= so_far + seq![(name@, kind, line)]);
        },
        None => {
            assert(so_far + Seq::<(Seq<char>, SymbolKind, u32)>::empty() =~= so_far);
        },
    }
}

/// Adds an import.
fn add_import(out: &mut Vec<(String, SymbolKind, u32)>, text: String, line: u32)
    ensures
        found(final(out)@) == found(old(out)@) + seq![(text@, SymbolKind::Import, line)],
{
    let ghost so_far = found(out@);
    let ghost added = (text@, SymbolKind::Import, line);
    out.push((text, SymbolKind::Import, line));
    assert(found(out@) =~= so_far.push(added));
    assert(so_far.push(added) =~= so_far + seq![added]);
}

/// Finds the symbols of a Rust source in its syntax tree.
pub fn collect_rust_symbols(nodes: &Vec<SyntaxNode>, src: &[u8]) -> (r: Vec<
    (String, SymbolKind, u32),
>)
    requires
        all_lie_in(syntax_views(nodes@), src@.len()),
    ensures
        found(r@) == rust_symbols(syntax_views(nodes@), src@, nodes@.len()),
{
    let mut out: Vec<(String, SymbolKind, u32)> = Vec::new();
    let ghost all = syntax_views(nodes@);
    assert(found(out@) =~= Seq::empty());
    let mut i: usize = 0;
    while i < nodes.len()
        invariant
            i <= nodes@.len(),
            all == syntax_views(nodes@),
            all_lie_in(all, src@.len()),
            found(out@) == rust_symbols(all, src@, i as nat),
        decreases nodes@.len() - i,
    {
        let node = &nodes[i];
        assert(all[i as int] == node@);
        assert(node_lies_in(all[i as int], src@.len()));
        let line: u32 = node.row as u32 + 1;
        let kind = node.kind.as_str();
        let ghost so_far = found(out@);
        if same(kind, "function_item") {
            add_symbol(&mut out, src, node.name, SymbolKind::Function, line);
        } else if same(kind, "struct_item") {
            add_symbol(&mut out, src, node.name, SymbolKind::Struct, line);
        } else if same(kind, "impl_item") {
            add_symbol(&mut out, src, node.subject, SymbolKind::Impl, line);
        } else if same(kind, "use_declaration") {
            let text = node_text(src, (node.start, node.end));
            let text = trim_end_any(text.as_str(), ";");
            let text = without_prefixes(text.as_str(), "use ");
            add_import(&mut out, text, line);
        } else {
            assert(so_far + rust_symbol(all[i as int], src@) =~= so_far);
        }
        i += 1;
    }
    out
}

/// Finds the symbols of a Python source in its syntax tree.
pub fn collect_python_symbols(nodes: &Vec<SyntaxNode>, src: &[u8]) -> (r: Vec<
    (String, SymbolKind, u32),
>)
    requires
        all_lie_in(syntax_views(nodes@), src@.len()),
    ensures
        found(r@) == python_symbols(syntax_views(nodes@), src@, nodes@.len()),
{
    let mut out: Vec<(String, SymbolKind, u32)> = Vec::new();
    let ghost all = syntax_views(nodes@);
    assert(found(out@) =~= Seq::empty());
    let mut i: usize = 0;
    while i < nodes.len()
        invariant
            i <= nodes@.len(),
            all == syntax_views(nodes@),
            all_lie_in(all, src@.len()),
            found(out@) == python_symbols(all, src@, i as nat),
        decreases nodes@.len() - i,
    {
        let node = &nodes[i];
        assert(all[i as int] == node@);
        assert(node_lies_in(all[i as int], src@.len()));
        let line: u32 = node.row as u32 + 1;
        let kind = node.kind.as_str();
        let ghost so_far = found(out@);
        if same(kind, "function_definition") {
            add_symbol(&mut out, src, node.name, SymbolKind::Function, line);
        } else if same(kind, "class_definition") {
            add_symbol(&mut out, src, node.name, SymbolKind::Class, line);
        } else if same(kind, "import_statement") || same(kind, "import_from_statement") {
            let text = node_text(src, (node.start, node.end));
            add_import(&mut out, text, line);
        } else {
            assert(so_far + python_symbol(all[i as int], src@) =~= so_far);
        }
        i += 1;
    }
    out
}

/// Adds the types that the children of a declaration declare.
fn add_declared_types(
    out: &mut Vec<(String, SymbolKind, u32)>,
    nodes: &Vec<SyntaxNode>,
    src: &[u8],
    i: usize,
)
    requires
        i < nodes@.len(),
        all_lie_in(syntax_views(nodes@), src@.len()),
    ensures
        found(final(out)@) == found(old(out)@) + declared_types(
            syntax_views(nodes@),
            src@,
            i as int,
            i + 1,
        ),
{
    let ghost all = syntax_views(nodes@);
    let ghost start = found(out@);
    assert(all[i as int] == nodes@[i as int]@);
    assert(node_lies_in(all[i as int], src@.len()));
    let n: usize = nodes.len();
    let depth: u32 = nodes[i].depth;
    let line: u32 = nodes[i].row as u32 + 1;
    assert(i < n);
    let mut j: usize = i + 1;
    while j < nodes.len() && nodes[j].depth > depth
        invariant
            i < j <= nodes@.len(),
            all == syntax_views(nodes@),
            all_lie_in(all, src@.len()),
            depth == all[i as int].node.depth,
            line == line_of(all[i as int]),
            start + declared_types(all, src@, i as int, i + 1) == found(out@) + declared_types(
                all,
                src@,
                i as int,
                j as int,
            ),
        decreases nodes@.len() - j,
    {
        assert(all[j as int] == nodes@[j as int]@);
        assert(node_lies_in(all[j as int], src@.len()));
        let ghost so_far = found(out@);
        let ghost rest = declared_types(all, src@, i as int, j + 1);
        if nodes[j].depth - 1 == depth && same(nodes[j].kind.as_str(), "type_spec") {
            add_symbol(out, src, nodes[j].name, SymbolKind::Struct, line);
            proof {
                let one = symbol_at(src@, all[j as int].name, SymbolKind::Struct, line);
                assert(so_far + (one + rest) =~= (so_far + one) + rest);
            }
        }
        j += 1;
    }
    proof {
        if j < nodes@.len() {
            assert(all[j as int] == nodes@[j as int]@);
        }
        let rest = declared_types(all, src@, i as int, j as int);
        assert(found(out@) + rest =~= found(out@));
    }
}

/// Finds the symbols of a Go source in its syntax tree.
pub fn collect_go_symbols(nodes: &Vec<SyntaxNode>, src: &[u8]) -> (r: Vec<
    (String, SymbolKind, u32),
>)
    requires
        all_lie_in(syntax_views(nodes@), src@.len()),
    ensures
        found(r@) == go_symbols(syntax_views(nodes@), src@, nodes@.len()),
{
    let mut out: Vec<(String, SymbolKind, u32)> = Vec::new();
    let ghost all = syntax_views(nodes@);
    assert(found(out@) =~= Seq::empty());
    let mut i: usize = 0;
    while i < nodes.len()
        invariant
            i <= nodes@.len(),
            all == syntax_views(nodes@),
            all_lie_in(all, src@.len()),
            found(out@) == go_symbols(all, src@, i as nat),
        decreases nodes@.len() - i,
    {
        let node = &nodes[i];
        assert(all[i as int] == node@);
        assert(node_lies_in(all[i as int], src@.len()));
        let line: u32 = node.row as u32 + 1;
        let kind = node.kind.as_str();
        let ghost so_far = found(out@);
        if same(kind, "function_declaration") || same(kind, "method_declaration") {
            add_symbol(&mut out, src, node.name, SymbolKind::Function, line);
        } else if same(kind, "type_declaration") {
            add_declared_types(&mut out, nodes, src, i);
        } else if same(kind, "import_declaration") {
            let text = node_text(src, (node.start, node.end));
            add_import(&mut out, text, line);
        } else {
            assert(so_far + go_symbol(all, src@, i as int) =~= so_far);
        }
        i += 1;
    }
    out
}

// ---------------------------------------------------------------------------
// Extraction

/// Why no symbols can be given for a source.
#[derive(Debug, PartialEq, Eq)]
pub enum ExtractError {
    /// The source is longer than a parser can count.
    TooLong,
    /// The parser does not take the grammar of the language. Holds the path of the
    /// source.
    Grammar(String),
    /// The parser gave no tree.
    Parse,
    /// The tree does not lie in the source.
    Position,
}

/// An [`ExtractError`], with a text for its string.
#[verifier::ext_equal]
pub enum ExtractFailure {
    TooLong,
    Grammar(Seq<char>),
    Parse,
    Position,
}

impl View for ExtractError {
    type V = ExtractFailure;

    open spec fn view(&self) -> ExtractFailure {
        match self {
            ExtractError::TooLong => ExtractFailure::TooLong,
            ExtractError::Grammar(path) => ExtractFailure::Grammar(path@),
            ExtractError::Parse => ExtractFailure::Parse,
            ExtractError::Position => ExtractFailure::Position,
        }
    }
}

/// The result of an extraction, with texts for its strings.
pub open spec fn result_view(r: Result<Vec<(String, SymbolKind, u32)>, ExtractError>) -> Result<
    Seq<(Seq<char>, SymbolKind, u32)>,
    ExtractFailure,
> {
    match r {
        Ok(symbols) => Ok(found(symbols@)),
        Err(e) => Err(e@),
    }
}

/// The symbols that a syntax tree gives, for the language of the source.
pub open spec fn symbols_of(lang: Language, nodes: Seq<SyntaxView>, bytes: Seq<u8>) -> Seq<
    (Seq<char>, SymbolKind, u32),
> {
    match lang {
        Language::Rust => rust_symbols(nodes, bytes, nodes.len()),
        Language::Python => python_symbols(nodes, bytes, nodes.len()),
        Language::Go => go_symbols(nodes, bytes, nodes.len()),
        Language::Unknown => Seq::empty(),
    }
}

/// Whether parsing a source can give `parsed`, for its language. What it gives is fixed
/// but for a Rust source that is not ASCII.
pub open spec fn parses_to(lang: Language, source: Seq<char>, parsed: Parsed) -> bool {
    match lang {
        Language::Rust => is_ascii_chars(source) ==> parsed == rust_syntax(source),
        Language::Python => parsed == python_syntax(source),
        Language::Go => parsed == go_syntax(source),
        Language::Unknown => parsed is None,
    }
}

/// Something that parsing a source can give.
spec fn some_parse(lang: Language, source: Seq<char>) -> Parsed {
    match lang {
        Language::Rust => rust_syntax(source),
        Language::Python => python_syntax(source),
        Language::Go => go_syntax(source),
        Language::Unknown => None,
    }
}

/// What the extraction of symbols gives, for what parsing gave.
pub open spec fn extracted(
    path: Seq<char>,
    source: Seq<char>,
    lang: Language,
    parsed: Parsed,
) -> Result<Seq<(Seq<char>, SymbolKind, u32)>, ExtractFailure> {
    let bytes = encode_utf8(source);
    if lang == Language::Unknown {
        Ok(Seq::empty())
    } else if bytes.len() > u32::MAX {
        Err(ExtractFailure::TooLong)
    } else {
        match parsed {
            None => Err(ExtractFailure::Grammar(path)),
            Some(None) => Err(ExtractFailure::Parse),
            Some(Some(nodes)) => if all_lie_in(nodes, bytes.len()) {
                Ok(symbols_of(lang, nodes, bytes))
            } else {
                Err(ExtractFailure::Position)
            },
        }
    }
}

fn range_fits(range: Option<(usize, usize)>, n: usize) -> (r: bool)
    ensures
        r == (range matches Some(at) ==> lies_in(at, n as nat)),
{
    match range {
        Some(at) => at.0 <= at.1 && at.1 <= n,
        None => true,
    }
}

fn nodes_fit(nodes: &Vec<SyntaxNode>, n: usize) -> (r: bool)
    ensures
        r == all_lie_in(syntax_views(nodes@), n as nat),
{
    let ghost all = syntax_views(nodes@);
    let mut i: usize = 0;
    while i < nodes.len()
        invariant
            i <= nodes@.len(),
            all == syntax_views(nodes@),
            forall|k: int| 0 <= k < i ==> node_lies_in(#[trigger] all[k], n as nat),
        decreases nodes@.len() - i,
    {
        let node = &nodes[i];
        assert(all[i as int] == node@);
        if !(node.row < u32::MAX as usize && range_fits(Some((node.start, node.end)), n)
            && range_fits(node.name, n) && range_fits(node.subject, n)) {
            assert(!node_lies_in(all[i as int], n as nat));
            return false;
        }
        i += 1;
    }
    true
}

/// What parsing gave, with texts for its strings.
pub open spec fn parsed_view(parsed: Option<Option<Vec<SyntaxNode>>>) -> Parsed {
    match parsed {
        None => None,
        Some(None) => Some(None),
        Some(Some(nodes)) => Some(Some(syntax_views(nodes@))),
    }
}

/// Finds the symbols of a source in what parsing it gave.
pub fn symbols_in(
    path: &str,
    source: &str,
    lang: Language,
    parsed: &Option<Option<Vec<SyntaxNode>>>,
) -> (r: Result<Vec<(String, SymbolKind, u32)>, ExtractError>)
    ensures
        result_view(r) == extracted(path@, source@, lang, parsed_view(*parsed)),
{
    if lang == Language::Unknown {
        let none: Vec<(String, SymbolKind, u32)> = Vec::new();
        assert(found(none@) =~= Seq::empty());
        return Ok(none);
    }
    let n = byte_len(source);
    if n > u32::MAX as usize {
        return Err(ExtractError::TooLong);
    }
    match parsed {
        None => Err(ExtractError::Grammar(path.to_owned())),
        Some(None) => Err(ExtractError::Parse),
        Some(Some(nodes)) => {
            if !nodes_fit(nodes, n) {
                return Err(ExtractError::Position);
            }
            let src = source.as_bytes();
            let symbols = match lang {
                Language::Rust => collect_rust_symbols(nodes, src),
                Language::Python => collect_python_symbols(nodes, src),
                _ => collect_go_symbols(nodes, src),
            };
            Ok(symbols)
        },
    }
}

/// Finds the symbols of source files.
pub struct SymbolExtractor;

impl SymbolExtractor {
    /// Parses a source in its language.
    fn parse(source: &str, lang: Language) -> (r: Option<Option<Vec<SyntaxNode>>>)
        requires
            lang != Language::Unknown,
            encode_utf8(source@).len() <= u32::MAX,
        ensures
            parses_to(lang, source@, parsed_view(r)),
    {
        let parsed = match lang {
            Language::Rust => parse_rust(source),
            Language::Python => parse_python(source),
            _ => parse_go(source),
        };
        match parsed {
            Err(_) => None,
            Ok(None) => Some(None),
            Ok(Some(tree)) => Some(Some(read_tree(&tree))),
        }
    }

    /// Finds the symbols of a source in its language, with their kinds and lines,
    /// in the order in which they stand in the source.
    pub fn extract(path: &str, source: &str, lang: Language) -> (r: Result<
        Vec<(String, SymbolKind, u32)>,
        ExtractError,
    >)
        ensures
            exists|parsed: Parsed| #[trigger]
                parses_to(lang, source@, parsed) && result_view(r) == extracted(
                    path@,
                    source@,
                    lang,
                    parsed,
                ),
    {
        if lang == Language::Unknown || byte_len(source) > u32::MAX as usize {
            assert(parses_to(lang, source@, some_parse(lang, source@)));
            return symbols_in(path, source, lang, &None);
        }
        let parsed = Self::parse(source, lang);
        assert(parses_to(lang, source@, parsed_view(parsed)));
        symbols_in(path, source, lang, &parsed)
    }
}

// ---------------------------------------------------------------------------
// Laws

/// The positions among the first `n` nodes of those that satisfy `p`.
spec fn positions(nodes: Seq<SyntaxView>, p: spec_fn(SyntaxView) -> bool, n: nat) -> Seq<int>
    decreases n,
{
    if n == 0 {
        Seq::empty()
    } else if p(nodes[n - 1]) {
        positions(nodes, p, (n - 1) as nat).push(n - 1)
    } else {
        positions(nodes, p, (n - 1) as nat)
    }
}

proof fn lemma_positions(nodes: Seq<SyntaxView>, p: spec_fn(SyntaxView) -> bool, n: nat)
    requires
        n <= nodes.len(),
    ensures
        forall|k: int|
            0 <= k < positions(nodes, p, n).len() ==> 0 <= #[trigger] positions(nodes, p, n)[k] < n
                && p(nodes[positions(nodes, p, n)[k]]),
        forall|k: int, l: int|
            0 <= k < l < positions(nodes, p, n).len() ==> #[trigger] positions(nodes, p, n)[k]
                < #[trigger] positions(nodes, p, n)[l],
        forall|i: int|
            0 <= i < n && p(#[trigger] nodes[i]) ==> positions(nodes, p, n).contains(i),
    decreases n,
{
    if n > 0 {
        lemma_positions(nodes, p, (n - 1) as nat);
        broadcast use vstd::seq_lib::lemma_seq_contains_after_push;

        let all = positions(nodes, p, n);
        assert forall|i: int| 0 <= i < n && p(#[trigger] nodes[i]) implies all.contains(i) by {
            if i == n - 1 {
                assert(all.contains(n - 1));
            } else {
                assert(positions(nodes, p, (n - 1) as nat).contains(i));
            }
        }
    }
}

/// The nodes of a Python tree that are symbols.
spec fn python_nodes() -> spec_fn(SyntaxView) -> bool {
    |v: SyntaxView|
        {
            ||| (v.node.kind == "function_definition"@ || v.node.kind == "class_definition"@)
                && v.name is Some
            ||| v.node.kind == "import_statement"@
            ||| v.node.kind == "import_from_statement"@
        }
}

proof fn lemma_python_at(nodes: Seq<SyntaxView>, bytes: Seq<u8>, n: nat)
    requires
        n <= nodes.len(),
    ensures
        python_symbols(nodes, bytes, n).len() == positions(nodes, python_nodes(), n).len(),
        forall|k: int|
            0 <= k < positions(nodes, python_nodes(), n).len() ==> seq![
                #[trigger] python_symbols(nodes, bytes, n)[k],
            ] == python_symbol(nodes[positions(nodes, python_nodes(), n)[k]], bytes),
    decreases n,
{
    if n > 0 {
        lemma_python_at(nodes, bytes, (n - 1) as nat);
        lemma_kinds_differ();
        let one = python_symbol(nodes[n - 1], bytes);
        let before = python_symbols(nodes, bytes, (n - 1) as nat);
        let at = positions(nodes, python_nodes(), (n - 1) as nat);
        let all = python_symbols(nodes, bytes, n);
        assert(all == before + one);
        assert(one.len() == if python_nodes()(nodes[n - 1]) {
            1nat
        } else {
            0nat
        });
        assert forall|k: int| 0 <= k < positions(nodes, python_nodes(), n).len() implies seq![
            #[trigger] all[k],
        ] == python_symbol(nodes[positions(nodes, python_nodes(), n)[k]], bytes) by {
            if k < at.len() {
                assert(all[k] == before[k]);
            } else {
                assert(all[k] == one[0]);
                assert(seq![one[0]] =~= one);
            }
        }
    }
}

proof fn lemma_kinds_differ()
    ensures
        "function_definition"@ != "class_definition"@,
        "import_statement"@ != "import_from_statement"@,
        "function_definition"@ != "import_statement"@,
        "function_definition"@ != "import_from_statement"@,
        "class_definition"@ != "import_statement"@,
        "class_definition"@ != "import_from_statement"@,
        "function_item"@ != "struct_item"@,
        "function_item"@ != "impl_item"@,
        "function_item"@ != "use_declaration"@,
        "struct_item"@ != "impl_item"@,
        "struct_item"@ != "use_declaration"@,
        "impl_item"@ != "use_declaration"@,
        "function_declaration"@ != "method_declaration"@,
        "function_declaration"@ != "type_declaration"@,
        "function_declaration"@ != "import_declaration"@,
        "method_declaration"@ != "type_declaration"@,
        "method_declaration"@ != "import_declaration"@,
        "type_declaration"@ != "import_declaration"@,
{
    reveal_strlit("function_definition");
    reveal_strlit("class_definition");
    reveal_strlit("import_statement");
    reveal_strlit("import_from_statement");
    reveal_strlit("function_item");
    reveal_strlit("struct_item");
    reveal_strlit("impl_item");
    reveal_strlit("use_declaration");
    reveal_strlit("function_declaration");
    reveal_strlit("method_declaration");
    reveal_strlit("type_declaration");
    reveal_strlit("import_declaration");
    assert("function_definition"@[0] == 'f' && "class_definition"@[0] == 'c'
        && "import_statement"@[0] == 'i' && "import_from_statement"@[0] == 'i');
    assert("import_statement"@.len() != "import_from_statement"@.len());
    assert("function_item"@[0] == 'f' && "struct_item"@[0] == 's' && "impl_item"@[0] == 'i'
        && "use_declaration"@[0] == 'u');
    assert("function_declaration"@[0] == 'f' && "method_declaration"@[0] == 'm'
        && "type_declaration"@[0] == 't' && "import_declaration"@[0] == 'i');
}

/// Every function and class of a Python tree that has a name, and every import, is
/// found once, at whatever depth it stands, with its text and its line; nothing else
/// is. `at` says which node each symbol is, in the order of the nodes.
pub proof fn law_python_symbols(nodes: Seq<SyntaxView>, bytes: Seq<u8>) -> (at: Seq<int>)
    ensures
        ({
            let r = python_symbols(nodes, bytes, nodes.len());
            &&& at.len() == r.len()
            &&& forall|k: int, l: int|
                0 <= k < l < at.len() ==> #[trigger] at[k] < #[trigger] at[l]
            &&& forall|i: int|
                0 <= i < nodes.len() && (#[trigger] nodes[i]).node.kind == "function_definition"@
                    && nodes[i].name is Some ==> at.contains(i)
            &&& forall|i: int|
                0 <= i < nodes.len() && (#[trigger] nodes[i]).node.kind == "class_definition"@
                    && nodes[i].name is Some ==> at.contains(i)
            &&& forall|i: int|
                0 <= i < nodes.len() && ((#[trigger] nodes[i]).node.kind == "import_statement"@
                    || nodes[i].node.kind == "import_from_statement"@) ==> at.contains(i)
            &&& forall|k: int|
                0 <= k < at.len() ==> {
                    let v = nodes[#[trigger] at[k]];
                    let line = (v.node.row + 1) as u32;
                    &&& 0 <= at[k] < nodes.len()
                    &&& {
                        ||| v.node.kind == "function_definition"@ && v.name is Some && r[k] == (
                            text_at(bytes, v.name->0),
                            SymbolKind::Function,
                            line,
                        )
                        ||| v.node.kind == "class_definition"@ && v.name is Some && r[k] == (
                            text_at(bytes, v.name->0),
                            SymbolKind::Class,
                            line,
                        )
                        ||| (v.node.kind == "import_statement"@ || v.node.kind
                            == "import_from_statement"@) && r[k] == (
                            text_at(bytes, (v.node.start, v.node.end)),
                            SymbolKind::Import,
                            line,
                        )
                    }
                }
        }),
{
    let at = positions(nodes, python_nodes(), nodes.len());
    let r = python_symbols(nodes, bytes, nodes.len());
    lemma_positions(nodes, python_nodes(), nodes.len());
    lemma_python_at(nodes, bytes, nodes.len());
    lemma_kinds_differ();
    assert forall|k: int| 0 <= k < at.len() implies {
        let v = nodes[#[trigger] at[k]];
        let line = (v.node.row + 1) as u32;
        &&& 0 <= at[k] < nodes.len()
        &&& {
            ||| v.node.kind == "function_definition"@ && v.name is Some && r[k] == (
                text_at(bytes, v.name->0),
                SymbolKind::Function,
                line,
            )
            ||| v.node.kind == "class_definition"@ && v.name is Some && r[k] == (
                text_at(bytes, v.name->0),
                SymbolKind::Class,
                line,
            )
            ||| (v.node.kind == "import_statement"@ || v.node.kind == "import_from_statement"@)
                && r[k] == (
                text_at(bytes, (v.node.start, v.node.end)),
                SymbolKind::Import,
                line,
            )
        }
    } by {
        let v = nodes[at[k]];
        let one = python_symbol(v, bytes);
        assert(seq![r[k]] == one);
        assert(seq![r[k]][0] == r[k]);
    }
    at
}

/// The nodes of a Rust tree that are symbols.
spec fn rust_nodes() -> spec_fn(SyntaxView) -> bool {
    |v: SyntaxView|
        {
            ||| (v.node.kind == "function_item"@ || v.node.kind == "struct_item"@) && v.name is Some
            ||| v.node.kind == "impl_item"@ && v.subject is Some
            ||| v.node.kind == "use_declaration"@
        }
}

proof fn lemma_rust_at(nodes: Seq<SyntaxView>, bytes: Seq<u8>, n: nat)
    requires
        n <= nodes.len(),
    ensures
        rust_symbols(nodes, bytes, n).len() == positions(nodes, rust_nodes(), n).len(),
        forall|k: int|
            0 <= k < positions(nodes, rust_nodes(), n).len() ==> seq![
                #[trigger] rust_symbols(nodes, bytes, n)[k],
            ] == rust_symbol(nodes[positions(nodes, rust_nodes(), n)[k]], bytes),
    decreases n,
{
    if n > 0 {
        lemma_rust_at(nodes, bytes, (n - 1) as nat);
        lemma_kinds_differ();
        let one = rust_symbol(nodes[n - 1], bytes);
        let before = rust_symbols(nodes, bytes, (n - 1) as nat);
        let at = positions(nodes, rust_nodes(), (n - 1) as nat);
        let all = rust_symbols(nodes, bytes, n);
        assert(all == before + one);
        assert(one.len() == if rust_nodes()(nodes[n - 1]) {
            1nat
        } else {
            0nat
        });
        assert forall|k: int| 0 <= k < positions(nodes, rust_nodes(), n).len() implies seq![
            #[trigger] all[k],
        ] == rust_symbol(nodes[positions(nodes, rust_nodes(), n)[k]], bytes) by {
            if k < at.len() {
                assert(all[k] == before[k]);
            } else {
                assert(all[k] == one[0]);
                assert(seq![one[0]] =~= one);
            }
        }
    }
}

/// Every function and struct of a Rust tree that has a name, every implementation by
/// the type that it is about, and every `use` is found once, at whatever depth it
/// stands, with its text and its line; nothing else is. `at` says which node each symbol
/// is, in the order of the nodes.
pub proof fn law_rust_symbols(nodes: Seq<SyntaxView>, bytes: Seq<u8>) -> (at: Seq<int>)
    ensures
        ({
            let r = rust_symbols(nodes, bytes, nodes.len());
            &&& at.len() == r.len()
            &&& forall|k: int, l: int|
                0 <= k < l < at.len() ==> #[trigger] at[k] < #[trigger] at[l]
            &&& forall|i: int|
                0 <= i < nodes.len() && ((#[trigger] nodes[i]).node.kind == "function_item"@
                    || nodes[i].node.kind == "struct_item"@) && nodes[i].name is Some
                    ==> at.contains(i)
            &&& forall|i: int|
                0 <= i < nodes.len() && (#[trigger] nodes[i]).node.kind == "impl_item"@
                    && nodes[i].subject is Some ==> at.contains(i)
            &&& forall|i: int|
                0 <= i < nodes.len() && (#[trigger] nodes[i]).node.kind == "use_declaration"@
                    ==> at.contains(i)
            &&& forall|k: int|
                0 <= k < at.len() ==> {
                    let v = nodes[#[trigger] at[k]];
                    let line = (v.node.row + 1) as u32;
                    &&& 0 <= at[k] < nodes.len()
                    &&& {
                        ||| v.node.kind == "function_item"@ && v.name is Some && r[k] == (
                            text_at(bytes, v.name->0),
                            SymbolKind::Function,
                            line,
                        )
                        ||| v.node.kind == "struct_item"@ && v.name is Some && r[k] == (
                            text_at(bytes, v.name->0),
                            SymbolKind::Struct,
                            line,
                        )
                        ||| v.node.kind == "impl_item"@ && v.subject is Some && r[k] == (
                            text_at(bytes, v.subject->0),
                            SymbolKind::Impl,
                            line,
                        )
                        ||| v.node.kind == "use_declaration"@ && r[k].1 == SymbolKind::Import
                            && r[k].2 == line && forall|path: Seq<char>|
                            text_at(bytes, (v.node.start, v.node.end)) == #[trigger] ("use "@ + path + ";"@)
                                && !"use "@.is_prefix_of(path) && !(path.len() > 0 && path.last()
                                == ';') ==> r[k].0 == path
                    }
                }
        }),
{
    let at = positions(nodes, rust_nodes(), nodes.len());
    let r = rust_symbols(nodes, bytes, nodes.len());
    lemma_positions(nodes, rust_nodes(), nodes.len());
    lemma_rust_at(nodes, bytes, nodes.len());
    lemma_kinds_differ();
    assert forall|k: int| 0 <= k < at.len() implies {
        let v = nodes[#[trigger] at[k]];
        let line = (v.node.row + 1) as u32;
        &&& 0 <= at[k] < nodes.len()
        &&& {
            ||| v.node.kind == "function_item"@ && v.name is Some && r[k] == (
                text_at(bytes, v.name->0),
                SymbolKind::Function,
                line,
            )
            ||| v.node.kind == "struct_item"@ && v.name is Some && r[k] == (
                text_at(bytes, v.name->0),
                SymbolKind::Struct,
                line,
            )
            ||| v.node.kind == "impl_item"@ && v.subject is Some && r[k] == (
                text_at(bytes, v.subject->0),
                SymbolKind::Impl,
                line,
            )
            ||| v.node.kind == "use_declaration"@ && r[k].1 == SymbolKind::Import && r[k].2 == line
                && forall|path: Seq<char>|
                text_at(bytes, (v.node.start, v.node.end)) == #[trigger] ("use "@ + path + ";"@)
                    && !"use "@.is_prefix_of(path) && !(path.len() > 0 && path.last() == ';')
                    ==> r[k].0 == path
        }
    } by {
        let v = nodes[at[k]];
        let one = rust_symbol(v, bytes);
        assert(seq![r[k]] == one);
        assert(seq![r[k]][0] == r[k]);
        if v.node.kind == "use_declaration"@ {
            assert forall|path: Seq<char>|
                text_at(bytes, (v.node.start, v.node.end)) == #[trigger] ("use "@ + path + ";"@)
                    && !"use "@.is_prefix_of(path) && !(path.len() > 0 && path.last()
                    == ';') implies r[k].0 == path by {
                lemma_use_path(path);
            }
        }
    }
    at
}

proof fn lemma_use_path(path: Seq<char>)
    requires
        !"use "@.is_prefix_of(path),
        !(path.len() > 0 && path.last() == ';'),
    ensures
        strip_prefixes(trim_end("use "@ + path + ";"@, among(";"@)), "use "@) == path,
{
    reveal_strlit("use ");
    reveal_strlit(";");
    let semi = among(";"@);
    assert(";"@[0] == ';');
    let bare = "use "@ + path;
    let s = bare + ";"@;
    assert(s.last() == ';');
    assert(";"@.contains(';'));
    assert(s.drop_last() =~= bare);
    assert(bare.last() != ';') by {
        if path.len() == 0 {
            assert(bare =~= "use "@);
        } else {
            assert(bare.last() == path.last());
        }
    }
    assert(!semi(bare.last()));
    assert(trim_end(bare, semi) == bare);
    assert(trim_end(s, semi) == bare);
    assert("use "@ =~= bare.subrange(0, 4));
    assert("use "@.is_prefix_of(bare));
    assert(bare.skip(4) =~= path);
    assert(strip_prefixes(path, "use "@) == path);
}

/// Where the symbols of the types stand that the children of the `i`th node declare, as
/// far as these stand at or behind `j`.
spec fn type_places(nodes: Seq<SyntaxView>, i: int, j: int) -> Seq<(int, int)>
    decreases nodes.len() - j,
{
    if j >= nodes.len() || nodes[j].node.depth <= nodes[i].node.depth {
        Seq::empty()
    } else {
        let rest = type_places(nodes, i, j + 1);
        if nodes[j].node.depth == nodes[i].node.depth + 1 && nodes[j].node.kind == "type_spec"@
            && nodes[j].name is Some {
            seq![(i, j)] + rest
        } else {
            rest
        }
    }
}

/// Where the symbols of the first `n` nodes of a Go tree stand: the node, and for a type
/// the node that declares it.
spec fn go_places(nodes: Seq<SyntaxView>, n: nat) -> Seq<(int, int)>
    decreases n,
{
    if n == 0 {
        Seq::empty()
    } else {
        let i = n - 1;
        let kind = nodes[i].node.kind;
        let before = go_places(nodes, (n - 1) as nat);
        if (kind == "function_declaration"@ || kind == "method_declaration"@) && nodes[i].name is Some
            || kind == "import_declaration"@ {
            before.push((i, i))
        } else if kind == "type_declaration"@ {
            before + type_places(nodes, i, i + 1)
        } else {
            before
        }
    }
}

/// Whether the `j`th node is a child of the `i`th.
pub open spec fn is_child(nodes: Seq<SyntaxView>, i: int, j: int) -> bool {
    &&& i < j < nodes.len()
    &&& nodes[j].node.depth == nodes[i].node.depth + 1
    &&& forall|m: int| i < m < j ==> (#[trigger] nodes[m]).node.depth > nodes[i].node.depth
}

/// Whether a symbol of a Go tree is what stands at a place.
spec fn go_fits(
    nodes: Seq<SyntaxView>,
    bytes: Seq<u8>,
    place: (int, int),
    sym: (Seq<char>, SymbolKind, u32),
) -> bool {
    let (i, j) = place;
    let v = nodes[i];
    let line = (v.node.row + 1) as u32;
    &&& 0 <= i <= j < nodes.len()
    &&& {
        ||| i == j && (v.node.kind == "function_declaration"@ || v.node.kind
            == "method_declaration"@) && v.name is Some && sym == (
            text_at(bytes, v.name->0),
            SymbolKind::Function,
            line,
        )
        ||| i == j && v.node.kind == "import_declaration"@ && sym == (
            text_at(bytes, (v.node.start, v.node.end)),
            SymbolKind::Import,
            line,
        )
        ||| i < j && v.node.kind == "type_declaration"@ && is_child(nodes, i, j)
            && nodes[j].node.kind == "type_spec"@ && nodes[j].name is Some && sym == (
            text_at(bytes, nodes[j].name->0),
            SymbolKind::Struct,
            line,
        )
    }
}

proof fn lemma_type_places(nodes: Seq<SyntaxView>, bytes: Seq<u8>, i: int, j: int)
    requires
        0 <= i < j <= nodes.len(),
        nodes[i].node.kind == "type_declaration"@,
        forall|m: int| i < m < j ==> (#[trigger] nodes[m]).node.depth > nodes[i].node.depth,
    ensures
        declared_types(nodes, bytes, i, j).len() == type_places(nodes, i, j).len(),
        forall|k: int|
            0 <= k < type_places(nodes, i, j).len() ==> (#[trigger] type_places(
                nodes,
                i,
                j,
            )[k]).0 == i && j <= type_places(nodes, i, j)[k].1 && go_fits(
                nodes,
                bytes,
                type_places(nodes, i, j)[k],
                declared_types(nodes, bytes, i, j)[k],
            ),
        forall|k: int, l: int|
            0 <= k < l < type_places(nodes, i, j).len() ==> (#[trigger] type_places(
                nodes,
                i,
                j,
            )[k]).1 < (#[trigger] type_places(nodes, i, j)[l]).1,
        forall|m: int|
            j <= m && #[trigger] is_child(nodes, i, m) && nodes[m].node.kind == "type_spec"@
                && nodes[m].name is Some ==> type_places(nodes, i, j).contains((i, m)),
    decreases nodes.len() - j,
{
    let places = type_places(nodes, i, j);
    let found = declared_types(nodes, bytes, i, j);
    if j >= nodes.len() || nodes[j].node.depth <= nodes[i].node.depth {
        assert forall|m: int|
            j <= m && #[trigger] is_child(nodes, i, m) && nodes[m].node.kind == "type_spec"@
                && nodes[m].name is Some implies places.contains((i, m)) by {
            assert(nodes[j].node.depth > nodes[i].node.depth);
        }
    } else {
        lemma_type_places(nodes, bytes, i, j + 1);
        let rest_places = type_places(nodes, i, j + 1);
        let rest = declared_types(nodes, bytes, i, j + 1);
        let hit = nodes[j].node.depth == nodes[i].node.depth + 1 && nodes[j].node.kind
            == "type_spec"@ && nodes[j].name is Some;
        if hit {
            let one = symbol_at(bytes, nodes[j].name, SymbolKind::Struct, line_of(nodes[i]));
            assert(places == seq![(i, j)] + rest_places);
            assert(found == one + rest);
            assert(is_child(nodes, i, j));
            assert forall|k: int| 0 <= k < places.len() implies (#[trigger] places[k]).0 == i && j
                <= places[k].1 && go_fits(nodes, bytes, places[k], found[k]) by {
                if k > 0 {
                    assert(places[k] == rest_places[k - 1]);
                    assert(found[k] == rest[k - 1]);
                } else {
                    assert(found[0] == one[0]);
                }
            }
            assert forall|k: int, l: int| 0 <= k < l < places.len() implies (
            #[trigger] places[k]).1 < (#[trigger] places[l]).1 by {
                assert(places[l] == rest_places[l - 1]);
                if k > 0 {
                    assert(places[k] == rest_places[k - 1]);
                }
            }
        } else {
            assert(places == rest_places);
            if nodes[j].node.depth == nodes[i].node.depth + 1 && nodes[j].node.kind
                == "type_spec"@ {
                assert(found =~= rest);
            }
        }
        assert forall|m: int|
            j <= m && #[trigger] is_child(nodes, i, m) && nodes[m].node.kind == "type_spec"@
                && nodes[m].name is Some implies places.contains((i, m)) by {
            if m == j {
                assert(places[0] == (i, j));
            } else {
                let k = choose|k: int| 0 <= k < rest_places.len() && rest_places[k] == (i, m);
                if hit {
                    assert(places[k + 1] == (i, m));
                }
            }
        }
    }
}

proof fn lemma_go_places(nodes: Seq<SyntaxView>, bytes: Seq<u8>, n: nat)
    requires
        n <= nodes.len(),
    ensures
        go_symbols(nodes, bytes, n).len() == go_places(nodes, n).len(),
        forall|k: int|
            0 <= k < go_places(nodes, n).len() ==> (#[trigger] go_places(nodes, n)[k]).0 < n
                && go_fits(
                nodes,
                bytes,
                go_places(nodes, n)[k],
                go_symbols(nodes, bytes, n)[k],
            ),
        forall|k: int, l: int|
            #![trigger go_places(nodes, n)[k], go_places(nodes, n)[l]]
            0 <= k < l < go_places(nodes, n).len() ==> {
                ||| go_places(nodes, n)[k].0 < go_places(nodes, n)[l].0
                ||| go_places(nodes, n)[k].0 == go_places(nodes, n)[l].0 && go_places(
                    nodes,
                    n,
                )[k].1 < go_places(nodes, n)[l].1
            },
        forall|i: int|
            0 <= i < n && (((#[trigger] nodes[i]).node.kind == "function_declaration"@
                || nodes[i].node.kind == "method_declaration"@) && nodes[i].name is Some
                || nodes[i].node.kind == "import_declaration"@) ==> go_places(nodes, n).contains(
                (i, i),
            ),
        forall|i: int, j: int|
            0 <= i < n && nodes[i].node.kind == "type_declaration"@ && #[trigger] is_child(
                nodes,
                i,
                j,
            ) && nodes[j].node.kind == "type_spec"@ && nodes[j].name is Some ==> go_places(
                nodes,
                n,
            ).contains((i, j)),
    decreases n,
{
    if n > 0 {
        lemma_go_places(nodes, bytes, (n - 1) as nat);
        lemma_kinds_differ();
        let i = n - 1;
        let kind = nodes[i].node.kind;
        let before = go_places(nodes, (n - 1) as nat);
        let all = go_places(nodes, n);
        let found_before = go_symbols(nodes, bytes, (n - 1) as nat);
        let one = go_symbol(nodes, bytes, i);
        let found = go_symbols(nodes, bytes, n);
        assert(found == found_before + one);
        let more = if (kind == "function_declaration"@ || kind == "method_declaration"@)
            && nodes[i].name is Some || kind == "import_declaration"@ {
            seq![(i, i)]
        } else if kind == "type_declaration"@ {
            type_places(nodes, i, i + 1)
        } else {
            Seq::empty()
        };
        if kind == "type_declaration"@ {
            lemma_type_places(nodes, bytes, i, i + 1);
        }
        assert(all =~= before + more);
        assert(one.len() == more.len());
        assert forall|k: int| 0 <= k < more.len() implies (#[trigger] more[k]).0 == i && go_fits(
            nodes,
            bytes,
            more[k],
            one[k],
        ) by {}
        assert forall|k: int| 0 <= k < all.len() implies (#[trigger] all[k]).0 < n && go_fits(
            nodes,
            bytes,
            all[k],
            found[k],
        ) by {
            if k < before.len() {
                assert(all[k] == before[k] && found[k] == found_before[k]);
            } else {
                assert(all[k] == more[k - before.len()]);
                assert(found[k] == one[k - before.len()]);
            }
        }
        assert forall|k: int, l: int|
            #![trigger all[k], all[l]]
            0 <= k < l < all.len() implies {
            ||| all[k].0 < all[l].0
            ||| all[k].0 == all[l].0 && all[k].1 < all[l].1
        } by {
            if l < before.len() {
                assert(all[k] == before[k] && all[l] == before[l]);
            } else {
                assert(all[l] == more[l - before.len()]);
                if k < before.len() {
                    assert(all[k] == before[k]);
                } else {
                    assert(all[k] == more[k - before.len()]);
                }
            }
        }
        assert forall|m: int|
            0 <= m < n && (((#[trigger] nodes[m]).node.kind == "function_declaration"@
                || nodes[m].node.kind == "method_declaration"@) && nodes[m].name is Some
                || nodes[m].node.kind == "import_declaration"@) implies all.contains((m, m)) by {
            if m == i {
                assert(all[before.len() as int] == (i, i));
            } else {
                let k = choose|k: int| 0 <= k < before.len() && before[k] == (m, m);
                assert(all[k] == (m, m));
            }
        }
        assert forall|m: int, j: int|
            0 <= m < n && nodes[m].node.kind == "type_declaration"@ && #[trigger] is_child(
                nodes,
                m,
                j,
            ) && nodes[j].node.kind == "type_spec"@
                && nodes[j].name is Some implies all.contains((m, j)) by {
            if m == i {
                let k = choose|k: int| 0 <= k < more.len() && more[k] == (i, j);
                assert(all[before.len() + k] == (i, j));
            } else {
                let k = choose|k: int| 0 <= k < before.len() && before[k] == (m, j);
                assert(all[k] == (m, j));
            }
        }
    }
}

/// Every function, method and type of a Go tree that has a name, and every import, is
/// found once, with its text and its line, that of a type being the line of its
/// declaration; nothing else is. `at` says where each symbol stands, in the order of the
/// nodes: its node twice, or the declaration and the node of the type.
pub proof fn law_go_symbols(nodes: Seq<SyntaxView>, bytes: Seq<u8>) -> (at: Seq<(int, int)>)
    ensures
        ({
            let r = go_symbols(nodes, bytes, nodes.len());
            &&& at.len() == r.len()
            &&& forall|k: int, l: int|
                #![trigger at[k], at[l]]
                0 <= k < l < at.len() ==> at[k].0 < at[l].0 || (at[k].0 == at[l].0 && at[k].1
                    < at[l].1)
            &&& forall|i: int|
                0 <= i < nodes.len() && (((#[trigger] nodes[i]).node.kind
                    == "function_declaration"@ || nodes[i].node.kind == "method_declaration"@)
                    && nodes[i].name is Some || nodes[i].node.kind == "import_declaration"@)
                    ==> at.contains((i, i))
            &&& forall|i: int, j: int|
                0 <= i < nodes.len() && nodes[i].node.kind == "type_declaration"@
                    && #[trigger] is_child(nodes, i, j) && nodes[j].node.kind == "type_spec"@
                    && nodes[j].name is Some ==> at.contains((i, j))
            &&& forall|k: int|
                0 <= k < at.len() ==> {
                    let (i, j) = #[trigger] at[k];
                    let v = nodes[i];
                    let line = (v.node.row + 1) as u32;
                    &&& 0 <= i <= j < nodes.len()
                    &&& {
                        ||| i == j && (v.node.kind == "function_declaration"@ || v.node.kind
                            == "method_declaration"@) && v.name is Some && r[k] == (
                            text_at(bytes, v.name->0),
                            SymbolKind::Function,
                            line,
                        )
                        ||| i == j && v.node.kind == "import_declaration"@ && r[k] == (
                            text_at(bytes, (v.node.start, v.node.end)),
                            SymbolKind::Import,
                            line,
                        )
                        ||| i < j && v.node.kind == "type_declaration"@ && is_child(nodes, i, j)
                            && nodes[j].node.kind == "type_spec"@ && nodes[j].name is Some && r[k]
                            == (text_at(bytes, nodes[j].name->0), SymbolKind::Struct, line)
                    }
                }
        }),
{
    lemma_go_places(nodes, bytes, nodes.len());
    let at = go_places(nodes, nodes.len());
    let r = go_symbols(nodes, bytes, nodes.len());
    assert forall|k: int| 0 <= k < at.len() implies go_fits(nodes, bytes, #[trigger] at[k], r[k]) by {}
    at
}

/// The text of the bytes between two places of a source is what stands between them.
pub proof fn law_text_between(a: Seq<char>, m: Seq<char>, b: Seq<char>, start: usize, end: usize)
    requires
        start == encode_utf8(a).len(),
        end == start + encode_utf8(m).len(),
    ensures
        text_at(encode_utf8(a + m + b), (start, end)) == m,
{
    lemma_encode_concat(a + m, b);
    lemma_encode_concat(a, m);
    let part = encode_utf8(a + m + b).subrange(start as int, end as int);
    assert(part =~= encode_utf8(m));
    encode_utf8_valid_utf8(m);
    encode_utf8_decode_utf8(m);
}

/// The import of a Rust `use` is its text without semicolons at the end and without `use `
/// at the start; what else stands before it, such as `pub `, is kept.
pub proof fn law_use_declaration(v: SyntaxView, bytes: Seq<u8>, path: Seq<char>)
    requires
        v.node.kind == "use_declaration"@,
        !"use "@.is_prefix_of(path),
        !(path.len() > 0 && path.last() == ';'),
        ({
            let text = text_at(bytes, (v.node.start, v.node.end));
            text == path || text == path + ";"@ || text == "use "@ + path + ";"@
        }),
    ensures
        rust_symbol(v, bytes) == seq![(path, SymbolKind::Import, (v.node.row + 1) as u32)],
{
    lemma_kinds_differ();
    lemma_use_path(path);
    reveal_strlit(";");
    let semi = among(";"@);
    assert(";"@[0] == ';');
    assert(";"@ =~= seq![';']);
    law_trim_ends(";"@, path, semi);
    law_trim_ends(Seq::empty(), path, semi);
    assert(path + Seq::<char>::empty() =~= path);
    assert(strip_prefixes(path, "use "@) == path);
}

/// What the extraction of symbols gives. A source of an unknown language has none. One
/// that is longer than four gigabytes, that has no grammar or that cannot be parsed is
/// refused, as is a tree whose nodes do not lie in the source. Else each language has its
/// own symbols.
pub proof fn law_extracted(
    path: Seq<char>,
    source: Seq<char>,
    nodes: Seq<SyntaxView>,
    parsed: Parsed,
)
    ensures
        extracted(path, source, Language::Unknown, parsed) == Ok::<
            Seq<(Seq<char>, SymbolKind, u32)>,
            ExtractFailure,
        >(Seq::empty()),
        encode_utf8(source).len() > 0xffff_ffff ==> forall|lang: Language|
            lang != Language::Unknown ==> #[trigger] extracted(path, source, lang, parsed) == Err::<
                Seq<(Seq<char>, SymbolKind, u32)>,
                ExtractFailure,
            >(ExtractFailure::TooLong),
        encode_utf8(source).len() <= 0xffff_ffff ==> {
            let n = encode_utf8(source).len();
            let bytes = encode_utf8(source);
            &&& forall|lang: Language|
                lang != Language::Unknown ==> #[trigger] extracted(path, source, lang, None)
                    == Err::<Seq<(Seq<char>, SymbolKind, u32)>, ExtractFailure>(
                    ExtractFailure::Grammar(path),
                )
            &&& forall|lang: Language|
                lang != Language::Unknown ==> #[trigger] extracted(path, source, lang, Some(None))
                    == Err::<Seq<(Seq<char>, SymbolKind, u32)>, ExtractFailure>(
                    ExtractFailure::Parse,
                )
            &&& if forall|i: int|
                0 <= i < nodes.len() ==> {
                    let v = #[trigger] nodes[i];
                    &&& v.node.row < 0xffff_ffff
                    &&& v.node.start <= v.node.end <= n
                    &&& (v.name matches Some(range) ==> range.0 <= range.1 <= n)
                    &&& (v.subject matches Some(range) ==> range.0 <= range.1 <= n)
                } {
                &&& extracted(path, source, Language::Rust, Some(Some(nodes))) == Ok::<
                    Seq<(Seq<char>, SymbolKind, u32)>,
                    ExtractFailure,
                >(rust_symbols(nodes, bytes, nodes.len()))
                &&& extracted(path, source, Language::Python, Some(Some(nodes))) == Ok::<
                    Seq<(Seq<char>, SymbolKind, u32)>,
                    ExtractFailure,
                >(python_symbols(nodes, bytes, nodes.len()))
                &&& extracted(path, source, Language::Go, Some(Some(nodes))) == Ok::<
                    Seq<(Seq<char>, SymbolKind, u32)>,
                    ExtractFailure,
                >(go_symbols(nodes, bytes, nodes.len()))
            } else {
                forall|lang: Language|
                    lang != Language::Unknown ==> #[trigger] extracted(
                        path,
                        source,
                        lang,
                        Some(Some(nodes)),
                    ) == Err::<Seq<(Seq<char>, SymbolKind, u32)>, ExtractFailure>(
                        ExtractFailure::Position,
                    )
            }
        },
{
    let n = encode_utf8(source).len();
    assert forall|i: int| 0 <= i < nodes.len() implies (node_lies_in(#[trigger] nodes[i], n) <==> {
        let v = nodes[i];
        &&& v.node.row < 0xffff_ffff
        &&& v.node.start <= v.node.end <= n
        &&& (v.name matches Some(range) ==> range.0 <= range.1 <= n)
        &&& (v.subject matches Some(range) ==> range.0 <= range.1 <= n)
    }) by {}
    if !all_lie_in(nodes, n) {
        let i = choose|i: int| 0 <= i < nodes.len() && !node_lies_in(#[trigger] nodes[i], n);
        assert(!node_lies_in(nodes[i], n));
    }
}

/// The nodes of a tree are read in their order, each with what stands in its fields `name`
/// and `type`.
pub proof fn law_nodes_with_fields(tree: tree_sitter::Tree, i: int)
    requires
        0 <= i < tree_nodes(tree).len(),
    ensures
        syntax(tree).len() == tree_nodes(tree).len(),
        syntax(tree)[i].node == tree_nodes(tree)[i],
        syntax(tree)[i].name == field_range(tree, i, "name"@),
        syntax(tree)[i].subject == field_range(tree, i, "type"@),
{
}

/// Each language is parsed with its own grammar, and an unknown one with none.
pub proof fn law_grammars(source: Seq<char>, parsed: Parsed)
    ensures
        parses_to(Language::Python, source, parsed) <==> parsed == python_syntax(source),
        parses_to(Language::Go, source, parsed) <==> parsed == go_syntax(source),
        is_ascii_chars(source) ==> (parses_to(Language::Rust, source, parsed) <==> parsed
            == rust_syntax(source)),
        parses_to(Language::Unknown, source, parsed) <==> parsed is None,
{
}

/// Bytes that are no text give the empty one.
pub proof fn law_no_text(bytes: Seq<u8>, range: (usize, usize))
    requires
        !valid_utf8(bytes.subrange(range.0 as int, range.1 as int)),
    ensures
        text_at(bytes, range).len() == 0,
{
    reveal_strlit("");
}

} // verus!
