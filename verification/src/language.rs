//! The languages of source files, and the symbols that are found in them.
use vstd::prelude::*;

use crate::path::{components, extension, extension_of, law_file_name, law_file_name_is_last};
use crate::text::same;

verus! {

/// The language of a source file.
#[derive(Debug, Clone, Copy, PartialEq, Eq, Structural)]
pub enum Language {
    Rust,
    Python,
    Go,
    Unknown,
}

/// The language of the files with a path.
pub open spec fn language_of(path: Seq<char>) -> Language {
    match extension(path) {
        Some(ext) => if ext == "rs"@ {
            Language::Rust
        } else if ext == "py"@ {
            Language::Python
        } else if ext == "go"@ {
            Language::Go
        } else {
            Language::Unknown
        },
        None => Language::Unknown,
    }
}

impl Language {
    /// The name of the language.
    pub open spec fn name(self) -> Seq<char> {
        match self {
            Language::Rust => "rust"@,
            Language::Python => "python"@,
            Language::Go => "go"@,
            Language::Unknown => "unknown"@,
        }
    }

    /// The language that the extension of a path stands for.
    pub fn from_path(path: &str) -> (r: Language)
        ensures
            r == language_of(path@),
    {
        match extension_of(path) {
            Some(ext) => {
                if same(ext.as_str(), "rs") {
                    Language::Rust
                } else if same(ext.as_str(), "py") {
                    Language::Python
                } else if same(ext.as_str(), "go") {
                    Language::Go
                } else {
                    Language::Unknown
                }
            },
            None => Language::Unknown,
        }
    }

    /// The name of the language.
    pub fn as_str(self) -> (r: &'static str)
        ensures
            r@ == self.name(),
    {
        match self {
            Language::Rust => "rust",
            Language::Python => "python",
            Language::Go => "go",
            Language::Unknown => "unknown",
        }
    }
}

/// What a symbol is.
#[derive(Debug, Clone, Copy, PartialEq, Eq, Structural)]
pub enum SymbolKind {
    Function,
    Struct,
    Class,
    Impl,
    Import,
}

impl SymbolKind {
    /// The name of the kind.
    pub open spec fn name(self) -> Seq<char> {
        match self {
            SymbolKind::Function => "function"@,
            SymbolKind::Struct => "struct"@,
            SymbolKind::Class => "class"@,
            SymbolKind::Impl => "impl"@,
            SymbolKind::Import => "import"@,
        }
    }

    /// The name of the kind.
    pub fn as_str(&self) -> (r: &'static str)
        ensures
            r@ == self.name(),
    {
        match self {
            SymbolKind::Function => "function",
            SymbolKind::Struct => "struct",
            SymbolKind::Class => "class",
            SymbolKind::Impl => "impl",
            SymbolKind::Import => "import",
        }
    }
}

/// A symbol of a source file.
#[derive(Debug, Clone)]
pub struct Symbol {
    /// The file that holds it.
    pub file_id: i64,
    pub name: String,
    pub kind: SymbolKind,
    /// The line on which it begins, counted from one.
    pub line: u32,
    /// The lines around it.
    pub snippet: String,
}

/// A symbol, with texts for its strings.
#[verifier::ext_equal]
pub struct SymbolView {
    pub file_id: i64,
    pub name: Seq<char>,
    pub kind: SymbolKind,
    pub line: u32,
    pub snippet: Seq<char>,
}

impl View for Symbol {
    type V = SymbolView;

    open spec fn view(&self) -> SymbolView {
        SymbolView {
            file_id: self.file_id,
            name: self.name@,
            kind: self.kind,
            line: self.line,
            snippet: self.snippet@,
        }
    }
}

// ---------------------------------------------------------------------------
// Laws

/// The language of a file follows from what stands behind the last dot of its name.
pub proof fn law_language_by_extension(dir: Seq<char>, stem: Seq<char>, ext: Seq<char>)
    requires
        stem.len() > 0,
        !stem.contains('/'),
        !ext.contains('/'),
        !ext.contains('.'),
        ext.len() > 0,
    ensures
        ({
            let lang = language_of(stem + "."@ + ext);
            &&& ext == "rs"@ ==> lang == Language::Rust
            &&& ext == "py"@ ==> lang == Language::Python
            &&& ext == "go"@ ==> lang == Language::Go
            &&& ext != "rs"@ && ext != "py"@ && ext != "go"@ ==> lang == Language::Unknown
        }),
        dir.len() > 0 ==> language_of(dir + "/"@ + (stem + "."@ + ext)) == language_of(
            stem + "."@ + ext,
        ),
{
    reveal_strlit(".");
    reveal_strlit("..");
    reveal_strlit("rs");
    reveal_strlit("py");
    reveal_strlit("go");
    assert("rs"@[0] == 'r' && "py"@[0] == 'p' && "go"@[0] == 'g');
    let name = stem + "."@ + ext;
    assert(name.len() == stem.len() + 1 + ext.len());
    assert("."@.len() == 1 && ".."@.len() == 2);
    if name.contains('/') {
        let k = choose|k: int| 0 <= k < name.len() && name[k] == '/';
        if k < stem.len() {
            assert(stem[k] == '/');
        } else if k > stem.len() {
            assert(ext[k - stem.len() - 1] == '/');
        }
    }
    law_file_name(dir, name, stem, ext);
}

/// A file whose name holds no dot behind its first character is in no known language.
pub proof fn law_language_without_extension(name: Seq<char>)
    requires
        name.len() > 0,
        !name.contains('/'),
        name != "."@,
        name != ".."@,
        !name.drop_first().contains('.'),
    ensures
        language_of(name) == Language::Unknown,
{
    law_file_name(Seq::empty(), name, Seq::empty(), Seq::empty());
}

/// The names under which the index holds languages and kinds of symbols.
pub proof fn law_names()
    ensures
        Language::Rust.name() == "rust"@,
        Language::Python.name() == "python"@,
        Language::Go.name() == "go"@,
        Language::Unknown.name() == "unknown"@,
        SymbolKind::Function.name() == "function"@,
        SymbolKind::Struct.name() == "struct"@,
        SymbolKind::Class.name() == "class"@,
        SymbolKind::Impl.name() == "impl"@,
        SymbolKind::Import.name() == "import"@,
{
}

/// The language of a path is that of its last component.
pub proof fn law_language_of_path(path: Seq<char>)
    ensures
        components(path).len() > 0 && components(path).last() != "/"@ && components(path).last()
            != "."@ && components(path).last() != ".."@ ==> language_of(path) == language_of(
            components(path).last(),
        ),
        components(path).len() == 0 || components(path).last() == "/"@ || components(path).last()
            == "."@ || components(path).last() == ".."@ ==> language_of(path) == Language::Unknown,
{
    law_file_name_is_last(path);
}

} // verus!
