//! Selects the files of a Git repository that bear on a task and packs them
//! into a context bundle that fits a token budget.
pub mod budget;
pub mod bundle_writer;
pub mod dep_builder;
pub mod dep_graph;
pub mod embed;
pub mod embed_run;
pub mod git;
pub mod import_laws;
pub mod incremental;
pub mod index_builder;
pub mod index_run;
pub mod language;
pub mod path;
pub mod rank;
pub mod score;
pub mod search_index;
pub mod select;
pub mod symbols;
pub mod text;
pub mod timestamp;
pub mod tokenizer;
pub mod top;
pub mod use_paths;

pub use crate::git::GitRepo;
pub use crate::language::{Language, Symbol, SymbolKind};
pub use crate::symbols::SymbolExtractor;
