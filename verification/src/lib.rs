//! Text substitution inside a document's per-page rendering instructions.
//!
//! The library locates literal text runs in a page's content stream and
//! substitutes replacement text while respecting each font's byte encoding:
//! fonts are classified by encoding name, Unicode maps are built from their
//! embedded mapping streams, a per-font codec turns glyph bytes into text and
//! back, and an operator-level walk finds, replaces, and re-serializes the
//! text shown by `Tj` and `TJ`. The document object graph, file load and
//! save, argument handling, and rule-list deserialization are the
//! collaborator libraries' and the calling program's work.

use vstd::prelude::*;

mod cmap;
mod content;
mod doc;
mod encoding;
mod mapper;
mod rules;

pub use cmap::{lemma_composite_round_trip, transform_unicode_map, CMapData};
pub use content::{
    lemma_clean_page_not_modified, lemma_tj_preserved_when_unmodified, rewrite_operations, Operand,
    Operation, TextKind, WalkError,
};
pub use doc::{extract_page_cmaps, replace_text, ReplaceError};
pub use encoding::valid_encoding;
pub use mapper::{Font, UnicodeMapper};
pub use rules::{apply_rules, lemma_rules_noop_on_clean_text, replace_chars, ReplaceMap};

verus! {

/// One run's inputs: where the rule list comes from (a path, or standard
/// input when absent), the document read, and where the result goes (a path,
/// or standard output when absent).
pub struct Options {
    /// Rule-list file path; read standard input to end-of-input when absent.
    pub json: Option<String>,
    /// Source document path.
    pub input: String,
    /// Output document path; write to standard output when absent.
    pub output: Option<String>,
}

} // verus!
