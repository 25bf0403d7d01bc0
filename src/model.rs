//! The records that a scan produces.
use vstd::prelude::*;

verus! {

/// An import, require or export-from specifier, as written in its source file.
#[derive(Clone, Debug)]
pub struct DetectedConnection {
    pub source_file: String,
    pub imported_string: String,
}

/// A detected specifier together with the project file it resolves to, if any.
#[derive(Clone, Debug)]
pub struct ResolvedConnection {
    pub source_file: String,
    pub imported_string: String,
    pub resolved_target: Option<String>,
}

/// A top-level symbol definition: its name, its kind (`Function`, `Class` or
/// `Variable`) and the 1-based line where the defining construct starts.
#[derive(Clone, Debug)]
pub struct DetectedDefinition {
    pub source_file: String,
    pub symbol_name: String,
    pub kind: String,
    pub line_number: usize,
}

/// The view of a definition: source file, symbol, kind and line.
pub open spec fn definition_view(d: DetectedDefinition) -> (Seq<char>, Seq<char>, Seq<char>, usize) {
    (d.source_file@, d.symbol_name@, d.kind@, d.line_number)
}

} // verus!
