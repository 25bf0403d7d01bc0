//! Parsing a source text with a grammar and running a structural query over
//! its syntax tree.
use vstd::prelude::*;
use crate::extract::{matches_view, CaptureHit, CaptureView, Grammar};

verus! {

#[verifier::external_type_specification]
#[verifier::external_body]
pub struct ExLanguage(tree_sitter::Language);

#[verifier::external_type_specification]
#[verifier::external_body]
pub struct ExTree(tree_sitter::Tree);

/// Whether a query pattern does not compile for the grammar (see `run_query`).
pub uninterp spec fn query_rejected(g: Grammar, pattern: Seq<char>) -> bool;

/// The matches of a query pattern over the syntax tree of `text` under the
/// grammar, each as its captures in order (see `run_query`).
pub uninterp spec fn query_hits(g: Grammar, pattern: Seq<char>, text: Seq<char>) -> Seq<Seq<CaptureView>>;

/// A text together with its syntax tree under a grammar. Only `parse_source`
/// makes one, so the tree is always the parse of the text under the grammar.
pub struct ParsedSource {
    grammar: Grammar,
    text: String,
    language: tree_sitter::Language,
    tree: tree_sitter::Tree,
}

impl ParsedSource {
    /// The grammar the text was parsed with.
    pub closed spec fn grammar(&self) -> Grammar {
        self.grammar
    }

    /// The text that was parsed.
    pub closed spec fn text(&self) -> Seq<char> {
        self.text@
    }
}

/// Relies on the grammar crates' `LANGUAGE` constants and on
/// `tree_sitter::Parser` (`new`, `set_language`, `parse`): `set_language`
/// fails only when the grammar's ABI version lies outside 13..=14, and all
/// three grammars are version 14; with a language set and no timeout or
/// cancellation flag, `parse` always yields a tree.
#[verifier::external_body]
pub fn parse_source(g: Grammar, text: &str) -> (r: Option<ParsedSource>)
    ensures
        r is Some,
        r matches Some(p) ==> p.grammar() == g && p.text() == text@,
{
    let language: tree_sitter::Language = match g {
        Grammar::JavaScript => tree_sitter_javascript::LANGUAGE,
        Grammar::TypeScript => tree_sitter_typescript::LANGUAGE_TYPESCRIPT,
        Grammar::Tsx => tree_sitter_typescript::LANGUAGE_TSX,
    }.into();
    let mut parser = tree_sitter::Parser::new();
    parser.set_language(&language).ok()?;
    let tree = parser.parse(text, None)?;
    Some(ParsedSource { grammar: g, text: text.to_string(), language, tree })
}

/// Relies on `tree_sitter::Query::new` and `tree_sitter::QueryCursor::matches`:
/// whether the pattern compiles depends on the grammar and the pattern alone,
/// and the matches over the tree depend on the grammar, the pattern and the
/// parsed text alone. Each match is given as its captures in order (capture
/// name, node text, node start row).
#[verifier::external_body]
pub fn run_query(parsed: &ParsedSource, pattern: &str) -> (r: Option<Vec<Vec<CaptureHit>>>)
    ensures
        r is None <==> query_rejected(parsed.grammar(), pattern@),
        r matches Some(m) ==> matches_view(m@) == query_hits(parsed.grammar(), pattern@, parsed.text()),
{
    let query = tree_sitter::Query::new(&parsed.language, pattern).ok()?;
    let names = query.capture_names();
    let bytes = parsed.text.as_bytes();
    let mut cursor = tree_sitter::QueryCursor::new();
    let found = cursor.matches(&query, parsed.tree.root_node(), bytes);
    Some(found.map(|m| m.captures.iter().map(|c| CaptureHit {
        name: names[c.index as usize].to_string(),
        text: c.node.utf8_text(bytes).ok().map(|t| t.to_string()),
        row: c.node.start_position().row,
    }).collect()).collect())
}

} // verus!
