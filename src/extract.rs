//! Per-file extraction: which grammar a file is parsed with, the structural
//! queries run on it, and how query matches become connections and
//! definitions.
use vstd::prelude::*;
use crate::model::{DetectedConnection, DetectedDefinition};
use crate::paths::{extension_chars, extension_of};
use crate::resolve::opt_view;
use crate::syntax::{parse_source, query_hits, query_rejected, run_query};
use crate::text::{chars_of, str_equals, string_of};

verus! {

/// The structural grammar a source file is parsed with.
#[derive(Clone, Copy, Debug, PartialEq, Eq, Structural)]
pub enum Grammar {
    JavaScript,
    TypeScript,
    Tsx,
}

/// The grammar for a path, by its extension: `js`, `jsx`, `mjs` and `cjs` are
/// JavaScript, `ts` is TypeScript, `tsx` is TSX; anything else has none.
pub open spec fn grammar_of(path: Seq<char>) -> Option<Grammar> {
    match extension_of(path) {
        Some(e) => if e == "js"@ || e == "jsx"@ || e == "mjs"@ || e == "cjs"@ {
            Some(Grammar::JavaScript)
        } else if e == "ts"@ {
            Some(Grammar::TypeScript)
        } else if e == "tsx"@ {
            Some(Grammar::Tsx)
        } else {
            None
        },
        None => None,
    }
}

/// The grammar for a path (see `grammar_of`).
pub fn grammar_for_path(path: &str) -> (r: Option<Grammar>)
    ensures
        r == grammar_of(path@),
{
    match extension_chars(&chars_of(path)) {
        Some(e) => {
            let ext = string_of(&e);
            let ext = ext.as_str();
            if str_equals(ext, "js") || str_equals(ext, "jsx") || str_equals(ext, "mjs")
                || str_equals(ext, "cjs") {
                Some(Grammar::JavaScript)
            } else if str_equals(ext, "ts") {
                Some(Grammar::TypeScript)
            } else if str_equals(ext, "tsx") {
                Some(Grammar::Tsx)
            } else {
                None
            }
        },
        None => None,
    }
}

/// One captured node of a query match: the capture's name, the node's source
/// text (when it lies on character boundaries) and its 0-based start row.
#[derive(Clone, Debug)]
pub struct CaptureHit {
    pub name: String,
    pub text: Option<String>,
    pub row: usize,
}

/// What a capture holds, as plain values.
pub struct CaptureView {
    pub name: Seq<char>,
    pub text: Option<Seq<char>>,
    pub row: usize,
}

pub open spec fn capture_view(c: CaptureHit) -> CaptureView {
    CaptureView { name: c.name@, text: opt_view(c.text), row: c.row }
}

/// The captures of one match, as plain values.
pub open spec fn match_view(m: Vec<CaptureHit>) -> Seq<CaptureView> {
    m@.map_values(|c: CaptureHit| capture_view(c))
}

/// A sequence of matches, as plain values.
pub open spec fn matches_view(ms: Seq<Vec<CaptureHit>>) -> Seq<Seq<CaptureView>> {
    ms.map_values(|m: Vec<CaptureHit>| match_view(m))
}

/// Quote characters stripped from the ends of a specifier.
pub open spec fn is_quote(c: char) -> bool {
    c == '\'' || c == '"' || c == '`'
}

pub open spec fn trim_front_quotes(s: Seq<char>) -> Seq<char>
    decreases s.len(),
{
    if s.len() > 0 && is_quote(s[0]) {
        trim_front_quotes(s.drop_first())
    } else {
        s
    }
}

pub open spec fn trim_back_quotes(s: Seq<char>) -> Seq<char>
    decreases s.len(),
{
    if s.len() > 0 && is_quote(s.last()) {
        trim_back_quotes(s.drop_last())
    } else {
        s
    }
}

/// `s` without the quote characters at either end.
pub open spec fn strip_quotes(s: Seq<char>) -> Seq<char> {
    trim_back_quotes(trim_front_quotes(s))
}

/// `s` without the quote characters at either end (see `strip_quotes`).
pub fn strip_quote_chars(s: &str) -> (r: String)
    ensures
        r@ == strip_quotes(s@),
{
    let cs = chars_of(s);
    let mut from: usize = 0;
    assert(cs@.subrange(0, cs@.len() as int) =~= cs@);
    while from < cs.len() && (cs[from] == '\'' || cs[from] == '"' || cs[from] == '`')
        invariant
            from <= cs@.len(),
            trim_front_quotes(cs@.subrange(from as int, cs@.len() as int)) == trim_front_quotes(s@),
        decreases cs.len() - from,
    {
        assert(cs@.subrange(from as int, cs@.len() as int).drop_first() =~= cs@.subrange(
            from + 1,
            cs@.len() as int,
        ));
        from += 1;
    }
    let ghost front = cs@.subrange(from as int, cs@.len() as int);
    assert(trim_front_quotes(front) == front);
    let mut to: usize = cs.len();
    assert(front.subrange(0, front.len() as int) =~= front);
    while to > from && (cs[to - 1] == '\'' || cs[to - 1] == '"' || cs[to - 1] == '`')
        invariant
            from <= to <= cs@.len(),
            front == cs@.subrange(from as int, cs@.len() as int),
            trim_back_quotes(cs@.subrange(from as int, to as int)) == trim_back_quotes(front),
        decreases to - from,
    {
        assert(cs@.subrange(from as int, to as int).drop_last() =~= cs@.subrange(
            from as int,
            to - 1,
        ));
        to -= 1;
    }
    assert(trim_back_quotes(cs@.subrange(from as int, to as int)) == cs@.subrange(
        from as int,
        to as int,
    ));
    crate::text::string_from_chars(&cs, from, to)
}

/// The first capture of a match named `import_path`.
pub open spec fn import_capture(m: Seq<CaptureView>) -> Option<CaptureView>
    decreases m.len(),
{
    if m.len() == 0 {
        None
    } else if m[0].name == "import_path"@ {
        Some(m[0])
    } else {
        import_capture(m.drop_first())
    }
}

/// The specifier a match contributes: its `import_path` capture's text without
/// quotes, when that is not empty.
pub open spec fn match_specifier(m: Seq<CaptureView>) -> Option<Seq<char>> {
    match import_capture(m) {
        Some(c) => match c.text {
            Some(t) => if strip_quotes(t).len() > 0 {
                Some(strip_quotes(t))
            } else {
                None
            },
            None => None,
        },
        None => None,
    }
}

/// The specifiers that a sequence of import-query matches contributes, in order.
pub open spec fn specifiers_of(ms: Seq<Seq<CaptureView>>) -> Seq<Seq<char>>
    decreases ms.len(),
{
    if ms.len() == 0 {
        Seq::empty()
    } else {
        let prev = specifiers_of(ms.drop_last());
        match match_specifier(ms.last()) {
            Some(s) => prev.push(s),
            None => prev,
        }
    }
}

/// Whether `conns` are exactly the connections of `source` with the given specifiers.
pub open spec fn connections_match(
    conns: Seq<DetectedConnection>,
    source: Seq<char>,
    specs: Seq<Seq<char>>,
) -> bool {
    &&& conns.len() == specs.len()
    &&& forall|i: int|
        0 <= i < conns.len() ==> (#[trigger] conns[i]).source_file@ == source
            && conns[i].imported_string@ == specs[i]
}

fn match_specifier_exec(m: &Vec<CaptureHit>) -> (r: Option<String>)
    ensures
        opt_view(r) == match_specifier(match_view(*m)),
{
    let ghost mv = match_view(*m);
    let mut i: usize = 0;
    assert(mv.subrange(0, mv.len() as int) =~= mv);
    while i < m.len()
        invariant
            i <= m@.len(),
            mv == match_view(*m),
            import_capture(mv) == import_capture(mv.subrange(i as int, mv.len() as int)),
        decreases m.len() - i,
    {
        assert(mv.subrange(i as int, mv.len() as int).drop_first() =~= mv.subrange(
            i + 1,
            mv.len() as int,
        ));
        assert(mv[i as int] == capture_view(m@[i as int]));
        if str_equals(m[i].name.as_str(), "import_path") {
            return match &m[i].text {
                Some(t) => {
                    let s = strip_quote_chars(t.as_str());
                    if s.unicode_len() > 0 {
                        Some(s)
                    } else {
                        None
                    }
                },
                None => None,
            };
        }
        i += 1;
    }
    None
}

/// The connections that import-query matches yield for `source_file`: for
/// each match, its `import_path` capture with the quotes stripped, unless that
/// leaves nothing.
pub fn connections_from_matches(source_file: &str, matches: &Vec<Vec<CaptureHit>>) -> (r: Vec<
    DetectedConnection,
>)
    ensures
        connections_match(r@, source_file@, specifiers_of(matches_view(matches@))),
        forall|i: int| 0 <= i < r@.len() ==> is_clean_specifier((#[trigger] r@[i]).imported_string@),
{
    proof {
        lemma_specifiers_clean(matches_view(matches@));
    }
    let mut out: Vec<DetectedConnection> = Vec::new();
    for i in 0..matches.len()
        invariant
            connections_match(out@, source_file@, specifiers_of(matches_view(matches@).subrange(0, i as int))),
    {
        assert(matches_view(matches@).subrange(0, i + 1).drop_last() =~= matches_view(matches@).subrange(0, i as int));
        assert(matches_view(matches@)[i as int] == match_view(matches@[i as int]));
        if let Some(s) = match_specifier_exec(&matches[i]) {
            out.push(
                DetectedConnection { source_file: String::from_str(source_file), imported_string: s },
            );
        }
    }
    assert(matches_view(matches@).subrange(0, matches@.len() as int) =~= matches_view(matches@));
    out
}

/// A specifier as extracted: not empty, and no quote character at either end.
pub open spec fn is_clean_specifier(s: Seq<char>) -> bool {
    s.len() > 0 && !is_quote(s[0]) && !is_quote(s.last())
}

/// A definition as extracted: a named symbol of one of the three kinds, on a
/// line numbered from 1.
pub open spec fn is_definition_entry(e: (Seq<char>, Seq<char>, usize)) -> bool {
    e.0.len() > 0 && is_definition_kind(e.1) && e.2 >= 1
}

proof fn lemma_trim_front(s: Seq<char>)
    ensures
        trim_front_quotes(s).len() > 0 ==> !is_quote(trim_front_quotes(s)[0]),
    decreases s.len(),
{
    if s.len() > 0 && is_quote(s[0]) {
        lemma_trim_front(s.drop_first());
    }
}

proof fn lemma_trim_back(t: Seq<char>)
    ensures
        trim_back_quotes(t).len() <= t.len(),
        forall|i: int| 0 <= i < trim_back_quotes(t).len() ==> #[trigger] trim_back_quotes(t)[i] == t[i],
        trim_back_quotes(t).len() > 0 ==> !is_quote(trim_back_quotes(t).last()),
    decreases t.len(),
{
    if t.len() > 0 && is_quote(t.last()) {
        lemma_trim_back(t.drop_last());
        let r = trim_back_quotes(t.drop_last());
        assert forall|i: int| 0 <= i < r.len() implies #[trigger] r[i] == t[i] by {
            assert(r[i] == t.drop_last()[i]);
        }
    }
}

proof fn lemma_strip_quotes(s: Seq<char>)
    ensures
        strip_quotes(s).len() > 0 ==> is_clean_specifier(strip_quotes(s)),
{
    let t = trim_front_quotes(s);
    lemma_trim_front(s);
    lemma_trim_back(t);
    let r = trim_back_quotes(t);
    if r.len() > 0 {
        assert(r[0] == t[0]);
    }
}

/// Every specifier that matches yield is a clean one.
pub proof fn lemma_specifiers_clean(ms: Seq<Seq<CaptureView>>)
    ensures
        forall|i: int| 0 <= i < specifiers_of(ms).len() ==> is_clean_specifier(#[trigger] specifiers_of(ms)[i]),
    decreases ms.len(),
{
    if ms.len() > 0 {
        lemma_specifiers_clean(ms.drop_last());
        if let Some(c) = import_capture(ms.last()) {
            if let Some(t) = c.text {
                lemma_strip_quotes(t);
            }
        }
        let prev = specifiers_of(ms.drop_last());
        assert forall|i: int| 0 <= i < specifiers_of(ms).len() implies is_clean_specifier(
            #[trigger] specifiers_of(ms)[i],
        ) by {
            if i < prev.len() {
                assert(specifiers_of(ms)[i] == prev[i]);
            }
        }
    }
}

proof fn lemma_scan_kind(caps: Seq<CaptureView>)
    ensures
        definition_scan(caps).1 matches Some(k) ==> is_definition_kind(k),
    decreases caps.len(),
{
    if caps.len() > 0 {
        lemma_scan_kind(caps.drop_last());
    }
}

/// Every definition that matches yield has a name, one of the three kinds and
/// a line numbered from 1.
pub proof fn lemma_definitions_well_formed(ms: Seq<Seq<CaptureView>>)
    ensures
        forall|i: int| 0 <= i < definitions_of(ms).len() ==> is_definition_entry(#[trigger] definitions_of(ms)[i]),
    decreases ms.len(),
{
    if ms.len() > 0 {
        lemma_definitions_well_formed(ms.drop_last());
        lemma_scan_kind(ms.last());
        let prev = definitions_of(ms.drop_last());
        assert forall|i: int| 0 <= i < definitions_of(ms).len() implies is_definition_entry(
            #[trigger] definitions_of(ms)[i],
        ) by {
            if i < prev.len() {
                assert(definitions_of(ms)[i] == prev[i]);
            }
        }
    }
}

/// The kind that a capture name of the definition query stands for, if any.
pub open spec fn kind_label(capture: Seq<char>) -> Option<Seq<char>> {
    if capture == "def.function"@ || capture == "def.function.lexical"@ || capture
        == "def.function.exported"@ || capture == "def.function.exported.decl"@ {
        Some("Function"@)
    } else if capture == "def.class"@ || capture == "def.class.exported.decl"@ {
        Some("Class"@)
    } else if capture == "def.var.exported.decl"@ || capture == "def.var.exported.decl.var"@
        || capture == "def.var.toplevel"@ {
        Some("Variable"@)
    } else {
        None
    }
}

/// The kinds a definition can have.
pub open spec fn is_definition_kind(k: Seq<char>) -> bool {
    k == "Function"@ || k == "Class"@ || k == "Variable"@
}

/// The kind that a capture name of the definition query stands for, if any.
fn kind_label_exec(capture: &str) -> (r: Option<String>)
    ensures
        opt_view(r) == kind_label(capture@),
{
    if str_equals(capture, "def.function") || str_equals(capture, "def.function.lexical")
        || str_equals(capture, "def.function.exported") || str_equals(
        capture,
        "def.function.exported.decl",
    ) {
        Some(String::from_str("Function"))
    } else if str_equals(capture, "def.class") || str_equals(capture, "def.class.exported.decl") {
        Some(String::from_str("Class"))
    } else if str_equals(capture, "def.var.exported.decl") || str_equals(
        capture,
        "def.var.exported.decl.var",
    ) || str_equals(capture, "def.var.toplevel") {
        Some(String::from_str("Variable"))
    } else {
        None
    }
}

/// Reading a match's captures in order: the last `def.name` text seen, and the
/// kind and start row of the last kind-bearing capture seen.
pub open spec fn definition_scan(caps: Seq<CaptureView>) -> (Option<Seq<char>>, Option<Seq<char>>, Option<usize>)
    decreases caps.len(),
{
    if caps.len() == 0 {
        (None, None, None)
    } else {
        let (name, kind, row) = definition_scan(caps.drop_last());
        let c = caps.last();
        if c.name == "def.name"@ {
            (
                match c.text {
                    Some(t) => Some(t),
                    None => name,
                },
                kind,
                row,
            )
        } else if kind_label(c.name) is Some {
            (name, kind_label(c.name), Some(c.row))
        } else {
            (name, kind, row)
        }
    }
}

/// The definition a match yields: symbol name, kind and 1-based line. The line
/// is that of the kind-bearing capture, or else of the match's first capture.
pub open spec fn match_definition(m: Seq<CaptureView>) -> Option<(Seq<char>, Seq<char>, usize)> {
    let (name, kind, row) = definition_scan(m);
    let line_row = if row is Some {
        row
    } else if m.len() > 0 {
        Some(m[0].row)
    } else {
        None
    };
    if name is Some && kind is Some && line_row is Some && name->0.len() > 0 && line_row->0
        < usize::MAX {
        Some((name->0, kind->0, (line_row->0 + 1) as usize))
    } else {
        None
    }
}

/// The definitions that a sequence of definition-query matches yields, in order.
pub open spec fn definitions_of(ms: Seq<Seq<CaptureView>>) -> Seq<(Seq<char>, Seq<char>, usize)>
    decreases ms.len(),
{
    if ms.len() == 0 {
        Seq::empty()
    } else {
        let prev = definitions_of(ms.drop_last());
        match match_definition(ms.last()) {
            Some(d) => prev.push(d),
            None => prev,
        }
    }
}

/// Whether `defs` are exactly the definitions of `source` with the given
/// names, kinds and lines.
pub open spec fn definitions_match(
    defs: Seq<DetectedDefinition>,
    source: Seq<char>,
    entries: Seq<(Seq<char>, Seq<char>, usize)>,
) -> bool {
    &&& defs.len() == entries.len()
    &&& forall|i: int|
        0 <= i < defs.len() ==> (#[trigger] defs[i]).source_file@ == source && (
        defs[i].symbol_name@,
        defs[i].kind@,
        defs[i].line_number,
    ) == entries[i]
}

fn match_definition_exec(m: &Vec<CaptureHit>) -> (r: Option<(String, String, usize)>)
    ensures
        match r {
            Some((n, k, l)) => match_definition(match_view(*m)) == Some((n@, k@, l)),
            None => match_definition(match_view(*m)) is None,
        },
{
    let ghost mv = match_view(*m);
    let mut name: Option<String> = None;
    let mut kind: Option<String> = None;
    let mut row: Option<usize> = None;
    for i in 0..m.len()
        invariant
            mv == match_view(*m),
            definition_scan(mv.subrange(0, i as int)) == (opt_view(name), opt_view(kind), row),
    {
        assert(mv.subrange(0, i + 1).drop_last() =~= mv.subrange(0, i as int));
        assert(mv[i as int] == capture_view(m@[i as int]));
        let c = &m[i];
        if str_equals(c.name.as_str(), "def.name") {
            if let Some(t) = &c.text {
                name = Some(t.clone());
            }
        } else {
            let k = kind_label_exec(c.name.as_str());
            if k.is_some() {
                kind = k;
                row = Some(c.row);
            }
        }
    }
    assert(mv.subrange(0, mv.len() as int) =~= mv);
    if m.len() > 0 {
        assert(mv[0] == capture_view(m@[0]));
    }
    if row.is_none() && m.len() > 0 {
        row = Some(m[0].row);
    }
    match (name, kind, row) {
        (Some(n), Some(k), Some(r)) => {
            if n.unicode_len() > 0 && r < usize::MAX {
                Some((n, k, r + 1))
            } else {
                None
            }
        },
        _ => None,
    }
}

/// The definitions that definition-query matches yield for `source_file`.
pub fn definitions_from_matches(source_file: &str, matches: &Vec<Vec<CaptureHit>>) -> (r: Vec<
    DetectedDefinition,
>)
    ensures
        definitions_match(r@, source_file@, definitions_of(matches_view(matches@))),
        forall|i: int|
            0 <= i < r@.len() ==> is_definition_entry(
                ((#[trigger] r@[i]).symbol_name@, r@[i].kind@, r@[i].line_number),
            ),
{
    proof {
        lemma_definitions_well_formed(matches_view(matches@));
    }
    let mut out: Vec<DetectedDefinition> = Vec::new();
    for i in 0..matches.len()
        invariant
            definitions_match(out@, source_file@, definitions_of(matches_view(matches@).subrange(0, i as int))),
    {
        assert(matches_view(matches@).subrange(0, i + 1).drop_last() =~= matches_view(matches@).subrange(0, i as int));
        assert(matches_view(matches@)[i as int] == match_view(matches@[i as int]));
        if let Some((n, k, l)) = match_definition_exec(&matches[i]) {
            out.push(
                DetectedDefinition {
                    source_file: String::from_str(source_file),
                    symbol_name: n,
                    kind: k,
                    line_number: l,
                },
            );
        }
    }
    assert(matches_view(matches@).subrange(0, matches@.len() as int) =~= matches_view(matches@));
    out
}

/// Import, export-from, `require` and dynamic-import sources.
pub const IMPORT_QUERY: &'static str = r#"
[
  (import_statement source: (string) @import_path)
  (export_statement source: (string) @import_path)
  (call_expression
    function: (identifier) @require_func (#eq? @require_func "require")
    arguments: (arguments (string) @import_path))
  (call_expression
    function: (identifier) @require_func (#eq? @require_func "require")
    arguments: (arguments (template_string) @import_path))
  (call_expression
    function: (import) @import_func
    arguments: (arguments (string) @import_path))
  (call_expression
    function: (import) @import_func
    arguments: (arguments (template_string) @import_path))
]
"#;

/// Definitions for the JavaScript grammar, whose class names are identifiers.
pub const JAVASCRIPT_DEFINITION_QUERY: &'static str = r#"
[
  (function_declaration name: (identifier) @def.name) @def.function
  (lexical_declaration
    (variable_declarator name: (identifier) @def.name value: [
      (arrow_function)
      (function_expression)
    ])
  ) @def.function.lexical
  (export_statement declaration: (function_declaration name: (identifier) @def.name)) @def.function.exported.decl
  (class_declaration name: (identifier) @def.name) @def.class
  (export_statement declaration: (class_declaration name: (identifier) @def.name)) @def.class.exported.decl
  (export_statement declaration: (lexical_declaration (variable_declarator name: (identifier) @def.name))) @def.var.exported.decl
  (export_statement (variable_declaration (variable_declarator name: (identifier) @def.name))) @def.var.exported.decl.var
]
"#;

/// Definitions for the TypeScript and TSX grammars, whose class names are
/// type identifiers.
pub const TYPESCRIPT_DEFINITION_QUERY: &'static str = r#"
[
  (function_declaration name: (identifier) @def.name) @def.function
  (lexical_declaration
    (variable_declarator name: (identifier) @def.name value: [
      (arrow_function)
      (function_expression)
    ])
  ) @def.function.lexical
  (export_statement declaration: (function_declaration name: (identifier) @def.name)) @def.function.exported.decl
  (class_declaration name: (type_identifier) @def.name) @def.class
  (export_statement declaration: (class_declaration name: (type_identifier) @def.name)) @def.class.exported.decl
  (export_statement declaration: (lexical_declaration (variable_declarator name: (identifier) @def.name))) @def.var.exported.decl
  (export_statement (variable_declaration (variable_declarator name: (identifier) @def.name))) @def.var.exported.decl.var
]
"#;

/// The definition query for a grammar.
pub open spec fn definition_query(g: Grammar) -> Seq<char> {
    match g {
        Grammar::JavaScript => JAVASCRIPT_DEFINITION_QUERY@,
        _ => TYPESCRIPT_DEFINITION_QUERY@,
    }
}

/// The definition query for a grammar: class names are matched as
/// identifiers in JavaScript and as type identifiers in TypeScript and TSX.
pub fn definition_query_for(g: Grammar) -> (r: &'static str)
    ensures
        r@ == definition_query(g),
{
    match g {
        Grammar::JavaScript => JAVASCRIPT_DEFINITION_QUERY,
        _ => TYPESCRIPT_DEFINITION_QUERY,
    }
}

/// The specifiers of a file, from its path and contents: none without a
/// grammar or when the import query is rejected; otherwise what the import
/// query's matches yield.
pub open spec fn file_specifiers(path: Seq<char>, content: Seq<char>) -> Seq<Seq<char>> {
    match grammar_of(path) {
        None => Seq::empty(),
        Some(g) => if query_rejected(g, IMPORT_QUERY@) {
            Seq::empty()
        } else {
            specifiers_of(query_hits(g, IMPORT_QUERY@, content))
        },
    }
}

/// The definitions of a file, from its path and contents: none where there are
/// no specifiers for want of a grammar or an import query, and none when the
/// definition query for the grammar is rejected; otherwise what that query's
/// matches yield.
pub open spec fn file_definitions(path: Seq<char>, content: Seq<char>) -> Seq<(Seq<char>, Seq<char>, usize)> {
    match grammar_of(path) {
        None => Seq::empty(),
        Some(g) => if query_rejected(g, IMPORT_QUERY@) || query_rejected(
            g,
            definition_query(g),
        ) {
            Seq::empty()
        } else {
            definitions_of(query_hits(g, definition_query(g), content))
        },
    }
}

/// Connections and definitions of one file, given its path and contents (see
/// `file_specifiers` and `file_definitions`): the definition query is the one
/// for the file's grammar, which matches class names as identifiers in
/// JavaScript and as type identifiers in TypeScript and TSX.
pub fn analyze_file_content(path: &str, content: &str) -> (r: (
    Vec<DetectedConnection>,
    Vec<DetectedDefinition>,
))
    ensures
        connections_match(r.0@, path@, file_specifiers(path@, content@)),
        definitions_match(r.1@, path@, file_definitions(path@, content@)),
        forall|i: int|
            0 <= i < r.0@.len() ==> (#[trigger] r.0@[i]).source_file@ == path@ && is_clean_specifier(
                r.0@[i].imported_string@,
            ),
        forall|i: int|
            0 <= i < r.1@.len() ==> (#[trigger] r.1@[i]).source_file@ == path@ && is_definition_entry(
                (r.1@[i].symbol_name@, r.1@[i].kind@, r.1@[i].line_number),
            ),
{
    let grammar = match grammar_for_path(path) {
        Some(g) => g,
        None => return (Vec::new(), Vec::new()),
    };
    let parsed = match parse_source(grammar, content) {
        Some(p) => p,
        None => return (Vec::new(), Vec::new()),
    };
    let import_matches = match run_query(&parsed, IMPORT_QUERY) {
        Some(m) => m,
        None => return (Vec::new(), Vec::new()),
    };
    let connections = connections_from_matches(path, &import_matches);
    match run_query(&parsed, definition_query_for(grammar)) {
        Some(m) => (connections, definitions_from_matches(path, &m)),
        None => (connections, Vec::new()),
    }
}

} // verus!
