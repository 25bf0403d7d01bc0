use context_extractor::extract::{
    analyze_file_content, connections_from_matches, definition_query_for, definitions_from_matches,
    grammar_for_path, strip_quote_chars, CaptureHit, Grammar, JAVASCRIPT_DEFINITION_QUERY,
    TYPESCRIPT_DEFINITION_QUERY,
};

fn hit(name: &str, text: &str, row: usize) -> CaptureHit {
    CaptureHit { name: name.to_string(), text: Some(text.to_string()), row }
}

#[test]
fn grammar_follows_the_extension() {
    assert_eq!(grammar_for_path("a/b.js"), Some(Grammar::JavaScript));
    assert_eq!(grammar_for_path("a/b.jsx"), Some(Grammar::JavaScript));
    assert_eq!(grammar_for_path("a/b.mjs"), Some(Grammar::JavaScript));
    assert_eq!(grammar_for_path("a/b.cjs"), Some(Grammar::JavaScript));
    assert_eq!(grammar_for_path("a/b.ts"), Some(Grammar::TypeScript));
    assert_eq!(grammar_for_path("a/b.tsx"), Some(Grammar::Tsx));
    assert_eq!(grammar_for_path("a/b.json"), None);
    assert_eq!(grammar_for_path("a/Makefile"), None);
}

#[test]
fn definition_query_depends_on_the_grammar() {
    assert_eq!(definition_query_for(Grammar::JavaScript), JAVASCRIPT_DEFINITION_QUERY);
    assert_eq!(definition_query_for(Grammar::TypeScript), TYPESCRIPT_DEFINITION_QUERY);
    assert_eq!(definition_query_for(Grammar::Tsx), TYPESCRIPT_DEFINITION_QUERY);
    assert!(TYPESCRIPT_DEFINITION_QUERY.contains("(class_declaration name: (type_identifier)"));
    assert!(JAVASCRIPT_DEFINITION_QUERY.contains("(class_declaration name: (identifier)"));
}

#[test]
fn quotes_are_stripped_from_both_ends() {
    assert_eq!(strip_quote_chars("'./b'"), "./b");
    assert_eq!(strip_quote_chars("\"lodash\""), "lodash");
    assert_eq!(strip_quote_chars("`./x`"), "./x");
    assert_eq!(strip_quote_chars("''"), "");
    assert_eq!(strip_quote_chars("a'b"), "a'b");
}

#[test]
fn connections_take_the_first_import_path_capture() {
    let matches = vec![
        vec![hit("require_func", "require", 0), hit("import_path", "'./a'", 0), hit("import_path", "'./z'", 0)],
        vec![hit("import_path", "''", 1)],
        vec![hit("import_func", "import", 2)],
        vec![CaptureHit { name: "import_path".to_string(), text: None, row: 3 }],
        vec![hit("import_path", "\"./b\"", 4)],
    ];
    let c = connections_from_matches("src/m.js", &matches);
    assert_eq!(c.len(), 2);
    assert_eq!(c[0].source_file, "src/m.js");
    assert_eq!(c[0].imported_string, "./a");
    assert_eq!(c[1].imported_string, "./b");
}

#[test]
fn definitions_take_kind_and_line_from_the_construct() {
    let matches = vec![
        vec![hit("def.function", "function f() {}", 4), hit("def.name", "f", 4)],
        vec![hit("def.name", "K", 7), hit("def.class.exported.decl", "export class K {}", 6)],
        vec![hit("def.var.exported.decl", "export const v = 1", 9), hit("def.name", "v", 9)],
        vec![hit("def.name", "lonely", 11)],
        vec![hit("def.function.lexical", "const g = () => 1", 12), hit("def.name", "", 12)],
        vec![hit("def.other", "x", 14), hit("def.name", "x", 14)],
    ];
    let d = definitions_from_matches("src/m.js", &matches);
    assert_eq!(d.len(), 3);
    assert_eq!((d[0].symbol_name.as_str(), d[0].kind.as_str(), d[0].line_number), ("f", "Function", 5));
    assert_eq!((d[1].symbol_name.as_str(), d[1].kind.as_str(), d[1].line_number), ("K", "Class", 7));
    assert_eq!((d[2].symbol_name.as_str(), d[2].kind.as_str(), d[2].line_number), ("v", "Variable", 10));
    assert!(d.iter().all(|x| x.source_file == "src/m.js"));
}

#[test]
fn parsed_file_yields_imports_requires_and_exports() {
    let src = "import x from './b';\nconst l = require('lodash');\nexport { y } from \"./c\";\nconst m = import(`./d`);\n";
    let (c, _) = analyze_file_content("src/a.js", src);
    let specs: Vec<&str> = c.iter().map(|x| x.imported_string.as_str()).collect();
    assert_eq!(specs, vec!["./b", "lodash", "./c", "./d"]);
    assert!(c.iter().all(|x| x.source_file == "src/a.js"));
}

#[test]
fn class_names_are_found_in_both_grammar_families() {
    let (_, tsx) = analyze_file_content("src/w.tsx", "class Foo {}\n");
    assert!(tsx.iter().any(|d| d.symbol_name == "Foo" && d.kind == "Class" && d.line_number == 1));
    let (_, js) = analyze_file_content("src/w.js", "class Foo {}\n");
    assert!(js.iter().any(|d| d.symbol_name == "Foo" && d.kind == "Class" && d.line_number == 1));
    let (_, ts) = analyze_file_content("src/w.ts", "\n\nclass Foo {}\n");
    assert!(ts.iter().any(|d| d.symbol_name == "Foo" && d.kind == "Class" && d.line_number == 3));
}

#[test]
fn functions_and_exported_variables_are_definitions() {
    let src = "function f() {}\nconst g = () => 1;\nexport const v = 2;\nexport function h() {}\n";
    let (_, d) = analyze_file_content("src/a.js", src);
    let found: Vec<(&str, &str, usize)> =
        d.iter().map(|x| (x.symbol_name.as_str(), x.kind.as_str(), x.line_number)).collect();
    assert!(found.contains(&("f", "Function", 1)));
    assert!(found.contains(&("g", "Function", 2)));
    assert!(found.contains(&("v", "Variable", 3)));
    assert!(found.contains(&("h", "Function", 4)));
}

#[test]
fn unsupported_files_yield_nothing() {
    let (c, d) = analyze_file_content("README.md", "import x from './b'");
    assert!(c.is_empty());
    assert!(d.is_empty());
}

#[test]
fn empty_specifiers_are_dropped_after_parsing() {
    let (c, _) = analyze_file_content("src/a.js", "import x from ''\nimport y from './y'\n");
    let specs: Vec<&str> = c.iter().map(|x| x.imported_string.as_str()).collect();
    assert_eq!(specs, vec!["./y"]);
}
