use context_extractor::contents::{generate_file_content_section, lines_of, FileContent};
use context_extractor::filter::{
    contains_text, filter_connections, filter_definitions, filter_files, filter_usage_connections,
};
use context_extractor::model::{DetectedDefinition, ResolvedConnection};

fn conn(src: &str, spec: &str, target: Option<&str>) -> ResolvedConnection {
    ResolvedConnection {
        source_file: src.to_string(),
        imported_string: spec.to_string(),
        resolved_target: target.map(|x| x.to_string()),
    }
}

#[test]
fn lines_split_like_text_lines() {
    assert_eq!(lines_of("a\nb\r\nc"), vec!["a", "b", "c"]);
    assert_eq!(lines_of("a\n"), vec!["a"]);
    assert_eq!(lines_of("\n\n"), vec!["", ""]);
    assert!(lines_of("").is_empty());
}

#[test]
fn file_contents_are_numbered_and_fenced() {
    let files = vec![
        FileContent { path: "/p/src/b.ts".to_string(), content: Ok("x\ny\n".to_string()) },
        FileContent { path: "/p/a.js".to_string(), content: Ok("one".to_string()) },
        FileContent { path: "/p/c".to_string(), content: Err("denied".to_string()) },
    ];
    assert_eq!(
        generate_file_content_section("/p", &files),
        "## File Contents\n\n\
         ### `a.js`\n\n```js\n1 | one\n```\n\n\
         ### `c`\n\n```\n[Error reading file: denied]\n```\n\n\
         ### `src/b.ts`\n\n```ts\n1 | x\n2 | y\n\n```\n\n"
    );
}

#[test]
fn wide_line_numbers_are_padded() {
    let text: String = (1..=10).map(|i| format!("l{}\n", i)).collect();
    let out = generate_file_content_section("/p", &vec![FileContent { path: "/p/x.js".to_string(), content: Ok(text) }]);
    assert!(out.contains("1  | l1\n"));
    assert!(out.contains("10 | l10\n"));
}

#[test]
fn substring_search() {
    assert!(contains_text("hello", "ell"));
    assert!(contains_text("hello", ""));
    assert!(contains_text("", ""));
    assert!(!contains_text("hello", "elo"));
    assert!(!contains_text("he", "hello"));
}

#[test]
fn filters_ignore_case_and_keep_order() {
    let files = vec!["/p/src/App.tsx".to_string(), "/p/lib/util.js".to_string(), "/p/src/app.css".to_string()];
    assert_eq!(filter_files("/p", &files, "APP"), vec!["/p/src/App.tsx", "/p/src/app.css"]);
    assert_eq!(filter_files("/p", &files, ""), files);
    assert!(filter_files("/p", &files, "p/src").is_empty());

    let conns = vec![
        conn("/p/a.js", "React", None),
        conn("/p/b.js", "./c", Some("/p/c.js")),
        conn("/p/d.js", "./e", None),
    ];
    let by_spec = filter_connections("/p", &conns, "react");
    assert_eq!(by_spec.len(), 1);
    assert_eq!(by_spec[0].source_file, "/p/a.js");
    let by_target = filter_connections("/p", &conns, "C.JS");
    assert_eq!(by_target.len(), 1);
    assert_eq!(by_target[0].resolved_target, Some("/p/c.js".to_string()));
    assert_eq!(filter_usage_connections("/p", &conns, "react").len(), 0);
    assert_eq!(filter_usage_connections("/p", &conns, "d.js").len(), 1);

    let defs = vec![
        DetectedDefinition { source_file: "/p/a.js".into(), symbol_name: "Widget".into(), kind: "Class".into(), line_number: 1 },
        DetectedDefinition { source_file: "/p/b.js".into(), symbol_name: "run".into(), kind: "Function".into(), line_number: 2 },
    ];
    let kept = filter_definitions("/p", &defs, "function");
    assert_eq!(kept.len(), 1);
    assert_eq!(kept[0].symbol_name, "run");
    assert_eq!(filter_definitions("/p", &defs, "widg")[0].kind, "Class");
}
