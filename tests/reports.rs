use context_extractor::model::{DetectedDefinition, ResolvedConnection};
use context_extractor::natural::{compare_paths_naturally, natural_lexical_cmp_revised};
use context_extractor::report::{
    decimal_string, generate_connections_section, generate_definitions_section, generate_inverse_usage_section,
    generate_structure_section, generate_tree_structure_items, generate_tree_structure_string,
    rebuild_full_context, report_items_to_string, ReportItem,
};
use std::cmp::Ordering;

#[derive(Debug, PartialEq)]
enum Shown {
    Text(String),
    Link(String, String),
}

fn shown(items: &[ReportItem]) -> Vec<Shown> {
    items
        .iter()
        .map(|i| match i {
            ReportItem::PlainText(t) => Shown::Text(t.clone()),
            ReportItem::FilePath { display, path } => Shown::Link(display.clone(), path.clone()),
        })
        .collect()
}

fn t(s: &str) -> Shown {
    Shown::Text(s.to_string())
}

fn l(d: &str, p: &str) -> Shown {
    Shown::Link(d.to_string(), p.to_string())
}

fn conn(src: &str, spec: &str, target: Option<&str>) -> ResolvedConnection {
    ResolvedConnection {
        source_file: src.to_string(),
        imported_string: spec.to_string(),
        resolved_target: target.map(|x| x.to_string()),
    }
}

fn def(src: &str, name: &str, kind: &str, line: usize) -> DetectedDefinition {
    DetectedDefinition {
        source_file: src.to_string(),
        symbol_name: name.to_string(),
        kind: kind.to_string(),
        line_number: line,
    }
}

fn tree_files() -> Vec<String> {
    ["/p/src/b.js", "/p/README.md", "/p/src/a10.js", "/p/src/a2.js", "/p/lib/x/y.js"]
        .iter()
        .map(|s| s.to_string())
        .collect()
}

#[test]
fn numbers_inside_names_compare_by_value() {
    assert_eq!(natural_lexical_cmp_revised("file2", "file10"), Ordering::Less);
    assert_eq!(natural_lexical_cmp_revised("file10", "file2"), Ordering::Greater);
    assert_eq!(natural_lexical_cmp_revised("a01", "a1"), Ordering::Equal);
    assert_eq!(natural_lexical_cmp_revised("abc", "abd"), Ordering::Less);
    assert_eq!(natural_lexical_cmp_revised("b", "a10"), Ordering::Greater);
    assert_eq!(natural_lexical_cmp_revised("x", "x1"), Ordering::Less);
    assert_eq!(natural_lexical_cmp_revised("", ""), Ordering::Equal);
    assert_eq!(natural_lexical_cmp_revised("v123456789012345678901234567890", "v99"), Ordering::Greater);
}

#[test]
fn paths_compare_naturally_by_component() {
    assert_eq!(compare_paths_naturally("/p/a2/x", "/p/a10"), Ordering::Less);
    assert_eq!(compare_paths_naturally("/p/a", "/p/a/b"), Ordering::Less);
    assert_eq!(compare_paths_naturally("/p/b", "/p/a/z"), Ordering::Greater);
    assert_eq!(compare_paths_naturally("/p//a", "/p/a"), Ordering::Equal);
    assert_eq!(compare_paths_naturally("./a", "a"), Ordering::Less);
    assert_eq!(compare_paths_naturally("a/./b", "a/b"), Ordering::Equal);
}

#[test]
fn structure_tree_draws_each_directory_once() {
    let items = generate_tree_structure_items("/p", &tree_files());
    assert_eq!(
        shown(&items),
        vec![
            l("├── README.md", "/p/README.md"),
            l("├── lib/", "/p/lib"),
            l("│   ├── x/", "/p/lib/x"),
            l("│   │   └── y.js", "/p/lib/x/y.js"),
            l("├── src/", "/p/src"),
            l("│   └── a2.js", "/p/src/a2.js"),
            l("│   └── a10.js", "/p/src/a10.js"),
            l("│   └── b.js", "/p/src/b.js"),
        ]
    );
}

#[test]
fn structure_tree_as_text() {
    let text = generate_tree_structure_string("/p", &tree_files());
    assert_eq!(
        text,
        "├── README.md\n├── lib/\n│   ├── x/\n│   │   └── y.js\n├── src/\n│   └── a2.js\n│   └── a10.js\n│   └── b.js\n"
    );
}

#[test]
fn structure_section_frames_the_tree() {
    let items = generate_structure_section("/home/me/proj", &vec!["/home/me/proj/a.js".to_string()]);
    assert_eq!(
        shown(&items),
        vec![
            t("## Project Structure\n\n```"),
            t("proj"),
            l("├── a.js", "/home/me/proj/a.js"),
            t("```\n"),
        ]
    );
    let outside = generate_structure_section("/p", &vec!["/q/a.js".to_string()]);
    assert_eq!(shown(&outside), vec![t("## Project Structure\n\n```"), t("p"), t("```\n")]);
}

#[test]
fn connections_section_groups_by_source() {
    let conns = vec![
        conn("/p/b.js", "./a", Some("/p/a.js")),
        conn("/p/a.js", "lodash", None),
        conn("/p/a.js", "./c", Some("/p/c.js")),
    ];
    assert_eq!(
        shown(&generate_connections_section("/p", &conns)),
        vec![
            t("## Detected Connections (Resolved)\n\n```"),
            l("├── a.js", "/p/a.js"),
            t("│   ├── ./c"),
            t(" -> "),
            l("c.js", "/p/c.js"),
            t("│   └── lodash"),
            t(" (External or Unresolved)"),
            l("└── b.js", "/p/b.js"),
            t("    └── ./a"),
            t(" -> "),
            l("a.js", "/p/a.js"),
            t("```\n"),
        ]
    );
}

#[test]
fn connections_section_without_connections() {
    assert_eq!(
        shown(&generate_connections_section("/p", &Vec::new())),
        vec![t("## Detected Connections (Resolved)\n\n```"), t("_No connections detected._"), t("```\n")]
    );
}

#[test]
fn inverse_usage_lists_importers_sorted() {
    let conns = vec![
        conn("/p/c.js", "./b", Some("/p/b.js")),
        conn("/p/a.js", "./b", Some("/p/b.js")),
        conn("/p/a.js", "left-pad", None),
    ];
    assert_eq!(
        shown(&generate_inverse_usage_section("/p", &conns)),
        vec![
            t("## Inverse Usage (Who Imports What)\n\n"),
            t("```\n"),
            l("└── b.js", "/p/b.js"),
            l("    ├── a.js", "/p/a.js"),
            l("    └── c.js", "/p/c.js"),
            t("```\n"),
        ]
    );
}

#[test]
fn inverse_usage_without_resolved_imports() {
    let conns = vec![conn("/p/a.js", "react", None)];
    assert_eq!(
        shown(&generate_inverse_usage_section("/p", &conns)),
        vec![
            t("## Inverse Usage (Who Imports What)\n\n"),
            t("_No resolved local imports found to build inverse usage._\n"),
        ]
    );
}

#[test]
fn definitions_section_aligns_columns() {
    let defs = vec![
        def("/p/a.js", "zeta", "Function", 12),
        def("/p/a.js", "K", "Class", 3),
        def("/p/a.js", "v", "Variable", 3),
        def("/p/b.js", "w", "Class", 1),
    ];
    assert_eq!(
        shown(&generate_definitions_section("/p", &defs)),
        vec![
            t("## Detected Definitions & Exports\n\n"),
            t("### `a.js`\n"),
            t("```\n"),
            t("L3  Class    K\n"),
            t("L3  Variable v\n"),
            t("L12 Function zeta\n"),
            t("```\n\n"),
            t("### `b.js`\n"),
            t("```\n"),
            t("L1 Class w\n"),
            t("```\n\n"),
        ]
    );
}

#[test]
fn definitions_section_without_definitions() {
    assert_eq!(
        shown(&generate_definitions_section("/p", &Vec::new())),
        vec![t("## Detected Definitions & Exports\n\n"), t("_No definitions or exports detected._\n")]
    );
}

#[test]
fn items_flatten_to_trimmed_text() {
    let items = vec![
        ReportItem::PlainText("a".to_string()),
        ReportItem::FilePath { display: "b".to_string(), path: "/x".to_string() },
        ReportItem::PlainText("c\n\n".to_string()),
    ];
    assert_eq!(report_items_to_string(&items), "a\nb\nc");
    assert_eq!(report_items_to_string(&Vec::new()), "");
}

#[test]
fn decimal_numerals() {
    assert_eq!(decimal_string(0), "0");
    assert_eq!(decimal_string(7), "7");
    assert_eq!(decimal_string(1234), "1234");
    assert_eq!(decimal_string(usize::MAX), usize::MAX.to_string());
}

#[test]
fn full_context_joins_sections_and_trims() {
    let sections = vec!["A".to_string(), "B\n".to_string()];
    assert_eq!(rebuild_full_context(&sections, None), "A\n\nB");
    assert_eq!(rebuild_full_context(&sections, Some("C  \n")), "A\n\nB\n\n\nC");
    assert_eq!(rebuild_full_context(&Vec::new(), None), "");
}

#[test]
fn structure_label_is_empty_for_dot_roots() {
    for root in [".", "./", ".//", "/"] {
        let items = generate_structure_section(root, &Vec::new());
        assert_eq!(shown(&items), vec![t("## Project Structure\n\n```"), t(""), t("```\n")]);
    }
}

#[test]
fn trailing_white_space_is_trimmed() {
    let items = vec![ReportItem::PlainText("x \t\u{3000}\u{a0}".to_string())];
    assert_eq!(report_items_to_string(&items), "x");
}
