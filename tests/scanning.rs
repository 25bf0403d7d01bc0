use context_extractor::extract::analyze_file_content;
use context_extractor::scan::{assemble_scan, is_admitted, FileAnalysis, IgnoreConfig};

fn analysed(path: &str, content: &str) -> FileAnalysis {
    let (connections, definitions) = analyze_file_content(path, content);
    FileAnalysis { path: path.to_string(), connections, definitions }
}

fn target_of(r: &context_extractor::scan::ScanResult, spec: &str) -> Option<String> {
    r.connections.iter().find(|c| c.imported_string == spec).unwrap().resolved_target.clone()
}

#[test]
fn scan_resolves_relative_import() {
    let r = assemble_scan(
        "/proj".to_string(),
        vec![analysed("/proj/src/a.js", "import x from './b'"), analysed("/proj/src/b.js", "")],
        &IgnoreConfig::standard(),
    );
    assert_eq!(r.connections.len(), 1);
    assert_eq!(r.connections[0].source_file, "/proj/src/a.js");
    assert_eq!(target_of(&r, "./b"), Some("/proj/src/b.js".to_string()));
}

#[test]
fn scan_leaves_package_require_unresolved() {
    let r = assemble_scan(
        "/proj".to_string(),
        vec![analysed("/proj/src/a.js", "const l = require('lodash');"), analysed("/proj/src/lodash.js", "")],
        &IgnoreConfig::standard(),
    );
    assert_eq!(r.connections.len(), 1);
    assert_eq!(target_of(&r, "lodash"), None);
}

#[test]
fn scan_resolves_directory_index() {
    let r = assemble_scan(
        "/proj".to_string(),
        vec![analysed("/proj/src/a.ts", "import {y} from './util'"), analysed("/proj/src/util/index.ts", "")],
        &IgnoreConfig::standard(),
    );
    assert_eq!(target_of(&r, "./util"), Some("/proj/src/util/index.ts".to_string()));
}

#[test]
fn every_resolved_target_is_a_listed_file() {
    let r = assemble_scan(
        "/p".to_string(),
        vec![
            analysed("/p/a.js", "import b from './b'; import c from './c'; import d from './missing';"),
            analysed("/p/./b.js", "import a from './a.js';"),
            analysed("/p/c/index.mjs", "import x from '../a'"),
        ],
        &IgnoreConfig::standard(),
    );
    assert_eq!(r.files, vec!["/p/a.js", "/p/b.js", "/p/c/index.mjs"]);
    assert_eq!(r.connections.len(), 5);
    for c in &r.connections {
        if let Some(t) = &c.resolved_target {
            assert!(r.files.contains(t));
        }
    }
    assert_eq!(target_of(&r, "./missing"), None);
    assert_eq!(target_of(&r, "./c"), Some("/p/c/index.mjs".to_string()));
    assert_eq!(target_of(&r, "../a"), Some("/p/a.js".to_string()));
}

#[test]
fn scan_order_does_not_change_the_result_sets() {
    let make = || {
        vec![
            analysed("/p/z.js", "import a from './a'\nfunction z() {}"),
            analysed("/p/a.js", "export const q = 1; import z from './z'"),
            analysed("/p/m/n.ts", "class N {}\nimport a from '../a'"),
        ]
    };
    let first = assemble_scan("/p".to_string(), make(), &IgnoreConfig::standard());
    let mut reversed = make();
    reversed.reverse();
    let second = assemble_scan("/p".to_string(), reversed, &IgnoreConfig::standard());
    assert_eq!(first.files, second.files);
    let key = |r: &context_extractor::scan::ScanResult| {
        let mut c: Vec<(String, String, Option<String>)> = r
            .connections
            .iter()
            .map(|c| (c.source_file.clone(), c.imported_string.clone(), c.resolved_target.clone()))
            .collect();
        c.sort();
        let mut d: Vec<(String, String, String, usize)> = r
            .definitions
            .iter()
            .map(|d| (d.source_file.clone(), d.symbol_name.clone(), d.kind.clone(), d.line_number))
            .collect();
        d.sort();
        (c, d)
    };
    assert_eq!(key(&first), key(&second));
}

#[test]
fn ignored_directories_are_pruned_at_any_depth() {
    let cfg = IgnoreConfig::standard();
    let r = assemble_scan(
        "/p".to_string(),
        vec![
            analysed("/p/src/a.js", "import x from '../node_modules/x/index.js'"),
            analysed("/p/node_modules/x/index.js", ""),
            analysed("/p/src/deep/er/target/out.js", ""),
            analysed("/p/.git/hooks/pre.js", ""),
            analysed("/p/yarn.lock", ""),
            analysed("/p/src/node_modules.js", ""),
        ],
        &cfg,
    );
    assert_eq!(r.files, vec!["/p/src/a.js", "/p/src/node_modules.js"]);
    assert_eq!(r.connections[0].resolved_target, None);
    assert!(!is_admitted("/p", "/p/a/b/c/.next/d.js", &cfg));
    assert!(is_admitted("/p", "/p/a/target.js", &cfg));
}

#[test]
fn ignore_rules_distinguish_directories_from_files() {
    let cfg = IgnoreConfig::standard();
    assert!(cfg.is_ignored("node_modules", true));
    assert!(!cfg.is_ignored("node_modules", false));
    assert!(cfg.is_ignored("package-lock.json", false));
    assert!(!cfg.is_ignored("package-lock.json", true));
    assert!(cfg.is_ignored(".cursor", true));
    assert!(!cfg.is_ignored("src", true));
}

#[test]
fn empty_scan_is_not_an_error() {
    let r = assemble_scan("/p".to_string(), Vec::new(), &IgnoreConfig::standard());
    assert!(r.files.is_empty());
    assert!(r.connections.is_empty());
    assert!(r.definitions.is_empty());
    assert_eq!(r.root_path, "/p");
}

#[test]
fn definition_sources_are_normalised_and_listed() {
    let r = assemble_scan(
        "/p".to_string(),
        vec![analysed("/p/./src//b.js", "function f() {}\nimport a from '../a'"), analysed("/p/a.js", "")],
        &IgnoreConfig::standard(),
    );
    assert_eq!(r.files, vec!["/p/a.js", "/p/src/b.js"]);
    assert_eq!(r.definitions.len(), 1);
    assert_eq!(r.definitions[0].source_file, "/p/src/b.js");
    assert_eq!(r.connections[0].source_file, "/p/src/b.js");
    assert_eq!(r.connections[0].resolved_target, Some("/p/a.js".to_string()));
    for d in &r.definitions {
        assert!(r.files.contains(&d.source_file));
    }
}

#[test]
fn paths_sort_root_and_parent_components_first() {
    let r = assemble_scan(
        "".to_string(),
        vec![analysed("-b.js", ""), analysed("../up.js", ""), analysed("a.js", "")],
        &IgnoreConfig::standard(),
    );
    assert_eq!(r.files, vec!["../up.js", "-b.js", "a.js"]);
}
