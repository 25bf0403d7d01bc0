use context_extractor::paths::{clean_path, extension_chars, parent_of, relative_display};
use context_extractor::resolve::{candidate_paths, resolve_import_path, ProjectFiles};

fn files(paths: &[&str]) -> ProjectFiles {
    ProjectFiles::from_paths(&paths.iter().map(|p| p.to_string()).collect())
}

#[test]
fn relative_import_resolves_to_sibling() {
    let set = files(&["src/a.js", "src/b.js"]);
    assert_eq!(resolve_import_path("src/a.js", "./b", &set), Some("src/b.js".to_string()));
}

#[test]
fn package_import_is_external() {
    let set = files(&["src/a.js", "src/lodash.js"]);
    assert_eq!(resolve_import_path("src/a.js", "lodash", &set), None);
}

#[test]
fn directory_import_resolves_to_index() {
    let set = files(&["src/a.ts", "src/util/index.ts"]);
    assert_eq!(resolve_import_path("src/a.ts", "./util", &set), Some("src/util/index.ts".to_string()));
}

#[test]
fn non_relative_specifiers_never_resolve() {
    let set = files(&["src/a.js", "src/b.js", "b.js", "http:/x.js"]);
    assert_eq!(resolve_import_path("src/a.js", "b", &set), None);
    assert_eq!(resolve_import_path("src/a.js", "./b:c", &set), None);
    assert_eq!(resolve_import_path("src/a.js", "https://x.js", &set), None);
    assert_eq!(resolve_import_path("src/a.js", "", &set), None);
}

#[test]
fn first_candidate_in_order_wins() {
    let set = files(&["src/a.js", "src/b.ts", "src/b.js", "src/b/index.js"]);
    assert_eq!(resolve_import_path("src/a.js", "./b", &set), Some("src/b.js".to_string()));
    let exact = files(&["src/a.js", "src/b", "src/b.js"]);
    assert_eq!(resolve_import_path("src/a.js", "./b", &exact), Some("src/b".to_string()));
    let only_ts = files(&["src/a.js", "src/b.tsx", "src/b.ts"]);
    assert_eq!(resolve_import_path("src/a.js", "./b", &only_ts), Some("src/b.ts".to_string()));
}

#[test]
fn resolution_is_repeatable() {
    let set = files(&["src/a.js", "src/b.js", "src/b.ts"]);
    let first = resolve_import_path("src/a.js", "./b", &set);
    for _ in 0..5 {
        assert_eq!(resolve_import_path("src/a.js", "./b", &set), first);
    }
}

#[test]
fn parent_directories_and_explicit_extensions() {
    let set = files(&["src/deep/a.js", "src/lib/x.js", "src/lib/x.js.js"]);
    assert_eq!(resolve_import_path("src/deep/a.js", "../lib/x.js", &set), Some("src/lib/x.js".to_string()));
    let missing = files(&["src/deep/a.js"]);
    assert_eq!(resolve_import_path("src/deep/a.js", "../lib/x", &missing), None);
}

#[test]
fn candidates_skip_an_extension_already_present() {
    let c = candidate_paths("src/b.js");
    assert_eq!(c[0], "src/b.js");
    assert!(!c.contains(&"src/b.js.js".to_string()));
    assert!(c.contains(&"src/b.js.ts".to_string()));
    assert_eq!(c.len(), 12);
    assert_eq!(c[11], "src/b.js/index.cjs");
    let plain = candidate_paths("src/b");
    assert_eq!(plain.len(), 13);
    assert_eq!(plain[1], "src/b.js");
    assert_eq!(plain[7], "src/b/index.js");
}

#[test]
fn cleaning_collapses_dots_and_separators() {
    assert_eq!(clean_path("a/./b/../c"), "a/c");
    assert_eq!(clean_path("a//b/"), "a/b");
    assert_eq!(clean_path(""), ".");
    assert_eq!(clean_path("/../a"), "/a");
    assert_eq!(clean_path("../a/../../b"), "../../b");
    assert_eq!(clean_path("./x/."), "x");
}

#[test]
fn parent_directory_of_paths() {
    assert_eq!(parent_of("src/a.js"), Some("src".to_string()));
    assert_eq!(parent_of("a.js"), Some(String::new()));
    assert_eq!(parent_of("/a.js"), Some("/".to_string()));
    assert_eq!(parent_of("/"), None);
    assert_eq!(parent_of(""), None);
}

#[test]
fn extensions_follow_the_last_dot() {
    let ext = |p: &str| extension_chars(&p.chars().collect()).map(|v| v.into_iter().collect::<String>());
    assert_eq!(ext("src/a.test.ts"), Some("ts".to_string()));
    assert_eq!(ext("src/.env"), None);
    assert_eq!(ext("src/Makefile"), None);
    assert_eq!(ext("src/.."), None);
}

#[test]
fn relative_display_strips_the_root() {
    assert_eq!(relative_display("/proj", "/proj/src/a.js"), "src/a.js");
    assert_eq!(relative_display("/proj", "/other/a.js"), "/other/a.js");
}
