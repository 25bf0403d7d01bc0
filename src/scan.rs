//! Assembling one scan: which walked files count, the normalised file list,
//! every detected connection resolved against it, and the definitions.
use vstd::prelude::*;
use crate::extract::{connections_match, definitions_match, file_definitions, file_specifiers};
use crate::model::{definition_view, DetectedConnection, DetectedDefinition, ResolvedConnection};
use crate::paths::{
    clean_path, cleaned, components, is_clean, is_plain_name, lemma_components_join, lemma_components_well_formed,
    lemma_fold_of_clean, no_sep, path_before, path_precedes, relative_components,
};
use crate::resolve::{lemma_resolved_target_is_project_file, opt_view, resolution, resolve_import_path, ProjectFiles};
use crate::sort::{lemma_sorted_by_elements, lemma_views_sorted, sorted_by, stable_sort};
use crate::text::{lemma_path_set_push, path_set, str_equals, views};

verus! {

/// Directory and file names that discovery leaves out.
pub struct IgnoreConfig {
    pub dirs: Vec<String>,
    pub files: Vec<String>,
}

/// Whether `name` is one of `names`.
pub open spec fn names_contain(names: Seq<String>, name: Seq<char>) -> bool {
    exists|i: int| 0 <= i < names.len() && names[i]@ == name
}

fn contains_name(names: &Vec<String>, name: &str) -> (r: bool)
    ensures
        r == names_contain(names@, name@),
{
    for i in 0..names.len()
        invariant
            forall|j: int| 0 <= j < i ==> names@[j]@ != name@,
    {
        if str_equals(names[i].as_str(), name) {
            return true;
        }
    }
    false
}

impl IgnoreConfig {
    /// Version-control metadata, dependency caches and build output
    /// directories, and lockfiles.
    pub fn standard() -> (r: IgnoreConfig)
        ensures
            views(r.dirs@) == seq!["node_modules"@, ".git"@, ".next"@, ".cursor"@, "target"@],
            views(r.files@) == seq!["pnpm-lock.yaml"@, "yarn.lock"@, "package-lock.json"@],
    {
        let dirs = vec![
            String::from_str("node_modules"),
            String::from_str(".git"),
            String::from_str(".next"),
            String::from_str(".cursor"),
            String::from_str("target"),
        ];
        let files = vec![
            String::from_str("pnpm-lock.yaml"),
            String::from_str("yarn.lock"),
            String::from_str("package-lock.json"),
        ];
        assert(views(dirs@) =~= seq!["node_modules"@, ".git"@, ".next"@, ".cursor"@, "target"@]);
        assert(views(files@) =~= seq!["pnpm-lock.yaml"@, "yarn.lock"@, "package-lock.json"@]);
        IgnoreConfig { dirs, files }
    }

    /// Whether a directory entry named `name` is left out: a directory by the
    /// directory names, anything else by the file names.
    pub fn is_ignored(&self, name: &str, is_dir: bool) -> (r: bool)
        ensures
            r == if is_dir {
                names_contain(self.dirs@, name@)
            } else {
                names_contain(self.files@, name@)
            },
    {
        if is_dir {
            contains_name(&self.dirs, name)
        } else {
            contains_name(&self.files, name)
        }
    }
}

/// Whether a walked file counts: below the root, none of its directories is
/// an ignored directory and its own name is not an ignored file.
pub open spec fn admitted(root: Seq<char>, path: Seq<char>, config: IgnoreConfig) -> bool {
    match relative_components(root, path) {
        Some(rel) => (forall|i: int| 0 <= i < rel.len() - 1 ==> !names_contain(config.dirs@, #[trigger] rel[i]))
            && (rel.len() > 0 ==> !names_contain(config.files@, rel.last())),
        None => true,
    }
}

/// Whether a walked file counts (see `admitted`).
pub fn is_admitted(root: &str, path: &str, config: &IgnoreConfig) -> (r: bool)
    ensures
        r == admitted(root@, path@, *config),
{
    match crate::paths::strip_root(root, path) {
        None => true,
        Some(rel) => {
            let n = rel.len();
            if n == 0 {
                return true;
            }
            let mut i: usize = 0;
            while i + 1 < n
                invariant
                    n == rel@.len(),
                    n >= 1,
                    relative_components(root@, path@) == Some(views(rel@)),
                    i < n,
                    forall|j: int| 0 <= j < i ==> !names_contain(config.dirs@, #[trigger] views(rel@)[j]),
                decreases n - i,
            {
                assert(views(rel@)[i as int] == rel@[i as int]@);
                if contains_name(&config.dirs, rel[i].as_str()) {
                    assert(names_contain(config.dirs@, views(rel@)[i as int]));
                    return false;
                }
                i += 1;
            }
            assert(views(rel@).last() == rel@[n - 1]@);
            !contains_name(&config.files, rel[n - 1].as_str())
        },
    }
}

/// What extraction found in one walked file.
pub struct FileAnalysis {
    pub path: String,
    pub connections: Vec<DetectedConnection>,
    pub definitions: Vec<DetectedDefinition>,
}

/// The result of one scan.
pub struct ScanResult {
    pub root_path: String,
    pub files: Vec<String>,
    pub connections: Vec<ResolvedConnection>,
    pub definitions: Vec<DetectedDefinition>,
}

/// The analyses of the files that count, in the given order.
pub open spec fn kept(analyses: Seq<FileAnalysis>, root: Seq<char>, config: IgnoreConfig) -> Seq<FileAnalysis>
    decreases analyses.len(),
{
    if analyses.len() == 0 {
        analyses
    } else {
        let prev = kept(analyses.drop_last(), root, config);
        if admitted(root, analyses.last().path@, config) {
            prev.push(analyses.last())
        } else {
            prev
        }
    }
}

/// The normalised paths of the given analyses.
pub open spec fn cleaned_paths(a: Seq<FileAnalysis>) -> Seq<Seq<char>> {
    a.map_values(|f: FileAnalysis| cleaned(f.path@))
}

/// All connections of the given analyses, file after file.
pub open spec fn all_connections(a: Seq<FileAnalysis>) -> Seq<DetectedConnection>
    decreases a.len(),
{
    if a.len() == 0 {
        Seq::empty()
    } else {
        all_connections(a.drop_last()) + a.last().connections@
    }
}

/// All definitions of the given analyses, file after file.
pub open spec fn all_definitions(a: Seq<FileAnalysis>) -> Seq<DetectedDefinition>
    decreases a.len(),
{
    if a.len() == 0 {
        Seq::empty()
    } else {
        all_definitions(a.drop_last()) + a.last().definitions@
    }
}

/// The set of normalised paths of the given analyses.
pub open spec fn file_set(a: Seq<FileAnalysis>) -> Set<Seq<char>> {
    cleaned_paths(a).to_set()
}

/// A detected connection once resolved: normalised source, specifier, target.
pub open spec fn resolved_view(c: DetectedConnection, files: Set<Seq<char>>) -> (
    Seq<char>,
    Seq<char>,
    Option<Seq<char>>,
) {
    (
        cleaned(c.source_file@),
        c.imported_string@,
        resolution(c.source_file@, c.imported_string@, files),
    )
}

/// The view of a resolved connection.
pub open spec fn connection_view(c: ResolvedConnection) -> (Seq<char>, Seq<char>, Option<Seq<char>>) {
    (c.source_file@, c.imported_string@, opt_view(c.resolved_target))
}

/// Path order on paths.
pub open spec fn path_order() -> spec_fn(Seq<char>, Seq<char>) -> bool {
    |a: Seq<char>, b: Seq<char>| path_before(a, b)
}

/// Path order on strings.
pub open spec fn string_path_order() -> spec_fn(String, String) -> bool {
    |a: String, b: String| path_before(a@, b@)
}

pub(crate) fn string_before(_ctx: &(), a: &String, b: &String) -> (o: bool)
    ensures
        o == path_before(a@, b@),
{
    path_precedes(a.as_str(), b.as_str())
}

/// Whether every record of an analysis names the analysed file as its source.
pub open spec fn records_of(a: FileAnalysis) -> bool {
    &&& forall|i: int| 0 <= i < a.connections@.len() ==> (#[trigger] a.connections@[i]).source_file@ == a.path@
    &&& forall|i: int| 0 <= i < a.definitions@.len() ==> (#[trigger] a.definitions@[i]).source_file@ == a.path@
}

/// A definition as a scan reports it: its source path normalised.
pub open spec fn cleaned_definition(d: DetectedDefinition) -> (Seq<char>, Seq<char>, Seq<char>, usize) {
    (cleaned(d.source_file@), d.symbol_name@, d.kind@, d.line_number)
}

proof fn lemma_listed(files: Seq<String>, ks: Seq<FileAnalysis>, p: Seq<char>)
    requires
        views(files) == sorted_by(cleaned_paths(ks), path_order()),
        cleaned_paths(ks).contains(p),
    ensures
        path_set(files).contains(p),
{
    lemma_sorted_by_elements(cleaned_paths(ks), path_order());
    assert(views(files).contains(p));
    let j = choose|j: int| 0 <= j < views(files).len() && views(files)[j] == p;
    assert(files[j]@ == p);
}

/// A path with at least one component and no `.` or `..` among them, as a
/// directory walk yields.
pub open spec fn plain_path(p: Seq<char>) -> bool {
    &&& components(p).len() > 0
    &&& forall|i: int|
        0 <= i < components(p).len() ==> #[trigger] components(p)[i] != seq!['.'] && components(p)[i]
            != seq!['.', '.']
}

/// A walked file whose path names no `.` or `..` is listed under its own
/// components, so a listed file that comes from a file that counts lies below
/// no ignored directory either: its normalised path counts too.
pub proof fn lemma_listed_file_counts(root: Seq<char>, p: Seq<char>, config: IgnoreConfig)
    requires
        admitted(root, p, config),
        plain_path(p),
    ensures
        components(cleaned(p)) == components(p),
        admitted(root, cleaned(p), config),
{
    let c = components(p);
    lemma_components_well_formed(p);
    assert(is_clean(c)) by {
        assert forall|i: int| 0 <= i < c.len() implies (i == 0 && #[trigger] c[i] == seq!['/']) || is_plain_name(c[i]) by {
            if c[i] != seq!['/'] {
                assert(c[i].len() > 0 && no_sep(c[i]));
            }
        }
    }
    lemma_fold_of_clean(c);
    lemma_components_join(c);
}

/// Every kept analysis is of a file that counts.
proof fn lemma_kept_admitted(a: Seq<FileAnalysis>, root: Seq<char>, config: IgnoreConfig)
    ensures
        forall|k: int|
            0 <= k < kept(a, root, config).len() ==> admitted(root, (#[trigger] kept(a, root, config)[k]).path@, config),
    decreases a.len(),
{
    if a.len() > 0 {
        lemma_kept_admitted(a.drop_last(), root, config);
        let p = kept(a.drop_last(), root, config);
        if admitted(root, a.last().path@, config) {
            assert forall|k: int| 0 <= k < kept(a, root, config).len() implies admitted(
                root,
                (#[trigger] kept(a, root, config)[k]).path@,
                config,
            ) by {
                assert(kept(a, root, config) == p.push(a.last()));
                if k < p.len() {
                    assert(kept(a, root, config)[k] == p[k]);
                }
            }
        }
    }
}

/// Assembles a scan from what extraction found in each walked file. Files
/// below an ignored directory, and ignored files, are left out; the file list
/// is the normalised paths, sorted; each connection is resolved against the
/// set of those paths; definitions are kept as found, file after file, with
/// their source paths normalised. Every resolved target is one of the listed
/// files, and every listed file is the normalised path of a walked file that
/// counts; when the walked paths name no `.` or `..`, every listed file counts
/// itself, so none lies below an ignored directory.
pub fn assemble_scan(root_path: String, analyses: Vec<FileAnalysis>, config: &IgnoreConfig) -> (r:
    ScanResult)
    ensures
        r.root_path == root_path,
        views(r.files@) == sorted_by(cleaned_paths(kept(analyses@, root_path@, *config)), path_order()),
        r.connections@.len() == all_connections(kept(analyses@, root_path@, *config)).len(),
        forall|i: int|
            0 <= i < r.connections@.len() ==> connection_view(#[trigger] r.connections@[i])
                == resolved_view(
                all_connections(kept(analyses@, root_path@, *config))[i],
                file_set(kept(analyses@, root_path@, *config)),
            ),
        r.definitions@.len() == all_definitions(kept(analyses@, root_path@, *config)).len(),
        forall|i: int|
            0 <= i < r.definitions@.len() ==> definition_view(#[trigger] r.definitions@[i])
                == cleaned_definition(all_definitions(kept(analyses@, root_path@, *config))[i]),
        (forall|k: int| 0 <= k < analyses@.len() ==> records_of(#[trigger] analyses@[k])) ==> ({
            &&& forall|i: int|
                0 <= i < r.connections@.len() ==> path_set(r.files@).contains(
                    (#[trigger] r.connections@[i]).source_file@,
                )
            &&& forall|i: int|
                0 <= i < r.definitions@.len() ==> path_set(r.files@).contains(
                    (#[trigger] r.definitions@[i]).source_file@,
                )
        }),
        forall|i: int|
            0 <= i < r.connections@.len() ==> ((#[trigger] r.connections@[i]).resolved_target matches Some(
                t,
            ) ==> path_set(r.files@).contains(t@)),
        forall|j: int|
            0 <= j < r.files@.len() ==> exists|k: int|
                0 <= k < kept(analyses@, root_path@, *config).len() && cleaned(
                    kept(analyses@, root_path@, *config)[k].path@,
                ) == (#[trigger] r.files@[j])@ && admitted(
                    root_path@,
                    kept(analyses@, root_path@, *config)[k].path@,
                    *config,
                ),
        (forall|k: int| 0 <= k < analyses@.len() ==> plain_path((#[trigger] analyses@[k]).path@)) ==> forall|j: int|
            0 <= j < r.files@.len() ==> admitted(root_path@, (#[trigger] r.files@[j])@, *config),
{
    let ghost all = analyses@;
    let ghost ks = kept(all, root_path@, *config);
    let mut paths: Vec<String> = Vec::new();
    let mut raw: Vec<DetectedConnection> = Vec::new();
    let mut definitions: Vec<DetectedDefinition> = Vec::new();
    let mut project = ProjectFiles::new();
    let ghost mut seen: Seq<FileAnalysis> = Seq::empty();
    assert(views(paths@) =~= cleaned_paths(seen));
    assert(project@ =~= path_set(paths@));
    for a in it: analyses
        invariant
            all == analyses@,
            ks == kept(all, root_path@, *config),
            it.history() == all.subrange(0, it.index()),
            seen == kept(it.history(), root_path@, *config),
            views(paths@) == cleaned_paths(seen),
            project@ == path_set(paths@),
            raw@ == all_connections(seen),
            definitions@ == all_definitions(seen),
    {
        let ghost ga = a;
        let ghost hist = it.history();
        if is_admitted(root_path.as_str(), a.path.as_str(), config) {
            let p = clean_path(a.path.as_str());
            let ghost before_paths = paths@;
            paths.push(p.clone());
            project.insert(p);
            let ghost before_raw = raw@;
            let ghost before_defs = definitions@;
            let mut conns = a.connections;
            let mut defs = a.definitions;
            assert(conns@ == ga.connections@);
            raw.append(&mut conns);
            definitions.append(&mut defs);
            proof {
                assert(seen.push(ga).drop_last() =~= seen);
                seen = seen.push(ga);
                assert(raw@ == before_raw + ga.connections@);
                assert(views(paths@) =~= views(before_paths).push(p@));
                assert(cleaned_paths(seen) =~= cleaned_paths(seen.drop_last()).push(cleaned(ga.path@)));
                lemma_path_set_push(before_paths, p);
            }
        }
        proof {
            assert(hist.push(ga).drop_last() =~= hist);
        }
    }
    assert(all.subrange(0, all.len() as int) =~= all);
    assert(seen == ks);
    let mut connections: Vec<ResolvedConnection> = Vec::new();
    for i in 0..raw.len()
        invariant
            connections@.len() == i,
            forall|j: int|
                0 <= j < i ==> connection_view(#[trigger] connections@[j]) == resolved_view(raw@[j], project@),
    {
        let c = &raw[i];
        let target = resolve_import_path(c.source_file.as_str(), c.imported_string.as_str(), &project);
        connections.push(
            ResolvedConnection {
                source_file: clean_path(c.source_file.as_str()),
                imported_string: c.imported_string.clone(),
                resolved_target: target,
            },
        );
    }
    proof {
        assert forall|q: Seq<char>| path_set(paths@).contains(q) <==> file_set(ks).contains(q) by {
            assert(views(paths@).len() == paths@.len());
            if path_set(paths@).contains(q) {
                let i = choose|i: int| 0 <= i < paths@.len() && paths@[i]@ == q;
                assert(views(paths@)[i] == q);
                assert(cleaned_paths(ks)[i] == q);
                assert(cleaned_paths(ks).contains(q));
            }
            if file_set(ks).contains(q) {
                assert(cleaned_paths(ks).contains(q));
                let i = choose|i: int| 0 <= i < cleaned_paths(ks).len() && cleaned_paths(ks)[i] == q;
                assert(views(paths@)[i] == q);
                assert(paths@[i]@ == q);
            }
        }
        assert(project@ =~= file_set(ks));
    }
    let ghost unsorted = paths@;
    let files = stable_sort(paths, &(), string_before, Ghost(string_path_order()));
    proof {
        lemma_views_sorted(unsorted, string_path_order(), path_order());
        lemma_sorted_by_elements(unsorted, string_path_order());
        lemma_kept_admitted(all, root_path@, *config);
        assert forall|i: int| 0 <= i < connections@.len() implies ((#[trigger] connections@[i]).resolved_target matches Some(
            t,
        ) ==> path_set(files@).contains(t@)) by {
            let c = raw@[i];
            lemma_resolved_target_is_project_file(c.source_file@, c.imported_string@, project@);
            if let Some(t) = connections@[i].resolved_target {
                assert(path_set(unsorted).contains(t@));
                let k = choose|k: int| 0 <= k < unsorted.len() && unsorted[k]@ == t@;
                assert(unsorted.contains(unsorted[k]));
                assert(files@.contains(unsorted[k]));
                let m = choose|m: int| 0 <= m < files@.len() && files@[m] == unsorted[k];
                assert(files@[m]@ == t@);
            }
        }
        assert forall|j: int| 0 <= j < files@.len() implies exists|k: int|
            0 <= k < ks.len() && cleaned(ks[k].path@) == (#[trigger] files@[j])@ && admitted(
                root_path@,
                ks[k].path@,
                *config,
            ) by {
            assert(files@.contains(files@[j]));
            assert(unsorted.contains(files@[j]));
            let k = choose|k: int| 0 <= k < unsorted.len() && unsorted[k] == files@[j];
            assert(views(unsorted)[k] == cleaned_paths(ks)[k]);
            assert(admitted(root_path@, ks[k].path@, *config));
        }
    }
    let mut cleaned_definitions: Vec<DetectedDefinition> = Vec::new();
    for i in 0..definitions.len()
        invariant
            cleaned_definitions@.len() == i,
            forall|j: int|
                0 <= j < i ==> definition_view(#[trigger] cleaned_definitions@[j]) == cleaned_definition(
                    definitions@[j],
                ),
    {
        let d = &definitions[i];
        cleaned_definitions.push(
            DetectedDefinition {
                source_file: clean_path(d.source_file.as_str()),
                symbol_name: d.symbol_name.clone(),
                kind: d.kind.clone(),
                line_number: d.line_number,
            },
        );
    }
    proof {
        if forall|k: int| 0 <= k < all.len() ==> records_of(#[trigger] all[k]) {
            lemma_kept_members(all, root_path@, *config);
            lemma_connection_members(ks);
            lemma_definition_members(ks);
            lemma_path_members(ks);
            assert forall|i: int| 0 <= i < connections@.len() implies path_set(files@).contains(
                (#[trigger] connections@[i]).source_file@,
            ) by {
                let c = raw@[i];
                assert(all_connections(ks).contains(c));
                let f = choose|f: FileAnalysis| ks.contains(f) && f.connections@.contains(c);
                let k = choose|k: int| 0 <= k < all.len() && all[k] == f;
                assert(records_of(all[k]));
                let m = choose|m: int| 0 <= m < f.connections@.len() && f.connections@[m] == c;
                assert(c.source_file@ == f.path@);
                lemma_listed(files@, ks, cleaned(f.path@));
            }
            assert forall|i: int| 0 <= i < cleaned_definitions@.len() implies path_set(files@).contains(
                (#[trigger] cleaned_definitions@[i]).source_file@,
            ) by {
                let d = definitions@[i];
                assert(all_definitions(ks).contains(d));
                let f = choose|f: FileAnalysis| ks.contains(f) && f.definitions@.contains(d);
                let k = choose|k: int| 0 <= k < all.len() && all[k] == f;
                assert(records_of(all[k]));
                let m = choose|m: int| 0 <= m < f.definitions@.len() && f.definitions@[m] == d;
                assert(d.source_file@ == f.path@);
                lemma_listed(files@, ks, cleaned(f.path@));
            }
        }
    }
    proof {
        if forall|k: int| 0 <= k < all.len() ==> plain_path((#[trigger] all[k]).path@) {
            lemma_kept_members(all, root_path@, *config);
            assert forall|j: int| 0 <= j < files@.len() implies admitted(root_path@, (#[trigger] files@[j])@, *config) by {
                let k = choose|k: int|
                    0 <= k < ks.len() && cleaned(ks[k].path@) == files@[j]@ && admitted(root_path@, ks[k].path@, *config);
                let f = ks[k];
                assert(ks.contains(f));
                assert(all.contains(f));
                let m = choose|m: int| 0 <= m < all.len() && all[m] == f;
                assert(plain_path(all[m].path@));
                lemma_listed_file_counts(root_path@, f.path@, *config);
            }
        }
    }
    ScanResult { root_path, files, connections, definitions: cleaned_definitions }
}

/// The resolved views of all connections that a scan over `a` reports.
pub open spec fn resolved_set(a: Seq<FileAnalysis>, root: Seq<char>, config: IgnoreConfig) -> Set<
    (Seq<char>, Seq<char>, Option<Seq<char>>),
> {
    let k = kept(a, root, config);
    Set::new(
        |v: (Seq<char>, Seq<char>, Option<Seq<char>>)|
            exists|c: DetectedConnection| all_connections(k).contains(c) && v == resolved_view(c, file_set(k)),
    )
}

/// The normalised views of all definitions that a scan over `a` reports.
pub open spec fn definition_set(a: Seq<FileAnalysis>, root: Seq<char>, config: IgnoreConfig) -> Set<
    (Seq<char>, Seq<char>, Seq<char>, usize),
> {
    let k = kept(a, root, config);
    Set::new(
        |v: (Seq<char>, Seq<char>, Seq<char>, usize)|
            exists|d: DetectedDefinition| all_definitions(k).contains(d) && v == cleaned_definition(d),
    )
}

proof fn lemma_kept_members(a: Seq<FileAnalysis>, root: Seq<char>, config: IgnoreConfig)
    ensures
        forall|f: FileAnalysis| #[trigger] kept(a, root, config).contains(f) <==> (a.contains(f) && admitted(root, f.path@, config)),
    decreases a.len(),
{
    if a.len() > 0 {
        let t = a.drop_last();
        lemma_kept_members(t, root, config);
        let p = kept(t, root, config);
        assert forall|f: FileAnalysis| #[trigger] kept(a, root, config).contains(f) <==> (a.contains(f) && admitted(root, f.path@, config)) by {
            if a.contains(f) && f != a.last() {
                let i = choose|i: int| 0 <= i < a.len() && a[i] == f;
                assert(t[i] == f);
            }
            if t.contains(f) {
                let i = choose|i: int| 0 <= i < t.len() && t[i] == f;
                assert(a[i] == f);
            }
            if f == a.last() {
                assert(a[a.len() - 1] == f);
            }
            if admitted(root, a.last().path@, config) {
                assert(kept(a, root, config) == p.push(a.last()));
                if p.push(a.last()).contains(f) {
                    let i = choose|i: int| 0 <= i < p.len() + 1 && p.push(a.last())[i] == f;
                    if i < p.len() {
                        assert(p[i] == f);
                    }
                }
                if p.contains(f) {
                    let i = choose|i: int| 0 <= i < p.len() && p[i] == f;
                    assert(p.push(a.last())[i] == f);
                }
                if f == a.last() {
                    assert(p.push(a.last())[p.len() as int] == f);
                }
            }
        }
    }
}

proof fn lemma_connection_members(k: Seq<FileAnalysis>)
    ensures
        forall|c: DetectedConnection| #[trigger] all_connections(k).contains(c) <==> exists|f: FileAnalysis|
            k.contains(f) && f.connections@.contains(c),
    decreases k.len(),
{
    if k.len() > 0 {
        let t = k.drop_last();
        lemma_connection_members(t);
        let x = all_connections(t);
        let y = k.last().connections@;
        assert(all_connections(k) == x + y);
        assert forall|c: DetectedConnection| #[trigger] all_connections(k).contains(c) <==> exists|f: FileAnalysis|
            k.contains(f) && f.connections@.contains(c) by {
            if (x + y).contains(c) {
                let i = choose|i: int| 0 <= i < x.len() + y.len() && (x + y)[i] == c;
                if i < x.len() {
                    assert(x[i] == c);
                    assert(x.contains(c));
                    let f = choose|f: FileAnalysis| t.contains(f) && f.connections@.contains(c);
                    let j = choose|j: int| 0 <= j < t.len() && t[j] == f;
                    assert(k[j] == f);
                    assert(k.contains(f) && f.connections@.contains(c));
                } else {
                    assert(y[i - x.len()] == c);
                    assert(y.contains(c));
                    assert(k[k.len() - 1] == k.last());
                    assert(k.contains(k.last()) && k.last().connections@.contains(c));
                }
            }
            if exists|f: FileAnalysis| k.contains(f) && f.connections@.contains(c) {
                let f = choose|f: FileAnalysis| k.contains(f) && f.connections@.contains(c);
                let j = choose|j: int| 0 <= j < k.len() && k[j] == f;
                let m = choose|m: int| 0 <= m < f.connections@.len() && f.connections@[m] == c;
                if j < k.len() - 1 {
                    assert(t[j] == f);
                    assert(t.contains(f));
                    assert(x.contains(c));
                    let i = choose|i: int| 0 <= i < x.len() && x[i] == c;
                    assert((x + y)[i] == c);
                } else {
                    assert((x + y)[x.len() + m] == c);
                }
            }
        }
    }
}

proof fn lemma_definition_members(k: Seq<FileAnalysis>)
    ensures
        forall|d: DetectedDefinition| #[trigger] all_definitions(k).contains(d) <==> exists|f: FileAnalysis|
            k.contains(f) && f.definitions@.contains(d),
    decreases k.len(),
{
    if k.len() > 0 {
        let t = k.drop_last();
        lemma_definition_members(t);
        let x = all_definitions(t);
        let y = k.last().definitions@;
        assert(all_definitions(k) == x + y);
        assert forall|d: DetectedDefinition| #[trigger] all_definitions(k).contains(d) <==> exists|f: FileAnalysis|
            k.contains(f) && f.definitions@.contains(d) by {
            if (x + y).contains(d) {
                let i = choose|i: int| 0 <= i < x.len() + y.len() && (x + y)[i] == d;
                if i < x.len() {
                    assert(x[i] == d);
                    assert(x.contains(d));
                    let f = choose|f: FileAnalysis| t.contains(f) && f.definitions@.contains(d);
                    let j = choose|j: int| 0 <= j < t.len() && t[j] == f;
                    assert(k[j] == f);
                    assert(k.contains(f) && f.definitions@.contains(d));
                } else {
                    assert(y[i - x.len()] == d);
                    assert(y.contains(d));
                    assert(k[k.len() - 1] == k.last());
                    assert(k.contains(k.last()) && k.last().definitions@.contains(d));
                }
            }
            if exists|f: FileAnalysis| k.contains(f) && f.definitions@.contains(d) {
                let f = choose|f: FileAnalysis| k.contains(f) && f.definitions@.contains(d);
                let j = choose|j: int| 0 <= j < k.len() && k[j] == f;
                let m = choose|m: int| 0 <= m < f.definitions@.len() && f.definitions@[m] == d;
                if j < k.len() - 1 {
                    assert(t[j] == f);
                    assert(t.contains(f));
                    assert(x.contains(d));
                    let i = choose|i: int| 0 <= i < x.len() && x[i] == d;
                    assert((x + y)[i] == d);
                } else {
                    assert((x + y)[x.len() + m] == d);
                }
            }
        }
    }
}

proof fn lemma_path_members(k: Seq<FileAnalysis>)
    ensures
        forall|p: Seq<char>| #[trigger] cleaned_paths(k).contains(p) <==> exists|f: FileAnalysis|
            k.contains(f) && cleaned(f.path@) == p,
{
    assert forall|p: Seq<char>| #[trigger] cleaned_paths(k).contains(p) <==> exists|f: FileAnalysis|
        k.contains(f) && cleaned(f.path@) == p by {
        if cleaned_paths(k).contains(p) {
            let i = choose|i: int| 0 <= i < k.len() && cleaned_paths(k)[i] == p;
            assert(k.contains(k[i]));
        }
        if exists|f: FileAnalysis| k.contains(f) && cleaned(f.path@) == p {
            let f = choose|f: FileAnalysis| k.contains(f) && cleaned(f.path@) == p;
            let i = choose|i: int| 0 <= i < k.len() && k[i] == f;
            assert(cleaned_paths(k)[i] == p);
        }
    }
}

/// The view of a detected connection: source file and specifier.
pub open spec fn detected_view(c: DetectedConnection) -> (Seq<char>, Seq<char>) {
    (c.source_file@, c.imported_string@)
}

/// What an analysis holds, as plain values.
pub open spec fn analysis_view(f: FileAnalysis) -> (
    Seq<char>,
    Seq<(Seq<char>, Seq<char>)>,
    Seq<(Seq<char>, Seq<char>, Seq<char>, usize)>,
) {
    (
        f.path@,
        f.connections@.map_values(|c: DetectedConnection| detected_view(c)),
        f.definitions@.map_values(|d: DetectedDefinition| definition_view(d)),
    )
}

/// Every analysis of `a1` has one of the same view in `a2`.
pub open spec fn views_covered(a1: Seq<FileAnalysis>, a2: Seq<FileAnalysis>) -> bool {
    forall|f: FileAnalysis|
        #[trigger] a1.contains(f) ==> exists|g: FileAnalysis| a2.contains(g) && analysis_view(g) == analysis_view(f)
}

proof fn lemma_file_set_covered(root: Seq<char>, a1: Seq<FileAnalysis>, a2: Seq<FileAnalysis>, config: IgnoreConfig)
    requires
        views_covered(a1, a2),
    ensures
        forall|p: Seq<char>| #[trigger] file_set(kept(a1, root, config)).contains(p) ==> file_set(kept(a2, root, config)).contains(p),
{
    let k1 = kept(a1, root, config);
    let k2 = kept(a2, root, config);
    lemma_kept_members(a1, root, config);
    lemma_kept_members(a2, root, config);
    lemma_path_members(k1);
    lemma_path_members(k2);
    assert forall|p: Seq<char>| #[trigger] file_set(k1).contains(p) implies file_set(k2).contains(p) by {
        assert(cleaned_paths(k1).contains(p));
        let f = choose|f: FileAnalysis| k1.contains(f) && cleaned(f.path@) == p;
        assert(a1.contains(f));
        let g = choose|g: FileAnalysis| a2.contains(g) && analysis_view(g) == analysis_view(f);
        assert(g.path@ == f.path@);
        assert(k2.contains(g));
        assert(cleaned_paths(k2).contains(p));
    }
}

proof fn lemma_reports_covered(root: Seq<char>, a1: Seq<FileAnalysis>, a2: Seq<FileAnalysis>, config: IgnoreConfig)
    requires
        views_covered(a1, a2),
        file_set(kept(a1, root, config)) == file_set(kept(a2, root, config)),
    ensures
        forall|v| #[trigger] resolved_set(a1, root, config).contains(v) ==> resolved_set(a2, root, config).contains(v),
        forall|v| #[trigger] definition_set(a1, root, config).contains(v) ==> definition_set(a2, root, config).contains(v),
{
    let k1 = kept(a1, root, config);
    let k2 = kept(a2, root, config);
    lemma_kept_members(a1, root, config);
    lemma_kept_members(a2, root, config);
    lemma_connection_members(k1);
    lemma_connection_members(k2);
    lemma_definition_members(k1);
    lemma_definition_members(k2);
    assert forall|v| #[trigger] resolved_set(a1, root, config).contains(v) implies resolved_set(a2, root, config).contains(v) by {
        let c = choose|c: DetectedConnection| all_connections(k1).contains(c) && v == resolved_view(c, file_set(k1));
        let f = choose|f: FileAnalysis| k1.contains(f) && f.connections@.contains(c);
        let m = choose|m: int| 0 <= m < f.connections@.len() && f.connections@[m] == c;
        assert(a1.contains(f));
        let g = choose|g: FileAnalysis| a2.contains(g) && analysis_view(g) == analysis_view(f);
        assert(g.path@ == f.path@);
        assert(k2.contains(g));
        assert(analysis_view(g).1.len() == analysis_view(f).1.len());
        assert(analysis_view(g).1[m] == analysis_view(f).1[m]);
        let c2 = g.connections@[m];
        assert(g.connections@.contains(c2));
        assert(all_connections(k2).contains(c2));
        assert(v == resolved_view(c2, file_set(k2)));
    }
    assert forall|v| #[trigger] definition_set(a1, root, config).contains(v) implies definition_set(a2, root, config).contains(v) by {
        let d = choose|d: DetectedDefinition| all_definitions(k1).contains(d) && v == cleaned_definition(d);
        let f = choose|f: FileAnalysis| k1.contains(f) && f.definitions@.contains(d);
        let m = choose|m: int| 0 <= m < f.definitions@.len() && f.definitions@[m] == d;
        assert(a1.contains(f));
        let g = choose|g: FileAnalysis| a2.contains(g) && analysis_view(g) == analysis_view(f);
        assert(g.path@ == f.path@);
        assert(k2.contains(g));
        assert(analysis_view(g).2.len() == analysis_view(f).2.len());
        assert(analysis_view(g).2[m] == analysis_view(f).2[m]);
        let d2 = g.definitions@[m];
        assert(g.definitions@.contains(d2));
        assert(all_definitions(k2).contains(d2));
        assert(v == cleaned_definition(d2));
    }
}

/// Walking the same files in another order (as a parallel walk may), with each
/// file analysed to the same paths, specifiers and definitions, does not change
/// what a scan reports: the same set of files, the same set of resolved
/// connections and the same set of definitions.
pub proof fn lemma_scan_independent_of_walk_order(
    root: Seq<char>,
    a1: Seq<FileAnalysis>,
    a2: Seq<FileAnalysis>,
    config: IgnoreConfig,
)
    requires
        views_covered(a1, a2),
        views_covered(a2, a1),
    ensures
        sorted_by(cleaned_paths(kept(a1, root, config)), path_order()).to_set() == sorted_by(
            cleaned_paths(kept(a2, root, config)),
            path_order(),
        ).to_set(),
        file_set(kept(a1, root, config)) == file_set(kept(a2, root, config)),
        resolved_set(a1, root, config) == resolved_set(a2, root, config),
        definition_set(a1, root, config) == definition_set(a2, root, config),
{
    let k1 = kept(a1, root, config);
    let k2 = kept(a2, root, config);
    lemma_file_set_covered(root, a1, a2, config);
    lemma_file_set_covered(root, a2, a1, config);
    assert(file_set(k1) =~= file_set(k2));
    lemma_reports_covered(root, a1, a2, config);
    lemma_reports_covered(root, a2, a1, config);
    assert(resolved_set(a1, root, config) =~= resolved_set(a2, root, config));
    assert(definition_set(a1, root, config) =~= definition_set(a2, root, config));
    lemma_sorted_by_elements(cleaned_paths(k1), path_order());
    lemma_sorted_by_elements(cleaned_paths(k2), path_order());
    let s1 = sorted_by(cleaned_paths(k1), path_order());
    let s2 = sorted_by(cleaned_paths(k2), path_order());
    assert forall|p: Seq<char>| s1.to_set().contains(p) <==> s2.to_set().contains(p) by {
        assert(s1.to_set().contains(p) == s1.contains(p));
        assert(s2.to_set().contains(p) == s2.contains(p));
        assert(file_set(k1).contains(p) == cleaned_paths(k1).contains(p));
        assert(file_set(k2).contains(p) == cleaned_paths(k2).contains(p));
    }
    assert(s1.to_set() =~= s2.to_set());
}

/// Whether an analysis holds what extracting its file with `content` yields
/// (as `analyze_file_content` states it).
pub open spec fn analysed_from(f: FileAnalysis, content: Seq<char>) -> bool {
    &&& connections_match(f.connections@, f.path@, file_specifiers(f.path@, content))
    &&& definitions_match(f.definitions@, f.path@, file_definitions(f.path@, content))
}

/// Extraction is a function of the file's path and contents: two analyses of
/// the same path with the same contents have the same view, so an unchanged
/// tree walked twice gives analyses that cover each other.
pub proof fn lemma_analysis_determined(f: FileAnalysis, g: FileAnalysis, content: Seq<char>)
    requires
        analysed_from(f, content),
        analysed_from(g, content),
        f.path@ == g.path@,
    ensures
        analysis_view(f) == analysis_view(g),
{
    let cf = f.connections@.map_values(|c: DetectedConnection| detected_view(c));
    let cg = g.connections@.map_values(|c: DetectedConnection| detected_view(c));
    assert forall|i: int| 0 <= i < cf.len() implies cf[i] == cg[i] by {
        assert(f.connections@[i].source_file@ == f.path@);
        assert(g.connections@[i].source_file@ == g.path@);
    }
    assert(cf =~= cg);
    let df = f.definitions@.map_values(|d: DetectedDefinition| definition_view(d));
    let dg = g.definitions@.map_values(|d: DetectedDefinition| definition_view(d));
    assert forall|i: int| 0 <= i < df.len() implies df[i] == dg[i] by {
        assert(f.definitions@[i].source_file@ == f.path@);
        assert(g.definitions@[i].source_file@ == g.path@);
    }
    assert(df =~= dg);
}

} // verus!
