//! Resolution of relative import specifiers against the set of project files.
use vstd::prelude::*;
use vstd::hash_set::StringHashSet;
use crate::paths::{lemma_cleaned_idempotent, clean_path, cleaned, extension_chars, extension_of, join_path, join_under, parent_dir, parent_of};
use crate::text::{chars_of, contains_char, lemma_path_set_push, path_set, views};

verus! {

/// The files of one scan, by normalised path: the universe that imports are
/// resolved against.
pub struct ProjectFiles {
    set: StringHashSet,
}

impl View for ProjectFiles {
    type V = Set<Seq<char>>;

    closed spec fn view(&self) -> Set<Seq<char>> {
        self.set@
    }
}

impl ProjectFiles {
    /// An empty file set.
    pub fn new() -> (r: ProjectFiles)
        ensures
            r@ == Set::<Seq<char>>::empty(),
    {
        ProjectFiles { set: StringHashSet::new() }
    }

    /// Adds one path.
    pub fn insert(&mut self, path: String)
        ensures
            final(self)@ == old(self)@.insert(path@),
    {
        self.set.insert(path);
    }

    /// Whether `path` is one of the files.
    pub fn contains(&self, path: &str) -> (r: bool)
        ensures
            r == self@.contains(path@),
    {
        self.set.contains(path)
    }

    /// The set holding exactly the given paths.
    pub fn from_paths(paths: &Vec<String>) -> (r: ProjectFiles)
        ensures
            r@ == path_set(paths@),
    {
        let mut files = ProjectFiles::new();
        for i in 0..paths.len()
            invariant
                files@ == path_set(paths@.subrange(0, i as int)),
        {
            files.insert(paths[i].clone());
            proof {
                lemma_path_set_push(paths@.subrange(0, i as int), paths@[i as int]);
                assert(paths@.subrange(0, i + 1) =~= paths@.subrange(0, i as int).push(paths@[i as int]));
            }
        }
        assert(paths@.subrange(0, paths@.len() as int) =~= paths@);
        files
    }
}

/// The view of an optional string.
pub open spec fn opt_view(r: Option<String>) -> Option<Seq<char>> {
    match r {
        Some(s) => Some(s@),
        None => None,
    }
}

/// A specifier is resolved inside the project only when it starts with `.`
/// and holds no `:`.
pub open spec fn is_relative_specifier(s: Seq<char>) -> bool {
    s.len() > 0 && s[0] == '.' && !s.contains(':')
}

/// The extensions tried, in order, after the path itself.
pub open spec fn source_extensions() -> Seq<Seq<char>> {
    seq![".js"@, ".jsx"@, ".ts"@, ".tsx"@, ".mjs"@, ".cjs"@]
}

/// The index files tried, in order, when the path names a directory.
pub open spec fn index_names() -> Seq<Seq<char>> {
    seq!["index.js"@, "index.jsx"@, "index.ts"@, "index.tsx"@, "index.mjs"@, "index.cjs"@]
}

/// Whether `base` already carries the extension `ext` (given with its dot).
pub open spec fn has_extension(base: Seq<char>, ext: Seq<char>) -> bool {
    extension_of(base) == Some(ext.drop_first())
}

/// The first `n` extension candidates for `base`, skipping an extension that
/// `base` already has.
pub open spec fn extension_candidates(base: Seq<char>, n: nat) -> Seq<Seq<char>>
    decreases n,
{
    if n == 0 {
        Seq::empty()
    } else {
        let prev = extension_candidates(base, (n - 1) as nat);
        let ext = source_extensions()[n - 1];
        if has_extension(base, ext) {
            prev
        } else {
            prev.push(cleaned(base + ext))
        }
    }
}

/// The first `n` index-file candidates for `base`.
pub open spec fn index_candidates(base: Seq<char>, n: nat) -> Seq<Seq<char>>
    decreases n,
{
    if n == 0 {
        Seq::empty()
    } else {
        index_candidates(base, (n - 1) as nat).push(cleaned(join_path(base, index_names()[n - 1])))
    }
}

/// Every candidate for the normalised base path, in the order they are tried.
pub open spec fn candidates(base: Seq<char>) -> Seq<Seq<char>> {
    seq![cleaned(base)] + extension_candidates(base, 6) + index_candidates(base, 6)
}

/// The first of `c` that is in `files`.
pub open spec fn first_member(c: Seq<Seq<char>>, files: Set<Seq<char>>) -> Option<Seq<char>>
    decreases c.len(),
{
    if c.len() == 0 {
        None
    } else if files.contains(c[0]) {
        Some(c[0])
    } else {
        first_member(c.drop_first(), files)
    }
}

/// The normalised path that a relative specifier names from `source`.
pub open spec fn import_base(source: Seq<char>, spec: Seq<char>) -> Option<Seq<char>> {
    match parent_dir(source) {
        Some(dir) => Some(cleaned(join_path(dir, spec))),
        None => None,
    }
}

/// The file that `spec`, written in `source`, resolves to among `files`.
pub open spec fn resolution(source: Seq<char>, spec: Seq<char>, files: Set<Seq<char>>) -> Option<
    Seq<char>,
> {
    if !is_relative_specifier(spec) {
        None
    } else {
        match import_base(source, spec) {
            Some(base) => first_member(candidates(base), files),
            None => None,
        }
    }
}

fn extension_suffix(i: usize) -> (r: &'static str)
    requires
        i < 6,
    ensures
        r@ == source_extensions()[i as int],
{
    match i {
        0 => ".js",
        1 => ".jsx",
        2 => ".ts",
        3 => ".tsx",
        4 => ".mjs",
        _ => ".cjs",
    }
}

fn index_name(i: usize) -> (r: &'static str)
    requires
        i < 6,
    ensures
        r@ == index_names()[i as int],
{
    match i {
        0 => "index.js",
        1 => "index.jsx",
        2 => "index.ts",
        3 => "index.tsx",
        4 => "index.mjs",
        _ => "index.cjs",
    }
}

/// Every candidate for the normalised base path, in the order they are tried.
pub fn candidate_paths(base: &str) -> (r: Vec<String>)
    ensures
        views(r@) == candidates(base@),
{
    let mut out: Vec<String> = Vec::new();
    out.push(clean_path(base));
    let base_chars = chars_of(base);
    let ext = extension_chars(&base_chars);
    for i in 0..6
        invariant
            base_chars@ == base@,
            match ext {
                Some(e) => extension_of(base@) == Some(e@),
                None => extension_of(base@) is None,
            },
            views(out@) == seq![cleaned(base@)] + extension_candidates(base@, i as nat),
    {
        let suffix = extension_suffix(i);
        let suffix_chars = chars_of(suffix);
        let duplicate = match &ext {
            Some(e) => suffix_chars.len() > 0 && crate::text::chars_equal(
                e,
                &crate::text::sub_chars(&suffix_chars, 1, suffix_chars.len()),
            ),
            None => false,
        };
        proof {
            assert(suffix@.drop_first() =~= suffix@.subrange(1, suffix@.len() as int));
            assert(suffix@.len() > 0) by {
                reveal_strlit(".js");
                reveal_strlit(".jsx");
                reveal_strlit(".ts");
                reveal_strlit(".tsx");
                reveal_strlit(".mjs");
                reveal_strlit(".cjs");
            }
        }
        if !duplicate {
            let candidate = clean_path(&String::from_str(base).concat(suffix));
            let ghost before = out@;
            out.push(candidate);
            assert(views(out@) =~= views(before).push(candidate@));
        }
    }
    let ghost file_part = views(out@);
    for i in 0..6
        invariant
            views(out@) == file_part + index_candidates(base@, i as nat),
    {
        let candidate = clean_path(&join_under(base, index_name(i)));
        let ghost before = out@;
        out.push(candidate);
        assert(views(out@) =~= views(before).push(candidate@));
    }
    out
}

proof fn lemma_first_member_step(c: Seq<Seq<char>>, i: int, files: Set<Seq<char>>)
    requires
        0 <= i < c.len(),
        !files.contains(c[i]),
    ensures
        first_member(c.subrange(i, c.len() as int), files) == first_member(
            c.subrange(i + 1, c.len() as int),
            files,
        ),
{
    assert(c.subrange(i, c.len() as int).drop_first() =~= c.subrange(i + 1, c.len() as int));
}

/// The first of `cands` that is one of `files`.
fn first_present(cands: &Vec<String>, files: &ProjectFiles) -> (r: Option<String>)
    ensures
        opt_view(r) == first_member(views(cands@), files@),
{
    let ghost c = views(cands@);
    assert(c.subrange(0, c.len() as int) =~= c);
    let mut i: usize = 0;
    while i < cands.len()
        invariant
            i <= cands@.len(),
            c == views(cands@),
            first_member(c, files@) == first_member(c.subrange(i as int, c.len() as int), files@),
        decreases cands.len() - i,
    {
        if files.contains(cands[i].as_str()) {
            return Some(cands[i].clone());
        }
        proof {
            lemma_first_member_step(c, i as int, files@);
        }
        i += 1;
    }
    None
}

/// Resolves the specifier `import_str`, written in `source_file`, to a file of
/// `project_files`: the first candidate present in the set, or `None` for a
/// specifier that is not relative or that matches no file.
pub fn resolve_import_path(source_file: &str, import_str: &str, project_files: &ProjectFiles) -> (r:
    Option<String>)
    ensures
        opt_view(r) == resolution(source_file@, import_str@, project_files@),
{
    let spec_chars = chars_of(import_str);
    if spec_chars.len() == 0 || spec_chars[0] != '.' || contains_char(&spec_chars, ':') {
        return None;
    }
    let dir = match parent_of(source_file) {
        Some(d) => d,
        None => return None,
    };
    let base = clean_path(&join_under(&dir, import_str));
    let cands = candidate_paths(&base);
    first_present(&cands, project_files)
}

proof fn lemma_first_member(c: Seq<Seq<char>>, files: Set<Seq<char>>)
    ensures
        first_member(c, files) matches Some(t) ==> exists|i: int|
            0 <= i < c.len() && c[i] == t && files.contains(t) && forall|j: int|
                0 <= j < i ==> !files.contains(#[trigger] c[j]),
        first_member(c, files) is None ==> forall|j: int|
            0 <= j < c.len() ==> !files.contains(#[trigger] c[j]),
    decreases c.len(),
{
    if c.len() > 0 && !files.contains(c[0]) {
        let rest = c.drop_first();
        lemma_first_member(rest, files);
        if let Some(t) = first_member(c, files) {
            let i = choose|i: int|
                0 <= i < rest.len() && rest[i] == t && files.contains(t) && forall|j: int|
                    0 <= j < i ==> !files.contains(#[trigger] rest[j]);
            assert(c[i + 1] == t);
            assert forall|j: int| 0 <= j < i + 1 implies !files.contains(#[trigger] c[j]) by {
                if j > 0 {
                    assert(c[j] == rest[j - 1]);
                }
            }
        } else {
            assert forall|j: int| 0 <= j < c.len() implies !files.contains(#[trigger] c[j]) by {
                if j > 0 {
                    assert(c[j] == rest[j - 1]);
                }
            }
        }
    } else if c.len() > 0 {
        assert(c[0] == c[0]);
    }
}

/// Every file that an import resolves to is one of the project files.
pub proof fn lemma_resolved_target_is_project_file(
    source: Seq<char>,
    spec: Seq<char>,
    files: Set<Seq<char>>,
)
    ensures
        resolution(source, spec, files) matches Some(t) ==> files.contains(t),
{
    if let Some(base) = import_base(source, spec) {
        lemma_first_member(candidates(base), files);
    }
}

/// Resolution is a function of the source file, the specifier and the file
/// set, and it yields the first candidate, in the fixed order of `candidates`,
/// that is a project file; when no candidate is, it yields `None`. The first
/// candidate is the normalised base path itself.
pub proof fn lemma_resolution_is_first_candidate(
    source: Seq<char>,
    spec: Seq<char>,
    files: Set<Seq<char>>,
)
    requires
        is_relative_specifier(spec),
        import_base(source, spec) is Some,
    ensures
        ({
            let c = candidates(import_base(source, spec)->0);
            &&& c[0] == import_base(source, spec)->0
            &&& resolution(source, spec, files) matches Some(t) ==> exists|i: int|
                0 <= i < c.len() && c[i] == t && files.contains(t) && forall|j: int|
                    0 <= j < i ==> !files.contains(#[trigger] c[j])
            &&& resolution(source, spec, files) is None ==> forall|j: int|
                0 <= j < c.len() ==> !files.contains(#[trigger] c[j])
        }),
{
    lemma_first_member(candidates(import_base(source, spec)->0), files);
    let dir = parent_dir(source)->0;
    lemma_cleaned_idempotent(join_path(dir, spec));
}

/// A specifier that does not start with `.`, or that holds a `:`, never
/// resolves to a project file.
pub proof fn lemma_non_relative_is_external(source: Seq<char>, spec: Seq<char>, files: Set<Seq<char>>)
    requires
        spec.len() == 0 || spec[0] != '.' || spec.contains(':'),
    ensures
        resolution(source, spec, files) is None,
{
}

} // verus!
