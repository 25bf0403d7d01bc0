//! Case-insensitive substring filters applied to a scan before its sections
//! are built.
use vstd::prelude::*;
use crate::model::{definition_view, DetectedDefinition, ResolvedConnection};
use crate::paths::{display_relative, relative_display};
use crate::resolve::opt_view;
use crate::scan::connection_view;
use crate::text::{chars_of, views};

verus! {

/// The lower-case form of a string (see `lowercase`).
pub uninterp spec fn lower_of(s: Seq<char>) -> Seq<char>;

/// Relies on `str::to_lowercase`: the lower-case form, which depends on the
/// characters of `s` alone; an empty string stays empty.
#[verifier::external_body]
fn lowercase(s: &str) -> (r: String)
    ensures
        r@ == lower_of(s@),
        s@.len() == 0 ==> r@.len() == 0,
{
    s.to_lowercase()
}

/// Whether `needle` occurs in `hay`.
pub open spec fn contains_seq(hay: Seq<char>, needle: Seq<char>) -> bool {
    exists|i: int| 0 <= i && i + needle.len() <= hay.len() && #[trigger] hay.subrange(i, i + needle.len()) == needle
}

/// Whether `needle` occurs in `hay` (see `contains_seq`).
pub fn contains_text(hay: &str, needle: &str) -> (r: bool)
    ensures
        r == contains_seq(hay@, needle@),
{
    let h = chars_of(hay);
    let n = chars_of(needle);
    if n.len() > h.len() {
        return false;
    }
    let hl = h.len();
    let last = hl - n.len();
    let mut i: usize = 0;
    while i <= last
        invariant
            hl == h@.len(),
            h@ == hay@,
            n@ == needle@,
            last == h@.len() - n@.len(),
            n@.len() <= h@.len(),
            forall|j: int| 0 <= j < i ==> #[trigger] h@.subrange(j, j + n@.len()) != n@,
        decreases last + 1 - i,
    {
        let mut k: usize = 0;
        while k < n.len() && h[i + k] == n[k]
            invariant
                hl == h@.len(),
                i <= last,
                last == h@.len() - n@.len(),
                k <= n@.len(),
                forall|q: int| 0 <= q < k ==> h@[i + q] == n@[q],
            decreases n.len() - k,
        {
            k += 1;
        }
        if k == n.len() {
            assert(h@.subrange(i as int, i + n@.len()) =~= n@);
            return true;
        }
        assert(h@.subrange(i as int, i + n@.len())[k as int] != n@[k as int]);
        if i == last {
            return false;
        }
        i += 1;
    }
    false
}

/// Whether the lower-case form of `filter` occurs in the lower-case form of
/// `text`.
pub open spec fn passes(text: Seq<char>, filter: Seq<char>) -> bool {
    contains_seq(lower_of(text), lower_of(filter))
}

fn passes_exec(text: &str, lowered_filter: &str) -> (r: bool)
    ensures
        r == contains_seq(lower_of(text@), lowered_filter@),
{
    contains_text(lowercase(text).as_str(), lowered_filter)
}

/// Whether a file passes the structure filter.
pub open spec fn file_passes(root: Seq<char>, path: Seq<char>, filter: Seq<char>) -> bool {
    filter.len() == 0 || passes(display_relative(root, path), filter)
}

/// Whether a connection passes the connections filter: by source, specifier
/// or target.
pub open spec fn connection_passes(root: Seq<char>, c: ResolvedConnection, filter: Seq<char>) -> bool {
    filter.len() == 0 || passes(display_relative(root, c.source_file@), filter) || passes(
        c.imported_string@,
        filter,
    ) || match opt_view(c.resolved_target) {
        Some(t) => passes(display_relative(root, t), filter),
        None => false,
    }
}

/// Whether a connection passes the inverse-usage filter: by source or target.
pub open spec fn usage_passes(root: Seq<char>, c: ResolvedConnection, filter: Seq<char>) -> bool {
    filter.len() == 0 || passes(display_relative(root, c.source_file@), filter) || match opt_view(
        c.resolved_target,
    ) {
        Some(t) => passes(display_relative(root, t), filter),
        None => false,
    }
}

/// Whether a definition passes the definitions filter: by source, symbol or kind.
pub open spec fn definition_passes(root: Seq<char>, d: DetectedDefinition, filter: Seq<char>) -> bool {
    filter.len() == 0 || passes(display_relative(root, d.source_file@), filter) || passes(
        d.symbol_name@,
        filter,
    ) || passes(d.kind@, filter)
}

/// The files that pass, in order.
pub open spec fn files_passing(root: Seq<char>, files: Seq<Seq<char>>, filter: Seq<char>) -> Seq<Seq<char>>
    decreases files.len(),
{
    if files.len() == 0 {
        files
    } else if file_passes(root, files.last(), filter) {
        files_passing(root, files.drop_last(), filter).push(files.last())
    } else {
        files_passing(root, files.drop_last(), filter)
    }
}

/// The views of the connections that pass `keep`, in order.
pub open spec fn connections_passing(
    c: Seq<ResolvedConnection>,
    keep: spec_fn(ResolvedConnection) -> bool,
) -> Seq<(Seq<char>, Seq<char>, Option<Seq<char>>)>
    decreases c.len(),
{
    if c.len() == 0 {
        Seq::empty()
    } else if keep(c.last()) {
        connections_passing(c.drop_last(), keep).push(connection_view(c.last()))
    } else {
        connections_passing(c.drop_last(), keep)
    }
}

/// The definitions that pass, in order.
pub open spec fn definitions_passing(root: Seq<char>, d: Seq<DetectedDefinition>, filter: Seq<char>) -> Seq<
    (Seq<char>, Seq<char>, Seq<char>, usize),
>
    decreases d.len(),
{
    if d.len() == 0 {
        Seq::empty()
    } else if definition_passes(root, d.last(), filter) {
        definitions_passing(root, d.drop_last(), filter).push(definition_view(d.last()))
    } else {
        definitions_passing(root, d.drop_last(), filter)
    }
}

/// A copy of a connection.
pub fn copy_connection(c: &ResolvedConnection) -> (r: ResolvedConnection)
    ensures
        connection_view(r) == connection_view(*c),
{
    ResolvedConnection {
        source_file: c.source_file.clone(),
        imported_string: c.imported_string.clone(),
        resolved_target: match &c.resolved_target {
            Some(t) => Some(t.clone()),
            None => None,
        },
    }
}

fn target_passes(root: &str, t: &Option<String>, lowered: &str) -> (r: bool)
    ensures
        r == match opt_view(*t) {
            Some(p) => contains_seq(lower_of(display_relative(root@, p)), lowered@),
            None => false,
        },
{
    match t {
        Some(p) => passes_exec(relative_display(root, p.as_str()).as_str(), lowered),
        None => false,
    }
}

/// The files whose path below `root_path` passes `filter`, in order.
pub fn filter_files(root_path: &str, files: &Vec<String>, filter: &str) -> (r: Vec<String>)
    ensures
        views(r@) == files_passing(root_path@, views(files@), filter@),
{
    let lowered = lowercase(filter);
    let empty = filter.unicode_len() == 0;
    let mut out: Vec<String> = Vec::new();
    for i in 0..files.len()
        invariant
            lowered@ == lower_of(filter@),
            empty == (filter@.len() == 0),
            views(out@) == files_passing(root_path@, views(files@).subrange(0, i as int), filter@),
    {
        assert(views(files@).subrange(0, i + 1).drop_last() =~= views(files@).subrange(0, i as int));
        assert(views(files@)[i as int] == files@[i as int]@);
        if empty || passes_exec(relative_display(root_path, files[i].as_str()).as_str(), lowered.as_str()) {
            let ghost before = out@;
            out.push(files[i].clone());
            assert(views(out@) =~= views(before).push(files@[i as int]@));
        }
    }
    assert(views(files@).subrange(0, files@.len() as int) =~= views(files@));
    out
}

/// The connections that pass the connections filter, in order.
pub fn filter_connections(root_path: &str, connections: &Vec<ResolvedConnection>, filter: &str) -> (r: Vec<
    ResolvedConnection,
>)
    ensures
        r@.map_values(|c: ResolvedConnection| connection_view(c)) == connections_passing(
            connections@,
            |c: ResolvedConnection| connection_passes(root_path@, c, filter@),
        ),
{
    let ghost keep = |c: ResolvedConnection| connection_passes(root_path@, c, filter@);
    let lowered = lowercase(filter);
    let empty = filter.unicode_len() == 0;
    let mut out: Vec<ResolvedConnection> = Vec::new();
    for i in 0..connections.len()
        invariant
            lowered@ == lower_of(filter@),
            empty == (filter@.len() == 0),
            keep == (|c: ResolvedConnection| connection_passes(root_path@, c, filter@)),
            out@.map_values(|c: ResolvedConnection| connection_view(c)) == connections_passing(
                connections@.subrange(0, i as int),
                keep,
            ),
    {
        assert(connections@.subrange(0, i + 1).drop_last() =~= connections@.subrange(0, i as int));
        let c = &connections[i];
        let hit = empty || passes_exec(relative_display(root_path, c.source_file.as_str()).as_str(), lowered.as_str())
            || passes_exec(c.imported_string.as_str(), lowered.as_str()) || target_passes(
            root_path,
            &c.resolved_target,
            lowered.as_str(),
        );
        if hit {
            let ghost before = out@;
            out.push(copy_connection(c));
            assert(out@.map_values(|c: ResolvedConnection| connection_view(c)) =~= before.map_values(
                |c: ResolvedConnection| connection_view(c),
            ).push(connection_view(connections@[i as int])));
        }
    }
    assert(connections@.subrange(0, connections@.len() as int) =~= connections@);
    out
}

/// The connections that pass the inverse-usage filter, in order.
pub fn filter_usage_connections(root_path: &str, connections: &Vec<ResolvedConnection>, filter: &str) -> (r: Vec<
    ResolvedConnection,
>)
    ensures
        r@.map_values(|c: ResolvedConnection| connection_view(c)) == connections_passing(
            connections@,
            |c: ResolvedConnection| usage_passes(root_path@, c, filter@),
        ),
{
    let ghost keep = |c: ResolvedConnection| usage_passes(root_path@, c, filter@);
    let lowered = lowercase(filter);
    let empty = filter.unicode_len() == 0;
    let mut out: Vec<ResolvedConnection> = Vec::new();
    for i in 0..connections.len()
        invariant
            lowered@ == lower_of(filter@),
            empty == (filter@.len() == 0),
            keep == (|c: ResolvedConnection| usage_passes(root_path@, c, filter@)),
            out@.map_values(|c: ResolvedConnection| connection_view(c)) == connections_passing(
                connections@.subrange(0, i as int),
                keep,
            ),
    {
        assert(connections@.subrange(0, i + 1).drop_last() =~= connections@.subrange(0, i as int));
        let c = &connections[i];
        let hit = empty || passes_exec(relative_display(root_path, c.source_file.as_str()).as_str(), lowered.as_str())
            || target_passes(root_path, &c.resolved_target, lowered.as_str());
        if hit {
            let ghost before = out@;
            out.push(copy_connection(c));
            assert(out@.map_values(|c: ResolvedConnection| connection_view(c)) =~= before.map_values(
                |c: ResolvedConnection| connection_view(c),
            ).push(connection_view(connections@[i as int])));
        }
    }
    assert(connections@.subrange(0, connections@.len() as int) =~= connections@);
    out
}

/// The definitions that pass the definitions filter, in order.
pub fn filter_definitions(root_path: &str, definitions: &Vec<DetectedDefinition>, filter: &str) -> (r: Vec<
    DetectedDefinition,
>)
    ensures
        r@.map_values(|d: DetectedDefinition| definition_view(d)) == definitions_passing(
            root_path@,
            definitions@,
            filter@,
        ),
{
    let lowered = lowercase(filter);
    let empty = filter.unicode_len() == 0;
    let mut out: Vec<DetectedDefinition> = Vec::new();
    for i in 0..definitions.len()
        invariant
            lowered@ == lower_of(filter@),
            empty == (filter@.len() == 0),
            out@.map_values(|d: DetectedDefinition| definition_view(d)) == definitions_passing(
                root_path@,
                definitions@.subrange(0, i as int),
                filter@,
            ),
    {
        assert(definitions@.subrange(0, i + 1).drop_last() =~= definitions@.subrange(0, i as int));
        let d = &definitions[i];
        let hit = empty || passes_exec(relative_display(root_path, d.source_file.as_str()).as_str(), lowered.as_str())
            || passes_exec(d.symbol_name.as_str(), lowered.as_str()) || passes_exec(d.kind.as_str(), lowered.as_str());
        if hit {
            let ghost before = out@;
            out.push(
                DetectedDefinition {
                    source_file: d.source_file.clone(),
                    symbol_name: d.symbol_name.clone(),
                    kind: d.kind.clone(),
                    line_number: d.line_number,
                },
            );
            assert(out@.map_values(|d: DetectedDefinition| definition_view(d)) =~= before.map_values(
                |d: DetectedDefinition| definition_view(d),
            ).push(definition_view(definitions@[i as int])));
        }
    }
    assert(definitions@.subrange(0, definitions@.len() as int) =~= definitions@);
    out
}

} // verus!
