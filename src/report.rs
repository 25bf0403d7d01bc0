//! Report sections built from a scan: the structure tree, connections,
//! inverse usage and definitions, as renderable items.
use vstd::prelude::*;
use vstd::hash_set::StringHashSet;
use std::cmp::Ordering;
use crate::natural::{compare_paths_naturally, path_natural_cmp};
use crate::paths::{append_name, components, join_all, join_names, push_name, strip_root, relative_components};
use crate::sort::{lemma_views_sorted, sorted_by, stable_sort};
use crate::text::views;
use crate::model::{DetectedDefinition, ResolvedConnection};
use crate::group::{group_keys, positions, positions_of, sorted_distinct};
use crate::paths::{chars_before, display_relative, relative_display, str_before};
use crate::resolve::opt_view;
use crate::sort::lemma_sorted_by_elements;

verus! {

/// One line fragment of a report: plain text, or text that names a file or
/// directory a reader can open.
#[derive(Clone, Debug)]
pub enum ReportItem {
    PlainText(String),
    FilePath { display: String, path: String },
}

/// What a report item shows and, for a file reference, which path it names.
pub enum ItemView {
    Text(Seq<char>),
    Link(Seq<char>, Seq<char>),
}

pub open spec fn item_view(i: ReportItem) -> ItemView {
    match i {
        ReportItem::PlainText(t) => ItemView::Text(t@),
        ReportItem::FilePath { display, path } => ItemView::Link(display@, path@),
    }
}

pub open spec fn item_views(s: Seq<ReportItem>) -> Seq<ItemView> {
    s.map_values(|i: ReportItem| item_view(i))
}

/// Tree branch drawn before a name that has siblings after it.
pub open spec fn tee() -> Seq<char> {
    "├── "@
}

/// Tree branch drawn before the last name of a path.
pub open spec fn elbow() -> Seq<char> {
    "└── "@
}

/// Indentation below an open branch.
pub open spec fn pipe() -> Seq<char> {
    "│   "@
}

/// `n` levels of indentation below open branches.
pub open spec fn indent(n: nat) -> Seq<char>
    decreases n,
{
    if n == 0 {
        Seq::empty()
    } else {
        indent((n - 1) as nat) + pipe()
    }
}

/// The directory path for the first `i + 1` names below the root.
pub open spec fn dir_path(root: Seq<char>, rel: Seq<Seq<char>>, i: int) -> Seq<char> {
    append_name(root, join_names(rel.subrange(0, i + 1)))
}

/// The items for the first `m` names of a file at `path` whose names below
/// the root are `rel` (two or more), given the directories already shown: a
/// directory line for each directory not yet shown, then a line for the file.
pub open spec fn level_items(
    root: Seq<char>,
    path: Seq<char>,
    rel: Seq<Seq<char>>,
    shown: Set<Seq<char>>,
    m: nat,
) -> (Seq<ItemView>, Set<Seq<char>>)
    decreases m,
{
    if m == 0 {
        (Seq::empty(), shown)
    } else {
        let (items, seen) = level_items(root, path, rel, shown, (m - 1) as nat);
        let i = m - 1;
        if i < rel.len() - 1 {
            let d = dir_path(root, rel, i);
            if seen.contains(d) {
                (items, seen)
            } else {
                (items.push(ItemView::Link(indent(i as nat) + tee() + rel[i] + "/"@, d)), seen.insert(d))
            }
        } else {
            (items.push(ItemView::Link(indent(i as nat) + elbow() + rel[i], path)), seen)
        }
    }
}

/// The items for one file, given the directories already shown.
pub open spec fn file_items(
    root: Seq<char>,
    path: Seq<char>,
    shown: Set<Seq<char>>,
) -> (Seq<ItemView>, Set<Seq<char>>) {
    match relative_components(root, path) {
        None => (Seq::empty(), shown),
        Some(rel) => if rel.len() == 0 {
            (Seq::empty(), shown)
        } else if rel.len() == 1 {
            (seq![ItemView::Link(tee() + rel[0], path)], shown)
        } else {
            level_items(root, path, rel, shown, rel.len())
        },
    }
}

/// The tree items for the first `n` of the (already ordered) files.
pub open spec fn tree_items(root: Seq<char>, files: Seq<Seq<char>>, n: nat) -> (
    Seq<ItemView>,
    Set<Seq<char>>,
)
    decreases n,
{
    if n == 0 {
        (Seq::empty(), Set::empty())
    } else {
        let (items, shown) = tree_items(root, files, (n - 1) as nat);
        let (more, now_shown) = file_items(root, files[n - 1], shown);
        (items + more, now_shown)
    }
}

/// Natural path order on paths.
pub open spec fn natural_order() -> spec_fn(Seq<char>, Seq<char>) -> bool {
    |a: Seq<char>, b: Seq<char>| path_natural_cmp(a, b) == Ordering::Less
}

/// Natural path order on strings.
pub open spec fn string_natural_order() -> spec_fn(String, String) -> bool {
    |a: String, b: String| path_natural_cmp(a@, b@) == Ordering::Less
}

/// The structure tree of `files` below `root`: files in natural path order,
/// each directory shown once, at the first file below it.
pub open spec fn structure_tree(root: Seq<char>, files: Seq<Seq<char>>) -> Seq<ItemView> {
    let sorted = sorted_by(files, natural_order());
    tree_items(root, sorted, sorted.len()).0
}

fn natural_before(_ctx: &(), a: &String, b: &String) -> (o: bool)
    ensures
        o == (path_natural_cmp(a@, b@) == Ordering::Less),
{
    match compare_paths_naturally(a.as_str(), b.as_str()) {
        Ordering::Less => true,
        _ => false,
    }
}

/// A copy of each string.
pub fn copy_strings(v: &Vec<String>) -> (r: Vec<String>)
    ensures
        r@ == v@,
{
    let mut out: Vec<String> = Vec::new();
    for i in 0..v.len()
        invariant
            out@ == v@.subrange(0, i as int),
    {
        out.push(v[i].clone());
        assert(v@.subrange(0, i + 1) =~= v@.subrange(0, i as int).push(v@[i as int]));
    }
    assert(v@.subrange(0, v@.len() as int) =~= v@);
    out
}

fn text_item(t: String) -> (r: ReportItem)
    ensures
        item_view(r) == ItemView::Text(t@),
{
    ReportItem::PlainText(t)
}

fn link_item(display: String, path: String) -> (r: ReportItem)
    ensures
        item_view(r) == ItemView::Link(display@, path@),
{
    ReportItem::FilePath { display, path }
}

fn push_item(items: &mut Vec<ReportItem>, it: ReportItem)
    ensures
        item_views(final(items)@) == item_views(old(items)@).push(item_view(it)),
{
    items.push(it);
    assert(item_views(items@) =~= item_views(old(items)@).push(item_view(it)));
}

/// `n` levels of indentation (see `indent`).
fn indent_string(n: usize) -> (r: String)
    ensures
        r@ == indent(n as nat),
{
    let mut s = String::new();
    for i in 0..n
        invariant
            s@ == indent(i as nat),
    {
        s.append("│   ");
    }
    s
}

/// Concatenation of three strings.
fn concat3(a: &str, b: &str, c: &str) -> (r: String)
    ensures
        r@ == a@ + b@ + c@,
{
    let mut s = String::from_str(a);
    s.append(b);
    s.append(c);
    s
}

fn file_items_exec(
    root: &str,
    path: &String,
    items: &mut Vec<ReportItem>,
    shown: &mut StringHashSet,
)
    ensures
        ({
            let (more, now_shown) = file_items(root@, path@, old(shown)@);
            item_views(final(items)@) == item_views(old(items)@) + more && final(shown)@ == now_shown
        }),
{
    let ghost start = item_views(items@);
    match strip_root(root, path.as_str()) {
        None => {
            assert(item_views(items@) =~= start + Seq::<ItemView>::empty());
        },
        Some(rel) => {
            let n = rel.len();
            if n == 0 {
                assert(item_views(items@) =~= start + Seq::<ItemView>::empty());
            } else if n == 1 {
                let mut display = String::from_str("├── ");
                display.append(rel[0].as_str());
                push_item(items, link_item(display, path.clone()));
                assert(item_views(items@) =~= start + seq![ItemView::Link(tee() + views(rel@)[0], path@)]);
            } else {
                let ghost r = views(rel@);
                let ghost init = shown@;
                for i in 0..n
                    invariant
                        n == rel@.len(),
                        n >= 2,
                        r == views(rel@),
                        ({
                            let (more, now_shown) = level_items(root@, path@, r, init, i as nat);
                            item_views(items@) == start + more && shown@ == now_shown
                        }),
                {
                    let pre = indent_string(i);
                    if i < n - 1 {
                        let mut d = String::from_str(root);
                        let sub = join_all(&rel, 0, i + 1);
                        push_name(&mut d, sub.as_str());
                        assert(d@ == dir_path(root@, r, i as int));
                        if !shown.contains(d.as_str()) {
                            let display = concat3(pre.as_str(), "├── ", rel[i].as_str());
                            let mut display = display;
                            display.append("/");
                            push_item(items, link_item(display, d.clone()));
                            shown.insert(d);
                        }
                    } else {
                        let display = concat3(pre.as_str(), "└── ", rel[i].as_str());
                        push_item(items, link_item(display, path.clone()));
                    }
                }
            }
        },
    }
}

/// The structure tree of `files` below `root_path` (see `structure_tree`).
pub fn generate_tree_structure_items(root_path: &str, files: &Vec<String>) -> (r: Vec<ReportItem>)
    ensures
        item_views(r@) == structure_tree(root_path@, views(files@)),
{
    let sorted = stable_sort(copy_strings(files), &(), natural_before, Ghost(string_natural_order()));
    proof {
        lemma_views_sorted(files@, string_natural_order(), natural_order());
    }
    let ghost sv = views(sorted@);
    let mut items: Vec<ReportItem> = Vec::new();
    let mut shown = StringHashSet::new();
    assert(item_views(items@) =~= Seq::<ItemView>::empty());
    for j in 0..sorted.len()
        invariant
            sv == views(sorted@),
            ({
                let (t, s) = tree_items(root_path@, sv, j as nat);
                item_views(items@) == t && shown@ == s
            }),
    {
        file_items_exec(root_path, &sorted[j], &mut items, &mut shown);
    }
    items
}

/// What an item shows.
pub open spec fn item_text(v: ItemView) -> Seq<char> {
    match v {
        ItemView::Text(t) => t,
        ItemView::Link(d, _) => d,
    }
}

/// The items' texts, each followed by a line break.
pub open spec fn joined_lines(items: Seq<ItemView>) -> Seq<char>
    decreases items.len(),
{
    if items.len() == 0 {
        Seq::empty()
    } else {
        joined_lines(items.drop_last()) + item_text(items.last()) + "\n"@
    }
}

fn item_text_of(it: &ReportItem) -> (r: &str)
    ensures
        r@ == item_text(item_view(*it)),
{
    match it {
        ReportItem::PlainText(t) => t.as_str(),
        ReportItem::FilePath { display, .. } => display.as_str(),
    }
}

fn join_lines_exec(items: &Vec<ReportItem>) -> (r: String)
    ensures
        r@ == joined_lines(item_views(items@)),
{
    let mut out = String::new();
    for i in 0..items.len()
        invariant
            out@ == joined_lines(item_views(items@.subrange(0, i as int))),
    {
        out.append(item_text_of(&items[i]));
        out.append("\n");
        assert(item_views(items@.subrange(0, i + 1)).drop_last() =~= item_views(items@.subrange(0, i as int)));
    }
    assert(items@.subrange(0, items@.len() as int) =~= items@);
    out
}

/// The characters with the Unicode `White_Space` property.
pub open spec fn is_white_space(c: char) -> bool {
    let u = c as u32;
    (9 <= u <= 13) || u == 32 || u == 0x85 || u == 0xA0 || u == 0x1680 || (0x2000 <= u <= 0x200A)
        || u == 0x2028 || u == 0x2029 || u == 0x202F || u == 0x205F || u == 0x3000
}

/// `s` without its trailing white space.
pub open spec fn trimmed_end(s: Seq<char>) -> Seq<char>
    decreases s.len(),
{
    if s.len() > 0 && is_white_space(s.last()) {
        trimmed_end(s.drop_last())
    } else {
        s
    }
}

/// `s` without its trailing white space (see `trimmed_end`).
pub fn trim_end_of(s: &str) -> (r: String)
    ensures
        r@ == trimmed_end(s@),
{
    let cs = crate::text::chars_of(s);
    let mut end = cs.len();
    assert(cs@.subrange(0, end as int) =~= cs@);
    while end > 0 && is_white_space_char(cs[end - 1])
        invariant
            end <= cs@.len(),
            trimmed_end(cs@.subrange(0, end as int)) == trimmed_end(s@),
        decreases end,
    {
        assert(cs@.subrange(0, end as int).drop_last() =~= cs@.subrange(0, end - 1));
        end -= 1;
    }
    crate::text::string_from_chars(&cs, 0, end)
}

fn is_white_space_char(c: char) -> (r: bool)
    ensures
        r == is_white_space(c),
{
    let u = c as u32;
    (9 <= u && u <= 13) || u == 32 || u == 0x85 || u == 0xA0 || u == 0x1680 || (0x2000 <= u && u <= 0x200A)
        || u == 0x2028 || u == 0x2029 || u == 0x202F || u == 0x205F || u == 0x3000
}

/// The plain text of a section: each item's text on a line of its own, with
/// trailing white space removed.
pub fn report_items_to_string(items: &Vec<ReportItem>) -> (r: String)
    ensures
        r@ == trimmed_end(joined_lines(item_views(items@))),
{
    let joined = join_lines_exec(items);
    trim_end_of(joined.as_str())
}

/// The structure tree as text, one line per item.
pub fn generate_tree_structure_string(root_path: &str, files: &Vec<String>) -> (r: String)
    ensures
        r@ == joined_lines(structure_tree(root_path@, views(files@))),
{
    join_lines_exec(&generate_tree_structure_items(root_path, files))
}

/// The last name of `root`, or nothing when it ends at the file-system root,
/// in `.` or in `..`.
pub open spec fn root_label(root: Seq<char>) -> Seq<char> {
    let c = components(root);
    if c.len() > 0 && c.last() != seq!['/'] && c.last() != seq!['.'] && c.last() != seq!['.', '.'] {
        c.last()
    } else {
        Seq::empty()
    }
}

/// The structure section: a heading, the root's name, the tree, and the
/// closing fence.
pub open spec fn structure_section(root: Seq<char>, files: Seq<Seq<char>>) -> Seq<ItemView> {
    seq![ItemView::Text("## Project Structure\n\n```"@), ItemView::Text(root_label(root))]
        + structure_tree(root, files) + seq![ItemView::Text("```\n"@)]
}

fn root_label_exec(root: &str) -> (r: String)
    ensures
        r@ == root_label(root@),
{
    let c = crate::paths::path_components(root);
    let n = c.len();
    if n == 0 {
        return String::new();
    }
    let last = c[n - 1].as_str();
    let is_root = crate::text::str_equals(last, "/");
    let is_here = crate::text::str_equals(last, ".");
    let is_up = crate::text::str_equals(last, "..");
    proof {
        reveal_strlit("/");
        reveal_strlit(".");
        reveal_strlit("..");
        assert("/"@ =~= seq!['/']);
        assert("."@ =~= seq!['.']);
        assert(".."@ =~= seq!['.', '.']);
        assert(views(c@).last() == c@[n - 1]@);
    }
    if is_root || is_here || is_up {
        String::new()
    } else {
        c[n - 1].clone()
    }
}

/// The structure section of `files` below `root_path` (see `structure_section`).
pub fn generate_structure_section(root_path: &str, files: &Vec<String>) -> (r: Vec<ReportItem>)
    ensures
        item_views(r@) == structure_section(root_path@, views(files@)),
{
    let mut items: Vec<ReportItem> = Vec::new();
    push_item(&mut items, text_item(String::from_str("## Project Structure\n\n```")));
    push_item(&mut items, text_item(root_label_exec(root_path)));
    let mut tree = generate_tree_structure_items(root_path, files);
    let ghost head = item_views(items@);
    let ghost t = item_views(tree@);
    items.append(&mut tree);
    assert(item_views(items@) =~= head + t);
    push_item(&mut items, text_item(String::from_str("```\n")));
    items
}

/// The source file of each connection.
pub open spec fn source_keys(c: Seq<ResolvedConnection>) -> Seq<Seq<char>> {
    c.map_values(|x: ResolvedConnection| x.source_file@)
}

/// Positions of connections ordered by their specifiers.
pub open spec fn specifier_order(c: Seq<ResolvedConnection>) -> spec_fn(usize, usize) -> bool {
    |a: usize, b: usize|
        a < c.len() && b < c.len() && chars_before(c[a as int].imported_string@, c[b as int].imported_string@)
}

/// The branch for the `i`-th of `n` siblings.
pub open spec fn branch(i: int, n: int) -> Seq<char> {
    if i == n - 1 {
        elbow()
    } else {
        tee()
    }
}

/// The indentation below the `i`-th of `n` siblings.
pub open spec fn under(i: int, n: int) -> Seq<char> {
    if i == n - 1 {
        "    "@
    } else {
        pipe()
    }
}

/// What follows a specifier: an arrow and its target, or a marker.
pub open spec fn target_items(root: Seq<char>, t: Option<Seq<char>>) -> Seq<ItemView> {
    match t {
        Some(p) => seq![ItemView::Text(" -> "@), ItemView::Link(display_relative(root, p), p)],
        None => seq![ItemView::Text(" (External or Unresolved)"@)],
    }
}

/// The lines for the first `m` of the connections at positions `idx`.
pub open spec fn specifier_lines(
    root: Seq<char>,
    c: Seq<ResolvedConnection>,
    idx: Seq<usize>,
    indentation: Seq<char>,
    m: nat,
) -> Seq<ItemView>
    decreases m,
{
    if m == 0 {
        Seq::empty()
    } else {
        let k = idx[m - 1] as int;
        specifier_lines(root, c, idx, indentation, (m - 1) as nat) + seq![
            ItemView::Text(indentation + branch(m - 1, idx.len() as int) + c[k].imported_string@),
        ] + target_items(root, opt_view(c[k].resolved_target))
    }
}

/// The block for the `i`-th source file: the file, then its specifiers in order.
pub open spec fn source_block(
    root: Seq<char>,
    c: Seq<ResolvedConnection>,
    files: Seq<Seq<char>>,
    i: int,
) -> Seq<ItemView> {
    let f = files[i];
    let idx = sorted_by(positions(source_keys(c), f, c.len()), specifier_order(c));
    seq![ItemView::Link(branch(i, files.len() as int) + display_relative(root, f), f)] + specifier_lines(
        root,
        c,
        idx,
        under(i, files.len() as int),
        idx.len(),
    )
}

/// The blocks for the first `n` source files.
pub open spec fn source_blocks(root: Seq<char>, c: Seq<ResolvedConnection>, files: Seq<Seq<char>>, n: nat) -> Seq<
    ItemView,
>
    decreases n,
{
    if n == 0 {
        Seq::empty()
    } else {
        source_blocks(root, c, files, (n - 1) as nat) + source_block(root, c, files, n - 1)
    }
}

/// The connections section: source files in path order, each followed by its
/// specifiers in order and what each resolved to.
pub open spec fn connections_section(root: Seq<char>, c: Seq<ResolvedConnection>) -> Seq<ItemView> {
    let head = ItemView::Text("## Detected Connections (Resolved)\n\n```"@);
    let fence = ItemView::Text("```\n"@);
    if c.len() == 0 {
        seq![head, ItemView::Text("_No connections detected._"@), fence]
    } else {
        let files = group_keys(source_keys(c));
        seq![head] + source_blocks(root, c, files, files.len()) + seq![fence]
    }
}

fn specifier_before(c: &Vec<ResolvedConnection>, a: &usize, b: &usize) -> (o: bool)
    ensures
        o == (*a < c@.len() && *b < c@.len() && chars_before(
            c@[*a as int].imported_string@,
            c@[*b as int].imported_string@,
        )),
{
    *a < c.len() && *b < c.len() && str_before(c[*a].imported_string.as_str(), c[*b].imported_string.as_str())
}

fn source_strings(c: &Vec<ResolvedConnection>) -> (r: Vec<String>)
    ensures
        views(r@) == source_keys(c@),
{
    let mut out: Vec<String> = Vec::new();
    for i in 0..c.len()
        invariant
            views(out@) == source_keys(c@.subrange(0, i as int)),
    {
        let ghost before = out@;
        out.push(c[i].source_file.clone());
        assert(views(out@) =~= views(before).push(c@[i as int].source_file@));
        assert(source_keys(c@.subrange(0, i + 1)) =~= source_keys(c@.subrange(0, i as int)).push(
            c@[i as int].source_file@,
        ));
    }
    assert(c@.subrange(0, c@.len() as int) =~= c@);
    out
}

/// Sorted positions, all below `len`.
proof fn lemma_sorted_positions_bounded(idx: Seq<usize>, order: spec_fn(usize, usize) -> bool, len: nat)
    requires
        forall|j: int| 0 <= j < idx.len() ==> #[trigger] idx[j] < len,
    ensures
        forall|j: int| 0 <= j < sorted_by(idx, order).len() ==> #[trigger] sorted_by(idx, order)[j] < len,
        sorted_by(idx, order).len() == idx.len(),
{
    lemma_sorted_by_elements(idx, order);
    assert forall|j: int| 0 <= j < sorted_by(idx, order).len() implies #[trigger] sorted_by(idx, order)[j] < len by {
        let y = sorted_by(idx, order)[j];
        assert(sorted_by(idx, order).contains(y));
        let k = choose|k: int| 0 <= k < idx.len() && idx[k] == y;
    }
}

fn push_target_items(root: &str, t: &Option<String>, items: &mut Vec<ReportItem>)
    ensures
        item_views(final(items)@) == item_views(old(items)@) + target_items(root@, opt_view(*t)),
{
    let ghost start = item_views(items@);
    match t {
        Some(p) => {
            push_item(items, text_item(String::from_str(" -> ")));
            push_item(items, link_item(relative_display(root, p.as_str()), p.clone()));
        },
        None => {
            push_item(items, text_item(String::from_str(" (External or Unresolved)")));
        },
    }
    assert(item_views(items@) =~= start + target_items(root@, opt_view(*t)));
}

/// The connections section for `connections` below `root_path` (see
/// `connections_section`).
/// Source files are grouped by their text, which for normalised paths (as a
/// scan reports them) is grouping them as paths.
pub fn generate_connections_section(root_path: &str, connections: &Vec<ResolvedConnection>) -> (r: Vec<
    ReportItem,
>)
    ensures
        item_views(r@) == connections_section(root_path@, connections@),
{
    let ghost c = connections@;
    let mut items: Vec<ReportItem> = Vec::new();
    push_item(&mut items, text_item(String::from_str("## Detected Connections (Resolved)\n\n```")));
    if connections.len() == 0 {
        push_item(&mut items, text_item(String::from_str("_No connections detected._")));
        push_item(&mut items, text_item(String::from_str("```\n")));
        return items;
    }
    let keys = source_strings(connections);
    let files = sorted_distinct(&keys);
    let ghost fs = views(files@);
    let nf = files.len();
    let ghost head = item_views(items@);
    assert(head =~= seq![ItemView::Text("## Detected Connections (Resolved)\n\n```"@)]);
    for i in 0..nf
        invariant
            nf == files@.len(),
            fs == views(files@),
            fs == group_keys(source_keys(c)),
            c == connections@,
            views(keys@) == source_keys(c),
            item_views(items@) == head + source_blocks(root_path@, c, fs, i as nat),
    {
        let ghost block_start = item_views(items@);
        let last = i == nf - 1;
        let mut display = String::from_str(if last { "└── " } else { "├── " });
        display.append(relative_display(root_path, files[i].as_str()).as_str());
        push_item(&mut items, link_item(display, files[i].clone()));
        let idx = positions_of(&keys, files[i].as_str());
        let ghost unsorted = idx@;
        let sorted = stable_sort(idx, connections, specifier_before, Ghost(specifier_order(c)));
        proof {
            lemma_sorted_positions_bounded(unsorted, specifier_order(c), c.len());
        }
        let m = sorted.len();
        let indentation = if last { "    " } else { "│   " };
        let ghost lines_start = item_views(items@);
        for j in 0..m
            invariant
                m == sorted@.len(),
                c == connections@,
                forall|q: int| 0 <= q < sorted@.len() ==> #[trigger] sorted@[q] < c.len(),
                indentation@ == under(i as int, nf as int),
                item_views(items@) == lines_start + specifier_lines(root_path@, c, sorted@, indentation@, j as nat),
        {
            let k = sorted[j];
            let conn = &connections[k];
            let mut line = String::from_str(indentation);
            line.append(if j == m - 1 { "└── " } else { "├── " });
            line.append(conn.imported_string.as_str());
            push_item(&mut items, text_item(line));
            push_target_items(root_path, &conn.resolved_target, &mut items);
        }
        proof {
            assert(sorted@ == sorted_by(positions(source_keys(c), fs[i as int], c.len()), specifier_order(c)));
            assert(item_views(items@) =~= block_start + source_block(root_path@, c, fs, i as int));
        }
    }
    push_item(&mut items, text_item(String::from_str("```\n")));
    items
}

/// The targets of the resolved connections, in order.
pub open spec fn target_keys(c: Seq<ResolvedConnection>) -> Seq<Seq<char>>
    decreases c.len(),
{
    if c.len() == 0 {
        Seq::empty()
    } else {
        match c.last().resolved_target {
            Some(t) => target_keys(c.drop_last()).push(t@),
            None => target_keys(c.drop_last()),
        }
    }
}

/// The source files of the connections that resolved to `target`, in order.
pub open spec fn importers(c: Seq<ResolvedConnection>, target: Seq<char>) -> Seq<Seq<char>>
    decreases c.len(),
{
    if c.len() == 0 {
        Seq::empty()
    } else if opt_view(c.last().resolved_target) == Some(target) {
        importers(c.drop_last(), target).push(c.last().source_file@)
    } else {
        importers(c.drop_last(), target)
    }
}

/// The lines for the first `m` importers of one target.
pub open spec fn importer_lines(root: Seq<char>, sources: Seq<Seq<char>>, indentation: Seq<char>, m: nat) -> Seq<
    ItemView,
>
    decreases m,
{
    if m == 0 {
        Seq::empty()
    } else {
        let s = sources[m - 1];
        importer_lines(root, sources, indentation, (m - 1) as nat).push(
            ItemView::Link(indentation + branch(m - 1, sources.len() as int) + display_relative(root, s), s),
        )
    }
}

/// The block for the `i`-th target: the target, then the files importing it
/// in path order.
pub open spec fn target_block(root: Seq<char>, c: Seq<ResolvedConnection>, targets: Seq<Seq<char>>, i: int) -> Seq<
    ItemView,
> {
    let t = targets[i];
    let sources = sorted_by(importers(c, t), crate::scan::path_order());
    seq![ItemView::Link(branch(i, targets.len() as int) + display_relative(root, t), t)] + importer_lines(
        root,
        sources,
        under(i, targets.len() as int),
        sources.len(),
    )
}

/// The blocks for the first `n` targets.
pub open spec fn target_blocks(root: Seq<char>, c: Seq<ResolvedConnection>, targets: Seq<Seq<char>>, n: nat) -> Seq<
    ItemView,
>
    decreases n,
{
    if n == 0 {
        Seq::empty()
    } else {
        target_blocks(root, c, targets, (n - 1) as nat) + target_block(root, c, targets, n - 1)
    }
}

/// The inverse-usage section: every file that some connection resolved to,
/// in path order, each followed by the files importing it, in path order.
/// Unresolved connections contribute nothing.
pub open spec fn inverse_usage_section(root: Seq<char>, c: Seq<ResolvedConnection>) -> Seq<ItemView> {
    let head = ItemView::Text("## Inverse Usage (Who Imports What)\n\n"@);
    if target_keys(c).len() == 0 {
        seq![head, ItemView::Text("_No resolved local imports found to build inverse usage._\n"@)]
    } else {
        let targets = group_keys(target_keys(c));
        seq![head, ItemView::Text("```\n"@)] + target_blocks(root, c, targets, targets.len()) + seq![
            ItemView::Text("```\n"@),
        ]
    }
}

fn target_strings(c: &Vec<ResolvedConnection>) -> (r: Vec<String>)
    ensures
        views(r@) == target_keys(c@),
{
    let mut out: Vec<String> = Vec::new();
    for i in 0..c.len()
        invariant
            views(out@) == target_keys(c@.subrange(0, i as int)),
    {
        assert(c@.subrange(0, i + 1).drop_last() =~= c@.subrange(0, i as int));
        if let Some(t) = &c[i].resolved_target {
            let ghost before = out@;
            out.push(t.clone());
            assert(views(out@) =~= views(before).push(t@));
        }
    }
    assert(c@.subrange(0, c@.len() as int) =~= c@);
    out
}

fn importer_strings(c: &Vec<ResolvedConnection>, target: &str) -> (r: Vec<String>)
    ensures
        views(r@) == importers(c@, target@),
{
    let mut out: Vec<String> = Vec::new();
    for i in 0..c.len()
        invariant
            views(out@) == importers(c@.subrange(0, i as int), target@),
    {
        assert(c@.subrange(0, i + 1).drop_last() =~= c@.subrange(0, i as int));
        let hit = match &c[i].resolved_target {
            Some(t) => crate::text::str_equals(t.as_str(), target),
            None => false,
        };
        if hit {
            let ghost before = out@;
            out.push(c[i].source_file.clone());
            assert(views(out@) =~= views(before).push(c@[i as int].source_file@));
        }
    }
    assert(c@.subrange(0, c@.len() as int) =~= c@);
    out
}

/// The inverse-usage section for `connections` below `root_path` (see
/// `inverse_usage_section`). Targets are grouped by their text, which for
/// normalised paths (as a scan reports them) is grouping them as paths.
pub fn generate_inverse_usage_section(root_path: &str, connections: &Vec<ResolvedConnection>) -> (r: Vec<
    ReportItem,
>)
    ensures
        item_views(r@) == inverse_usage_section(root_path@, connections@),
{
    let ghost c = connections@;
    let mut items: Vec<ReportItem> = Vec::new();
    push_item(&mut items, text_item(String::from_str("## Inverse Usage (Who Imports What)\n\n")));
    let keys = target_strings(connections);
    if keys.len() == 0 {
        push_item(
            &mut items,
            text_item(String::from_str("_No resolved local imports found to build inverse usage._\n")),
        );
        return items;
    }
    push_item(&mut items, text_item(String::from_str("```\n")));
    let targets = sorted_distinct(&keys);
    let ghost ts = views(targets@);
    let n = targets.len();
    let ghost head = item_views(items@);
    for i in 0..n
        invariant
            n == targets@.len(),
            ts == views(targets@),
            c == connections@,
            item_views(items@) == head + target_blocks(root_path@, c, ts, i as nat),
    {
        let ghost block_start = item_views(items@);
        let last = i == n - 1;
        let mut display = String::from_str(if last { "└── " } else { "├── " });
        display.append(relative_display(root_path, targets[i].as_str()).as_str());
        push_item(&mut items, link_item(display, targets[i].clone()));
        let found = importer_strings(connections, targets[i].as_str());
        let ghost unsorted = found@;
        let sources = stable_sort(found, &(), crate::scan::string_before, Ghost(crate::scan::string_path_order()));
        proof {
            lemma_views_sorted(unsorted, crate::scan::string_path_order(), crate::scan::path_order());
        }
        let ghost sv = views(sources@);
        let m = sources.len();
        let indentation = if last { "    " } else { "│   " };
        let ghost lines_start = item_views(items@);
        for j in 0..m
            invariant
                m == sources@.len(),
                sv == views(sources@),
                item_views(items@) == lines_start + importer_lines(root_path@, sv, indentation@, j as nat),
        {
            let mut line = String::from_str(indentation);
            line.append(if j == m - 1 { "└── " } else { "├── " });
            line.append(relative_display(root_path, sources[j].as_str()).as_str());
            push_item(&mut items, link_item(line, sources[j].clone()));
            assert(views(sources@)[j as int] == sources@[j as int]@);
        }
        proof {
            assert(item_views(items@) =~= block_start + target_block(root_path@, c, ts, i as int));
        }
    }
    push_item(&mut items, text_item(String::from_str("```\n")));
    items
}

/// The decimal digit for `d`.
pub open spec fn digit_of(d: nat) -> char {
    seq!['0', '1', '2', '3', '4', '5', '6', '7', '8', '9'][d as int]
}

/// The decimal numeral for `n`.
pub open spec fn decimal(n: nat) -> Seq<char>
    decreases n,
{
    if n < 10 {
        seq![digit_of(n)]
    } else {
        decimal(n / 10).push(digit_of(n % 10))
    }
}

/// `s` padded with spaces on the right to at least `w` characters.
pub open spec fn pad(s: Seq<char>, w: nat) -> Seq<char> {
    if s.len() < w {
        s + Seq::new((w - s.len()) as nat, |i: int| ' ')
    } else {
        s
    }
}

fn digit_char_of(d: usize) -> (r: char)
    requires
        d < 10,
    ensures
        r == digit_of(d as nat),
{
    match d {
        0 => '0',
        1 => '1',
        2 => '2',
        3 => '3',
        4 => '4',
        5 => '5',
        6 => '6',
        7 => '7',
        8 => '8',
        _ => '9',
    }
}

/// The decimal numeral for `n` (see `decimal`).
pub fn decimal_string(n: usize) -> (r: String)
    ensures
        r@ == decimal(n as nat),
{
    let mut low: Vec<char> = Vec::new();
    let mut v = n;
    while v >= 10
        invariant
            decimal(n as nat) == decimal(v as nat) + low@,
        decreases v,
    {
        let c = digit_char_of(v % 10);
        let ghost prev = low@;
        low.insert(0, c);
        assert(low@ =~= seq![c] + prev);
        assert(decimal(v as nat) == decimal((v / 10) as nat).push(c));
        assert(decimal((v / 10) as nat).push(c) + prev =~= decimal((v / 10) as nat) + low@);
        v = v / 10;
    }
    let c = digit_char_of(v);
    let ghost prev = low@;
    low.insert(0, c);
    assert(low@ =~= seq![c] + prev);
    assert(decimal(v as nat) == seq![c]);
    crate::text::string_of(&low)
}

/// `s` padded with spaces on the right to at least `w` characters.
pub(crate) fn pad_string(s: &str, w: usize) -> (r: String)
    ensures
        r@ == pad(s@, w as nat),
{
    let mut out = String::from_str(s);
    let mut len = s.unicode_len();
    while len < w
        invariant
            len >= s@.len(),
            s@.len() < w ==> len <= w,
            s@.len() >= w ==> len == s@.len(),
            out@ == s@ + Seq::new((len - s@.len()) as nat, |i: int| ' '),
        decreases w - len,
    {
        crate::text::push_char(&mut out, ' ');
        assert(out@ =~= s@ + Seq::new((len + 1 - s@.len()) as nat, |i: int| ' '));
        len += 1;
    }
    proof {
        if s@.len() >= w {
            assert(out@ =~= s@);
        }
    }
    out
}

/// The source file of each definition.
pub open spec fn definition_keys(d: Seq<DetectedDefinition>) -> Seq<Seq<char>> {
    d.map_values(|x: DetectedDefinition| x.source_file@)
}

/// Positions of definitions ordered by line.
pub open spec fn line_order(d: Seq<DetectedDefinition>) -> spec_fn(usize, usize) -> bool {
    |a: usize, b: usize| a < d.len() && b < d.len() && d[a as int].line_number < d[b as int].line_number
}

/// The widest kind among the first `m` definitions at positions `idx`.
pub open spec fn kind_width(d: Seq<DetectedDefinition>, idx: Seq<usize>, m: nat) -> nat
    decreases m,
{
    if m == 0 {
        0
    } else {
        let prev = kind_width(d, idx, (m - 1) as nat);
        let here = d[idx[m - 1] as int].kind@.len();
        if here > prev {
            here
        } else {
            prev
        }
    }
}

/// One definition line: line number and kind padded to their columns, then
/// the symbol.
pub open spec fn definition_line(x: DetectedDefinition, line_w: nat, kind_w: nat) -> Seq<char> {
    "L"@ + pad(decimal(x.line_number as nat), line_w) + " "@ + pad(x.kind@, kind_w) + " "@ + x.symbol_name@
        + "\n"@
}

/// The lines for the first `m` definitions at positions `idx`.
pub open spec fn definition_lines(
    d: Seq<DetectedDefinition>,
    idx: Seq<usize>,
    line_w: nat,
    kind_w: nat,
    m: nat,
) -> Seq<ItemView>
    decreases m,
{
    if m == 0 {
        Seq::empty()
    } else {
        definition_lines(d, idx, line_w, kind_w, (m - 1) as nat).push(
            ItemView::Text(definition_line(d[idx[m - 1] as int], line_w, kind_w)),
        )
    }
}

/// The block for one source file: a heading, then its definitions by line,
/// fenced, with the line column as wide as the last line number and the kind
/// column as wide as the widest kind.
pub open spec fn definition_block(root: Seq<char>, d: Seq<DetectedDefinition>, f: Seq<char>) -> Seq<ItemView> {
    let idx = sorted_by(positions(definition_keys(d), f, d.len()), line_order(d));
    let line_w = decimal(d[idx.last() as int].line_number as nat).len();
    let kind_w = kind_width(d, idx, idx.len());
    seq![ItemView::Text("### `"@ + display_relative(root, f) + "`\n"@), ItemView::Text("```\n"@)]
        + definition_lines(d, idx, line_w, kind_w, idx.len()) + seq![ItemView::Text("```\n\n"@)]
}

/// The blocks for the first `n` source files.
pub open spec fn definition_blocks(root: Seq<char>, d: Seq<DetectedDefinition>, files: Seq<Seq<char>>, n: nat) -> Seq<
    ItemView,
>
    decreases n,
{
    if n == 0 {
        Seq::empty()
    } else {
        definition_blocks(root, d, files, (n - 1) as nat) + definition_block(root, d, files[n - 1])
    }
}

/// The definitions section: source files in path order, each with its
/// definitions ordered by line.
pub open spec fn definitions_section(root: Seq<char>, d: Seq<DetectedDefinition>) -> Seq<ItemView> {
    let head = ItemView::Text("## Detected Definitions & Exports\n\n"@);
    if d.len() == 0 {
        seq![head, ItemView::Text("_No definitions or exports detected._\n"@)]
    } else {
        let files = group_keys(definition_keys(d));
        seq![head] + definition_blocks(root, d, files, files.len())
    }
}

fn line_before(d: &Vec<DetectedDefinition>, a: &usize, b: &usize) -> (o: bool)
    ensures
        o == (*a < d@.len() && *b < d@.len() && d@[*a as int].line_number < d@[*b as int].line_number),
{
    *a < d.len() && *b < d.len() && d[*a].line_number < d[*b].line_number
}

fn definition_sources(d: &Vec<DetectedDefinition>) -> (r: Vec<String>)
    ensures
        views(r@) == definition_keys(d@),
{
    let mut out: Vec<String> = Vec::new();
    for i in 0..d.len()
        invariant
            views(out@) == definition_keys(d@.subrange(0, i as int)),
    {
        let ghost before = out@;
        out.push(d[i].source_file.clone());
        assert(views(out@) =~= views(before).push(d@[i as int].source_file@));
        assert(definition_keys(d@.subrange(0, i + 1)) =~= definition_keys(d@.subrange(0, i as int)).push(
            d@[i as int].source_file@,
        ));
    }
    assert(d@.subrange(0, d@.len() as int) =~= d@);
    out
}

proof fn lemma_group_key_present(keys: Seq<Seq<char>>, f: Seq<char>)
    requires
        group_keys(keys).contains(f),
    ensures
        positions(keys, f, keys.len()).len() > 0,
{
    crate::sort::lemma_sorted_by_elements(crate::group::distinct(keys), crate::scan::path_order());
    lemma_distinct_within(keys, f);
    let k = choose|k: int| 0 <= k < keys.len() && keys[k] == f;
    lemma_positions_hit(keys, f, k, keys.len());
}

proof fn lemma_distinct_within(keys: Seq<Seq<char>>, f: Seq<char>)
    requires
        crate::group::distinct(keys).contains(f),
    ensures
        keys.contains(f),
    decreases keys.len(),
{
    if keys.len() > 0 {
        let t = keys.drop_last();
        if f == keys.last() {
            assert(keys[keys.len() - 1] == f);
        } else {
            if t.contains(keys.last()) {
                lemma_distinct_within(t, f);
            } else {
                let d = crate::group::distinct(t);
                let i = choose|i: int| 0 <= i < d.len() + 1 && d.push(keys.last())[i] == f;
                assert(d[i] == f);
                assert(d.contains(f));
                lemma_distinct_within(t, f);
            }
            let k = choose|k: int| 0 <= k < t.len() && t[k] == f;
            assert(keys[k] == f);
        }
    }
}

proof fn lemma_positions_hit(keys: Seq<Seq<char>>, f: Seq<char>, k: int, n: nat)
    requires
        0 <= k < n <= keys.len(),
        keys[k] == f,
    ensures
        positions(keys, f, n).len() > 0,
    decreases n,
{
    if k < n - 1 {
        lemma_positions_hit(keys, f, k, (n - 1) as nat);
    }
}

/// The definitions section for `definitions` below `root_path` (see
/// `definitions_section`).
/// Source files are grouped by their text, which for normalised paths (as a
/// scan reports them) is grouping them as paths.
pub fn generate_definitions_section(root_path: &str, definitions: &Vec<DetectedDefinition>) -> (r: Vec<
    ReportItem,
>)
    ensures
        item_views(r@) == definitions_section(root_path@, definitions@),
{
    let ghost d = definitions@;
    let mut items: Vec<ReportItem> = Vec::new();
    push_item(&mut items, text_item(String::from_str("## Detected Definitions & Exports\n\n")));
    if definitions.len() == 0 {
        push_item(&mut items, text_item(String::from_str("_No definitions or exports detected._\n")));
        return items;
    }
    let keys = definition_sources(definitions);
    let files = sorted_distinct(&keys);
    let ghost fs = views(files@);
    let n = files.len();
    let ghost head = item_views(items@);
    for i in 0..n
        invariant
            n == files@.len(),
            fs == views(files@),
            fs == group_keys(definition_keys(d)),
            d == definitions@,
            views(keys@) == definition_keys(d),
            item_views(items@) == head + definition_blocks(root_path@, d, fs, i as nat),
    {
        let ghost block_start = item_views(items@);
        let ghost f = fs[i as int];
        let idx = positions_of(&keys, files[i].as_str());
        let ghost unsorted = idx@;
        let sorted = stable_sort(idx, definitions, line_before, Ghost(line_order(d)));
        proof {
            lemma_sorted_positions_bounded(unsorted, line_order(d), d.len());
            assert(fs.contains(f));
            lemma_group_key_present(definition_keys(d), f);
        }
        let m = sorted.len();
        let mut heading = String::from_str("### `");
        heading.append(relative_display(root_path, files[i].as_str()).as_str());
        heading.append("`\n");
        push_item(&mut items, text_item(heading));
        push_item(&mut items, text_item(String::from_str("```\n")));
        let line_w = decimal_string(definitions[sorted[m - 1]].line_number).unicode_len();
        let mut kind_w: usize = 0;
        for j in 0..m
            invariant
                m == sorted@.len(),
                d == definitions@,
                forall|q: int| 0 <= q < sorted@.len() ==> #[trigger] sorted@[q] < d.len(),
                kind_w as nat == kind_width(d, sorted@, j as nat),
        {
            let w = definitions[sorted[j]].kind.unicode_len();
            if w > kind_w {
                kind_w = w;
            }
        }
        let ghost lines_start = item_views(items@);
        for j in 0..m
            invariant
                m == sorted@.len(),
                d == definitions@,
                forall|q: int| 0 <= q < sorted@.len() ==> #[trigger] sorted@[q] < d.len(),
                item_views(items@) == lines_start + definition_lines(d, sorted@, line_w as nat, kind_w as nat, j as nat),
        {
            let x = &definitions[sorted[j]];
            let mut line = String::from_str("L");
            line.append(pad_string(decimal_string(x.line_number).as_str(), line_w).as_str());
            line.append(" ");
            line.append(pad_string(x.kind.as_str(), kind_w).as_str());
            line.append(" ");
            line.append(x.symbol_name.as_str());
            line.append("\n");
            push_item(&mut items, text_item(line));
        }
        push_item(&mut items, text_item(String::from_str("```\n\n")));
        proof {
            assert(sorted@ == sorted_by(positions(definition_keys(d), f, d.len()), line_order(d)));
            assert(item_views(items@) =~= block_start + definition_block(root_path@, d, f));
        }
    }
    items
}

/// The section texts, each followed by a blank line, then the file contents
/// when given.
pub open spec fn context_text(sections: Seq<String>, file_contents: Option<Seq<char>>) -> Seq<char>
    decreases sections.len(),
{
    if sections.len() == 0 {
        match file_contents {
            Some(c) => c,
            None => Seq::empty(),
        }
    } else {
        let rest = context_text(sections.drop_first(), file_contents);
        sections[0]@ + "\n\n"@ + rest
    }
}

/// The whole context as one text: every section's text followed by a blank
/// line, then the file contents if given, with trailing white space removed.
pub fn rebuild_full_context(sections: &Vec<String>, file_contents: Option<&str>) -> (r: String)
    ensures
        r@ == trimmed_end(context_text(sections@, match file_contents {
            Some(c) => Some(c@),
            None => None,
        })),
{
    let ghost tail = match file_contents {
        Some(c) => Some(c@),
        None => None,
    };
    let mut out = String::new();
    let n = sections.len();
    assert(sections@.subrange(0, n as int) =~= sections@);
    assert(out@ + context_text(sections@, tail) =~= context_text(sections@, tail));
    for i in 0..n
        invariant
            n == sections@.len(),
            out@ + context_text(sections@.subrange(i as int, n as int), tail) == context_text(sections@, tail),
    {
        assert(sections@.subrange(i as int, n as int).drop_first() =~= sections@.subrange(i + 1, n as int));
        out.append(sections[i].as_str());
        out.append("\n\n");
    }
    let ghost before = out@;
    assert(sections@.subrange(n as int, n as int) =~= Seq::<String>::empty());
    match file_contents {
        Some(c) => out.append(c),
        None => {
            assert(out@ =~= before + Seq::<char>::empty());
        },
    }
    trim_end_of(out.as_str())
}

} // verus!
