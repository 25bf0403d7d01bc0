//! The file-contents section: each file's text, numbered line by line and
//! fenced with its name and extension.
use vstd::prelude::*;
use crate::paths::{display_relative, extension_chars, extension_of, relative_display};
use crate::report::{decimal, decimal_string, pad, pad_string};
use crate::sort::{lemma_sorted_by_elements, sorted_by, stable_sort};
use crate::paths::{path_before, path_precedes};
use crate::text::{chars_of, string_of, views};

verus! {

/// A file's path and what reading it gave: its text, or the read error's
/// message.
pub struct FileContent {
    pub path: String,
    pub content: Result<String, String>,
}

/// `line` without one trailing carriage return.
pub open spec fn strip_cr(line: Seq<char>) -> Seq<char> {
    if line.len() > 0 && line.last() == '\r' {
        line.drop_last()
    } else {
        line
    }
}

/// Reading `s` from the left: the lines ended so far and the line in progress.
pub open spec fn line_split(s: Seq<char>) -> (Seq<Seq<char>>, Seq<char>)
    decreases s.len(),
{
    if s.len() == 0 {
        (Seq::empty(), Seq::empty())
    } else {
        let (done, cur) = line_split(s.drop_last());
        if s.last() == '\n' {
            (done.push(strip_cr(cur)), Seq::empty())
        } else {
            (done, cur.push(s.last()))
        }
    }
}

/// The lines of `s`: ended by `\n` or `\r\n`, the last one's ending optional.
pub open spec fn text_lines(s: Seq<char>) -> Seq<Seq<char>> {
    let (done, cur) = line_split(s);
    if cur.len() > 0 {
        done.push(cur)
    } else {
        done
    }
}

/// The first `m` lines, each numbered in a column of width `w`.
pub open spec fn numbered(lines: Seq<Seq<char>>, w: nat, m: nat) -> Seq<char>
    decreases m,
{
    if m == 0 {
        Seq::empty()
    } else {
        numbered(lines, w, (m - 1) as nat) + pad(decimal(m as nat), w) + " | "@ + lines[m - 1] + "\n"@
    }
}

/// The numbered text of a file; the final line break is dropped when the
/// file does not end with one.
pub open spec fn numbered_text(s: Seq<char>) -> Seq<char> {
    let lines = text_lines(s);
    let w = if lines.len() == 0 {
        1
    } else {
        decimal(lines.len()).len()
    };
    let all = numbered(lines, w, lines.len());
    if s.len() > 0 && s.last() != '\n' && lines.len() > 0 {
        all.drop_last()
    } else {
        all
    }
}

/// The block for one file.
pub open spec fn content_block(root: Seq<char>, f: FileContent) -> Seq<char> {
    let ext = match extension_of(f.path@) {
        Some(e) => e,
        None => Seq::empty(),
    };
    let body = match f.content {
        Ok(text) => numbered_text(text@),
        Err(message) => "[Error reading file: "@ + message@ + "]"@,
    };
    "### `"@ + display_relative(root, f.path@) + "`\n\n"@ + "```"@ + ext + "\n"@ + body + "\n```\n\n"@
}

/// Positions of files ordered by path.
pub open spec fn content_order(f: Seq<FileContent>) -> spec_fn(usize, usize) -> bool {
    |a: usize, b: usize| a < f.len() && b < f.len() && path_before(f[a as int].path@, f[b as int].path@)
}

/// The blocks for the first `m` files at positions `idx`.
pub open spec fn content_blocks(root: Seq<char>, f: Seq<FileContent>, idx: Seq<usize>, m: nat) -> Seq<char>
    decreases m,
{
    if m == 0 {
        Seq::empty()
    } else {
        content_blocks(root, f, idx, (m - 1) as nat) + content_block(root, f[idx[m - 1] as int])
    }
}

/// The whole section: a heading, then each file's block in path order.
pub open spec fn file_content_section(root: Seq<char>, f: Seq<FileContent>) -> Seq<char> {
    let idx = sorted_by(Seq::new(f.len(), |i: int| i as usize), content_order(f));
    "## File Contents\n\n"@ + content_blocks(root, f, idx, idx.len())
}

/// The lines of `s` (see `text_lines`).
pub fn lines_of(s: &str) -> (r: Vec<String>)
    ensures
        views(r@) == text_lines(s@),
{
    let cs = chars_of(s);
    let mut done: Vec<String> = Vec::new();
    let mut cur: Vec<char> = Vec::new();
    for i in 0..cs.len()
        invariant
            cs@ == s@,
            (views(done@), cur@) == line_split(cs@.subrange(0, i as int)),
    {
        assert(cs@.subrange(0, i + 1).drop_last() =~= cs@.subrange(0, i as int));
        if cs[i] == '\n' {
            let n = cur.len();
            let end = if n > 0 && cur[n - 1] == '\r' { n - 1 } else { n };
            let line = crate::text::string_from_chars(&cur, 0, end);
            assert(line@ == strip_cr(cur@)) by {
                if n > 0 && cur@[n - 1] == '\r' {
                    assert(cur@.subrange(0, end as int) =~= cur@.drop_last());
                } else {
                    assert(cur@.subrange(0, end as int) =~= cur@);
                }
            }
            let ghost before = done@;
            done.push(line);
            assert(views(done@) =~= views(before).push(line@));
            cur = Vec::new();
            assert(cur@ =~= Seq::<char>::empty());
        } else {
            cur.push(cs[i]);
        }
    }
    assert(cs@.subrange(0, cs@.len() as int) =~= cs@);
    if cur.len() > 0 {
        let line = string_of(&cur);
        let ghost before = done@;
        done.push(line);
        assert(views(done@) =~= views(before).push(line@));
    }
    done
}

fn numbered_text_exec(s: &str) -> (r: String)
    ensures
        r@ == numbered_text(s@),
{
    let lines = lines_of(s);
    let ghost ls = views(lines@);
    let n = lines.len();
    let w = if n == 0 {
        1
    } else {
        decimal_string(n).unicode_len()
    };
    let mut out = String::new();
    for i in 0..n
        invariant
            n == lines@.len(),
            ls == views(lines@),
            out@ == numbered(ls, w as nat, i as nat),
    {
        out.append(pad_string(decimal_string(i + 1).as_str(), w).as_str());
        out.append(" | ");
        out.append(lines[i].as_str());
        out.append("\n");
        assert(ls[i as int] == lines@[i as int]@);
    }
    let cs = chars_of(s);
    let k = cs.len();
    if k > 0 && cs[k - 1] != '\n' && n > 0 {
        let oc = chars_of(out.as_str());
        proof {
            assert(out@.len() > 0);
        }
        let trimmed = crate::text::string_from_chars(&oc, 0, oc.len() - 1);
        assert(oc@.subrange(0, oc@.len() - 1) =~= out@.drop_last());
        trimmed
    } else {
        out
    }
}

fn content_before(f: &Vec<FileContent>, a: &usize, b: &usize) -> (o: bool)
    ensures
        o == (*a < f@.len() && *b < f@.len() && path_before(f@[*a as int].path@, f@[*b as int].path@)),
{
    *a < f.len() && *b < f.len() && path_precedes(f[*a].path.as_str(), f[*b].path.as_str())
}

fn content_block_exec(root: &str, f: &FileContent) -> (r: String)
    ensures
        r@ == content_block(root@, *f),
{
    let mut out = String::from_str("### `");
    out.append(relative_display(root, f.path.as_str()).as_str());
    out.append("`\n\n");
    out.append("```");
    let ghost before_ext = out@;
    match extension_chars(&chars_of(f.path.as_str())) {
        Some(e) => out.append(string_of(&e).as_str()),
        None => {
            assert(out@ =~= before_ext + Seq::<char>::empty());
        },
    }
    out.append("\n");
    match &f.content {
        Ok(text) => out.append(numbered_text_exec(text.as_str()).as_str()),
        Err(message) => {
            out.append("[Error reading file: ");
            out.append(message.as_str());
            out.append("]");
        },
    }
    out.append("\n```\n\n");
    out
}

/// The file-contents section below `root_path` (see `file_content_section`).
pub fn generate_file_content_section(root_path: &str, files: &Vec<FileContent>) -> (r: String)
    ensures
        r@ == file_content_section(root_path@, files@),
{
    let mut idx: Vec<usize> = Vec::new();
    for i in 0..files.len()
        invariant
            idx@ == Seq::new(i as nat, |j: int| j as usize),
    {
        idx.push(i);
        assert(idx@ =~= Seq::new((i + 1) as nat, |j: int| j as usize));
    }
    let ghost unsorted = idx@;
    let sorted = stable_sort(idx, files, content_before, Ghost(content_order(files@)));
    proof {
        lemma_sorted_by_elements(unsorted, content_order(files@));
        assert forall|q: int| 0 <= q < sorted@.len() implies #[trigger] sorted@[q] < files@.len() by {
            assert(sorted@.contains(sorted@[q]));
            let k = choose|k: int| 0 <= k < unsorted.len() && unsorted[k] == sorted@[q];
        }
    }
    let mut out = String::from_str("## File Contents\n\n");
    let ghost head = out@;
    for j in 0..sorted.len()
        invariant
            forall|q: int| 0 <= q < sorted@.len() ==> #[trigger] sorted@[q] < files@.len(),
            out@ == head + content_blocks(root_path@, files@, sorted@, j as nat),
    {
        out.append(content_block_exec(root_path, &files[sorted[j]]).as_str());
    }
    out
}

} // verus!
