//! The vault's file layout: which directories are never walked, and the
//! name, stem and extension of a `/`-separated path.

use vstd::prelude::*;
use crate::text::{
    lemma_rfind_char_to, rfind_char, rfind_char_exec, split_char, split_char_exec,
    sub_chars, to_chars, views,
};
use crate::frontmatter::{eq_chars, str_eq};

verus! {

/// Directories that a vault walk never enters: hidden ones (their name
/// starts with `.`, such as `.obsidian`, `.git` or `.trash`) and `target`.
pub open spec fn skipped_dir(name: Seq<char>) -> bool {
    (name.len() > 0 && name[0] == '.') || name == "target"@
}

/// Whether a directory of this name is skipped when walking the vault.
pub fn should_skip(name: &str) -> (b: bool)
    ensures
        b == skipped_dir(name@),
{
    let n = to_chars(name);
    (n.len() > 0 && n[0] == '.') || str_eq(name, "target")
}

/// The last component of a list of path segments, skipping empty and `.`
/// segments.
pub open spec fn last_component(segs: Seq<Seq<char>>) -> Option<Seq<char>>
    decreases segs.len(),
{
    if segs.len() == 0 {
        None
    } else {
        let l = segs.last();
        if l.len() == 0 || l == seq!['.'] {
            last_component(segs.drop_last())
        } else {
            Some(l)
        }
    }
}

/// The final component of a `/`-separated path (`Path::file_name`): none
/// when the path has no component or ends in `..`.
pub open spec fn file_name(p: Seq<char>) -> Option<Seq<char>> {
    match last_component(split_char(p, '/')) {
        Some(c) => if c == seq!['.', '.'] {
            None
        } else {
            Some(c)
        },
        None => None,
    }
}

/// A file name split at its last `.` (`Path::file_stem`, `Path::extension`):
/// a name without a `.`, or whose only `.` comes first, has no extension.
pub open spec fn stem_and_ext(name: Seq<char>) -> (Seq<char>, Option<Seq<char>>) {
    match rfind_char(name, '.') {
        Some(i) => if i == 0 {
            (name, None)
        } else {
            (name.take(i), Some(name.skip(i + 1)))
        },
        None => (name, None),
    }
}

/// The stem of a path's file name.
pub open spec fn file_stem(p: Seq<char>) -> Option<Seq<char>> {
    match file_name(p) {
        Some(n) => Some(stem_and_ext(n).0),
        None => None,
    }
}

/// The extension of a path's file name.
pub open spec fn extension(p: Seq<char>) -> Option<Seq<char>> {
    match file_name(p) {
        Some(n) => stem_and_ext(n).1,
        None => None,
    }
}

/// The final component of a `/`-separated path.
pub fn file_name_exec(p: &[char]) -> (r: Option<Vec<char>>)
    ensures
        match r {
            Some(v) => file_name(p@) == Some(v@),
            None => file_name(p@) is None,
        },
{
    let segs = split_char_exec(p, '/');
    let mut j = segs.len();
    let dot: [char; 1] = ['.'];
    let dotdot: [char; 2] = ['.', '.'];
    proof {
        assert(views(segs@).take(j as int) =~= views(segs@));
    }
    while j > 0
        invariant
            j <= segs.len(),
            dot@ == seq!['.'],
            dotdot@ == seq!['.', '.'],
            views(segs@) == split_char(p@, '/'),
            last_component(views(segs@)) == last_component(views(segs@).take(j as int)),
        decreases j,
    {
        let l = &segs[j - 1];
        let ghost t = views(segs@).take(j as int);
        proof {
            assert(t.last() == l@);
            assert(t.drop_last() =~= views(segs@).take(j - 1));
        }
        if l.len() == 0 || eq_chars(l, dot.as_slice()) {
            j = j - 1;
        } else {
            proof {
                assert(last_component(t) == Some(l@));
            }
            if eq_chars(l, dotdot.as_slice()) {
                return None;
            }
            return Some(vstd::slice::slice_to_vec(l.as_slice()));
        }
    }
    None
}

/// A file name split at its last `.`.
pub fn stem_and_ext_exec(name: &[char]) -> (r: (Vec<char>, Option<Vec<char>>))
    ensures
        stem_and_ext(name@) == (r.0@, match r.1 {
            Some(e) => Some(e@),
            None => None,
        }),
{
    match rfind_char_exec(name, '.') {
        Some(i) => {
            proof { lemma_rfind_char_to(name@, '.', name@.len() as int); }
            if i == 0 {
                (vstd::slice::slice_to_vec(name), None)
            } else {
                let n = name.len();
                assert(i < n);
                (sub_chars(name, 0, i), Some(sub_chars(name, i + 1, n)))
            }
        },
        None => (vstd::slice::slice_to_vec(name), None),
    }
}

/// The stem of a path's file name.
pub fn file_stem_exec(p: &[char]) -> (r: Option<Vec<char>>)
    ensures
        match r {
            Some(v) => file_stem(p@) == Some(v@),
            None => file_stem(p@) is None,
        },
{
    match file_name_exec(p) {
        Some(n) => Some(stem_and_ext_exec(&n).0),
        None => None,
    }
}

/// The extension of a path's file name.
pub fn extension_exec(p: &[char]) -> (r: Option<Vec<char>>)
    ensures
        match r {
            Some(v) => extension(p@) == Some(v@),
            None => extension(p@) is None,
        },
{
    match file_name_exec(p) {
        Some(n) => stem_and_ext_exec(&n).1,
        None => None,
    }
}

/// Markdown, PDF, or any other file.
#[derive(Debug, Clone, Copy, PartialEq, Eq)]
pub enum FileKind {
    Md,
    Pdf,
    Other,
}

/// The kind of a file, by its extension: `md`, `pdf`, or anything else.
pub fn classify_file(path: &str) -> (k: FileKind)
    ensures
        extension(path@) == Some("md"@) ==> k is Md,
        extension(path@) == Some("pdf"@) ==> k is Pdf,
        extension(path@) != Some("md"@) && extension(path@) != Some("pdf"@) ==> k is Other,
{
    proof {
        reveal_strlit("md");
        reveal_strlit("pdf");
        assert("md"@.len() != "pdf"@.len());
    }
    let p = to_chars(path);
    let md = to_chars("md");
    let pdf = to_chars("pdf");
    match extension_exec(&p) {
        Some(e) => if eq_chars(&e, &md) {
            FileKind::Md
        } else if eq_chars(&e, &pdf) {
            FileKind::Pdf
        } else {
            FileKind::Other
        },
        None => FileKind::Other,
    }
}

} // verus!
