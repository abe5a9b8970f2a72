//! Ingesting a source: how it is classified (URL, PDF or Markdown), the
//! title suggested for it, the slug a web page is staged under, the name of
//! the scratch file that holds its text, and the stub that describes it.
//! Fetching, copying and extracting are done by the caller; this module
//! decides what those steps are given and what comes of them.

use vstd::prelude::*;
use vstd::string::StringSliceAdditionalSpecFns;
use vstd::std_specs::hash::DefaultHasherAdditionalSpecFns;
use std::collections::hash_map::DefaultHasher;
use std::hash::Hasher;
use crate::frontmatter::eq_chars;
use crate::text::{
    append_chars, before_char, before_char_exec, char_is_alphanumeric, from_chars, is_alphanumeric,
    join, join_exec, split_char, split_char_exec, starts_with, starts_with_exec, to_chars,
    to_uppercase_char, trim_char, trim_char_exec, trim_start_str, trim_start_str_exec,
    uppercase_char, views, words, words_exec, lemma_split_char_nonempty, lowercase, lowercase_chars,
};
use crate::vault::{extension, extension_exec, file_name, file_name_exec, file_stem, file_stem_exec};

verus! {

// ---------------------------------------------------------------------------
// Classifying a source
// ---------------------------------------------------------------------------

/// `s` names a web page: it starts with `http://` or `https://`.
pub open spec fn names_url(s: Seq<char>) -> bool {
    starts_with(s, "http://"@) || starts_with(s, "https://"@)
}

/// Whether `s` is a URL to fetch rather than a file to read.
pub fn is_url(s: &str) -> (b: bool)
    ensures
        b == names_url(s@),
{
    let c = to_chars(s);
    starts_with_exec(&c, &to_chars("http://")) || starts_with_exec(&c, &to_chars("https://"))
}

/// What a source is ingested as.
#[derive(Debug, Clone, Copy, PartialEq, Eq)]
pub enum SourceKind {
    Url,
    Pdf,
    Md,
}

/// The kind of a source: a URL when it names one; otherwise a PDF when the
/// file's extension, lowercased, is `pdf`; otherwise Markdown (plain text and
/// every other file are read as Markdown).
pub open spec fn kind_of(source: Seq<char>) -> SourceKind {
    if names_url(source) {
        SourceKind::Url
    } else if extension(source) is Some && lowercase(extension(source)->0) == "pdf"@ {
        SourceKind::Pdf
    } else {
        SourceKind::Md
    }
}

/// The kind of `source`.
pub fn source_kind(source: &str) -> (k: SourceKind)
    ensures
        k == kind_of(source@),
{
    if is_url(source) {
        return SourceKind::Url;
    }
    let p = to_chars(source);
    match extension_exec(&p) {
        Some(e) => {
            let l = lowercase_chars(&e);
            if eq_chars(&l, &to_chars("pdf")) {
                SourceKind::Pdf
            } else {
                SourceKind::Md
            }
        },
        None => SourceKind::Md,
    }
}

/// The name of a kind, as the stub records it.
pub open spec fn kind_name(k: SourceKind) -> Seq<char> {
    match k {
        SourceKind::Url => "url"@,
        SourceKind::Pdf => "pdf"@,
        SourceKind::Md => "md"@,
    }
}

// ---------------------------------------------------------------------------
// Titles
// ---------------------------------------------------------------------------

/// A word with its first character uppercased (`char::to_uppercase`) and the
/// rest unchanged.
pub open spec fn capitalized(w: Seq<char>) -> Seq<char> {
    if w.len() == 0 {
        seq![]
    } else {
        uppercase_char(w[0]) + w.skip(1)
    }
}

/// The whitespace-separated words of `s`, each capitalized, joined by single
/// spaces.
pub open spec fn title_cased(s: Seq<char>) -> Seq<char> {
    join(words(s).map_values(|w: Seq<char>| capitalized(w)), seq![' '])
}

/// `s` in title case: every word capitalized, runs of whitespace collapsed
/// to one space, leading and trailing whitespace dropped.
pub fn title_case(s: &str) -> (r: String)
    ensures
        r@ == title_cased(s@),
{
    let ws = words_exec(&to_chars(s));
    let mut caps: Vec<Vec<char>> = Vec::new();
    let mut i: usize = 0;
    while i < ws.len()
        invariant
            i <= ws.len(),
            views(caps@) == views(ws@).take(i as int).map_values(|w: Seq<char>| capitalized(w)),
        decreases ws.len() - i,
    {
        let w = &ws[i];
        let mut c: Vec<char> = Vec::new();
        if w.len() > 0 {
            c = to_chars(to_uppercase_char(w[0]).as_str());
            let n = w.len();
            let mut k: usize = 1;
            while k < n
                invariant
                    1 <= k <= n,
                    n == w@.len(),
                    c@ == uppercase_char(w@[0]) + w@.subrange(1, k as int),
                decreases n - k,
            {
                c.push(w[k]);
                proof {
                    assert(w@.subrange(1, k + 1) =~= w@.subrange(1, k as int).push(w@[k as int]));
                }
                k = k + 1;
            }
            proof { assert(w@.subrange(1, n as int) =~= w@.skip(1)); }
        } else {
            proof { assert(c@ =~= capitalized(w@)); }
        }
        let ghost o = caps@;
        caps.push(c);
        proof {
            assert(views(caps@) =~= views(o).push(capitalized(w@)));
            assert(views(ws@).take(i + 1) =~= views(ws@).take(i as int).push(w@));
            assert(views(caps@) =~= views(ws@).take(i + 1).map_values(|w: Seq<char>| capitalized(w)));
        }
        i = i + 1;
    }
    proof { assert(views(ws@).take(ws.len() as int) =~= views(ws@)); }
    let sep: [char; 1] = [' '];
    assert(sep@ =~= seq![' ']);
    let j = join_exec(&caps, sep.as_slice());
    proof {
        assert(views(caps@) == words(s@).map_values(|w: Seq<char>| capitalized(w)));
    }
    from_chars(&j)
}

/// `s` with every `-` and `_` turned into a space.
pub open spec fn spaced(s: Seq<char>) -> Seq<char> {
    s.map_values(|c: char| if c == '-' || c == '_' { ' ' } else { c })
}

/// The title suggested for a file stem: hyphens and underscores become
/// spaces, then the result is title-cased.
pub open spec fn stem_title(stem: Seq<char>) -> Seq<char> {
    title_cased(spaced(stem))
}

/// The title suggested for a file with stem `stem`.
pub fn stem_to_title(stem: &str) -> (r: String)
    ensures
        r@ == stem_title(stem@),
{
    let s = to_chars(stem);
    let mut d: Vec<char> = Vec::new();
    let mut i: usize = 0;
    while i < s.len()
        invariant
            i <= s.len(),
            d@ == spaced(s@.take(i as int)),
        decreases s.len() - i,
    {
        let c = s[i];
        d.push(if c == '-' || c == '_' { ' ' } else { c });
        proof { assert(d@ =~= spaced(s@.take(i + 1))); }
        i = i + 1;
    }
    proof { assert(s@.take(s.len() as int) =~= s@); }
    title_case(from_chars(&d).as_str())
}

// ---------------------------------------------------------------------------
// Web pages
// ---------------------------------------------------------------------------

/// The last non-empty piece, if any.
pub open spec fn last_nonempty(ps: Seq<Seq<char>>) -> Option<Seq<char>>
    decreases ps.len(),
{
    if ps.len() == 0 {
        None
    } else if ps.last().len() > 0 {
        Some(ps.last())
    } else {
        last_nonempty(ps.drop_last())
    }
}

/// `s` with every character that is not alphanumeric turned into `-`.
pub open spec fn dashed(s: Seq<char>) -> Seq<char> {
    s.map_values(|c: char| if char_is_alphanumeric(c) { c } else { '-' })
}

/// `s` with every `.` turned into `-`.
pub open spec fn undotted(s: Seq<char>) -> Seq<char> {
    s.map_values(|c: char| if c == '.' { '-' } else { c })
}

/// The slug a web page is staged under. Leading `https://` and then
/// `http://` prefixes are dropped and the rest is split at `/`. When there is
/// a path, its last non-empty segment (or `page`) is cut at the first `?`
/// and then at the first `#`, every non-alphanumeric character becomes `-`,
/// and dashes are trimmed from both ends. A bare domain is cut at the first
/// `?` and its dots become dashes.
pub open spec fn url_slug(url: Seq<char>) -> Seq<char> {
    let rest = trim_start_str(trim_start_str(url, "https://"@), "http://"@);
    let parts = split_char(rest, '/');
    if parts.len() > 1 {
        let last = match last_nonempty(parts) {
            Some(p) => p,
            None => "page"@,
        };
        trim_char(dashed(before_char(before_char(last, '?'), '#')), '-')
    } else {
        undotted(before_char(parts[0], '?'))
    }
}

/// The slug for `url`.
pub fn url_to_slug(url: &str) -> (r: String)
    ensures
        r@ == url_slug(url@),
{
    let u = to_chars(url);
    let a = trim_start_str_exec(&u, &to_chars("https://"));
    let rest = trim_start_str_exec(&a, &to_chars("http://"));
    let parts = split_char_exec(&rest, '/');
    proof { lemma_split_char_nonempty(rest@, '/'); }
    if parts.len() > 1 {
        let mut j = parts.len();
        proof { assert(views(parts@).take(j as int) =~= views(parts@)); }
        let mut last: Vec<char> = to_chars("page");
        let mut found = false;
        while j > 0 && !found
            invariant
                j <= parts.len(),
                !found ==> last_nonempty(views(parts@)) == last_nonempty(views(parts@).take(j as int)),
                !found ==> last@ == "page"@,
                found ==> last_nonempty(views(parts@)) == Some(last@),
            decreases j + (if found { 0int } else { 1int }),
        {
            let ghost t = views(parts@).take(j as int);
            proof {
                assert(t.last() == parts@[j - 1]@);
                assert(t.drop_last() =~= views(parts@).take(j - 1));
            }
            if parts[j - 1].len() > 0 {
                last = vstd::slice::slice_to_vec(parts[j - 1].as_slice());
                found = true;
            } else {
                j = j - 1;
            }
        }
        proof {
            let ln = match last_nonempty(views(parts@)) {
                Some(p) => p,
                None => "page"@,
            };
            if !found {
                assert(views(parts@).take(0) =~= Seq::<Seq<char>>::empty());
            }
            assert(last@ == ln);
        }
        let cut = before_char_exec(&before_char_exec(&last, '?'), '#');
        let mut d: Vec<char> = Vec::new();
        let mut i: usize = 0;
        while i < cut.len()
            invariant
                i <= cut.len(),
                d@ == dashed(cut@.take(i as int)),
            decreases cut.len() - i,
        {
            let c = cut[i];
            d.push(if is_alphanumeric(c) { c } else { '-' });
            proof { assert(d@ =~= dashed(cut@.take(i + 1))); }
            i = i + 1;
        }
        proof { assert(cut@.take(cut.len() as int) =~= cut@); }
        from_chars(&trim_char_exec(&d, '-'))
    } else {
        let dom = before_char_exec(&parts[0], '?');
        let mut d: Vec<char> = Vec::new();
        let mut i: usize = 0;
        while i < dom.len()
            invariant
                i <= dom.len(),
                d@ == undotted(dom@.take(i as int)),
            decreases dom.len() - i,
        {
            let c = dom[i];
            d.push(if c == '.' { '-' } else { c });
            proof { assert(d@ =~= undotted(dom@.take(i + 1))); }
            i = i + 1;
        }
        proof { assert(dom@.take(dom.len() as int) =~= dom@); }
        from_chars(&d)
    }
}

/// The title suggested for a web page: its slug with dashes as spaces, in
/// title case.
pub open spec fn url_title(url: Seq<char>) -> Seq<char> {
    title_cased(url_slug(url).map_values(|c: char| if c == '-' { ' ' } else { c }))
}

fn url_to_title(url: &str) -> (r: String)
    ensures
        r@ == url_title(url@),
{
    let slug = to_chars(url_to_slug(url).as_str());
    let mut d: Vec<char> = Vec::new();
    let mut i: usize = 0;
    while i < slug.len()
        invariant
            i <= slug.len(),
            d@ == slug@.take(i as int).map_values(|c: char| if c == '-' { ' ' } else { c }),
        decreases slug.len() - i,
    {
        let c = slug[i];
        d.push(if c == '-' { ' ' } else { c });
        proof {
            assert(d@ =~= slug@.take(i + 1).map_values(|c: char| if c == '-' { ' ' } else { c }));
        }
        i = i + 1;
    }
    proof { assert(slug@.take(slug.len() as int) =~= slug@); }
    title_case(from_chars(&d).as_str())
}

/// What `html2text::from_read` renders from the HTML `html` at `width`
/// columns, or none when it fails.
pub uninterp spec fn rendered_text(html: Seq<char>, width: nat) -> Option<Seq<char>>;

/// Calls `html2text::from_read` on the bytes of `html` with `width`
/// columns; the result is `rendered_text(html@, width)`, an error becoming
/// none.
#[verifier::external_body]
fn render_html(html: &str, width: usize) -> (r: Option<String>)
    ensures
        match r {
            Some(t) => rendered_text(html@, width as nat) == Some(t@),
            None => rendered_text(html@, width as nat) is None,
        },
{
    match html2text::from_read(html.as_bytes(), width) {
        Ok(t) => Some(t),
        Err(_) => None,
    }
}

/// Why an ingest failed in this module's part of it.
#[derive(Debug, Clone, Copy, PartialEq, Eq)]
pub enum IngestError {
    /// The fetched page could not be turned into text.
    Unrenderable,
}

/// The text of a fetched web page, rendered at 80 columns.
pub fn page_text(html: &str) -> (r: Result<String, IngestError>)
    ensures
        match r {
            Ok(t) => rendered_text(html@, 80) == Some(t@),
            Err(_) => rendered_text(html@, 80) is None,
        },
{
    match render_html(html, 80) {
        Some(t) => Ok(t),
        None => Err(IngestError::Unrenderable),
    }
}

// ---------------------------------------------------------------------------
// The scratch file
// ---------------------------------------------------------------------------

/// The lowercase hexadecimal digit for `d < 16`.
pub open spec fn hex_digit(d: nat) -> char {
    if d < 10 {
        crate::text::digit_char(d)
    } else if d == 10 { 'a' } else if d == 11 { 'b' } else if d == 12 { 'c' }
    else if d == 13 { 'd' } else if d == 14 { 'e' } else { 'f' }
}

/// The lowercase hexadecimal representation of `n`, without leading zeros.
pub open spec fn hex(n: nat) -> Seq<char>
    decreases n,
{
    if n < 16 {
        seq![hex_digit(n)]
    } else {
        hex(n / 16).push(hex_digit(n % 16))
    }
}

/// `n` in lowercase hexadecimal, zero-padded to at least eight digits
/// (`{:08x}`).
pub open spec fn hex8(n: nat) -> Seq<char> {
    let h = hex(n);
    if h.len() < 8 {
        Seq::new((8 - h.len()) as nat, |i: int| '0') + h
    } else {
        h
    }
}

fn hex_digit_exec(d: u64) -> (c: char)
    requires
        d < 16,
    ensures
        c == hex_digit(d as nat),
{
    if d == 0 { '0' } else if d == 1 { '1' } else if d == 2 { '2' } else if d == 3 { '3' }
    else if d == 4 { '4' } else if d == 5 { '5' } else if d == 6 { '6' } else if d == 7 { '7' }
    else if d == 8 { '8' } else if d == 9 { '9' } else if d == 10 { 'a' } else if d == 11 { 'b' }
    else if d == 12 { 'c' } else if d == 13 { 'd' } else if d == 14 { 'e' } else { 'f' }
}

fn hex_exec(n: u64) -> (r: Vec<char>)
    ensures
        r@ == hex(n as nat),
    decreases n,
{
    if n < 16 {
        let mut v: Vec<char> = Vec::new();
        v.push(hex_digit_exec(n));
        proof { assert(v@ =~= seq![hex_digit(n as nat)]); }
        v
    } else {
        let mut v = hex_exec(n / 16);
        v.push(hex_digit_exec(n % 16));
        v
    }
}

/// `n` as eight or more lowercase hexadecimal digits.
pub fn hex8_exec(n: u64) -> (r: String)
    ensures
        r@ == hex8(n as nat),
{
    let h = hex_exec(n);
    if h.len() < 8 {
        let mut v: Vec<char> = Vec::new();
        let k = 8 - h.len();
        let mut i: usize = 0;
        while i < k
            invariant
                i <= k,
                v@ == Seq::new(i as nat, |j: int| '0'),
            decreases k - i,
        {
            v.push('0');
            proof { assert(v@ =~= Seq::new((i + 1) as nat, |j: int| '0')); }
            i = i + 1;
        }
        append_chars(&mut v, &h);
        from_chars(&v)
    } else {
        from_chars(&h)
    }
}

/// What `s.hash(&mut DefaultHasher::new())` followed by `finish` gives: the
/// hasher is fed the UTF-8 bytes of `s` and then the byte `0xff`.
pub open spec fn str_hash(s: &str) -> u64 {
    DefaultHasher::spec_finish(seq![s.spec_bytes(), seq![0xffu8]])
}

/// Eight or more hex digits naming `s`: its hash under std's default hasher.
pub fn sha8_of_path(s: &str) -> (r: String)
    ensures
        r@ == hex8(str_hash(s) as nat),
{
    let mut hasher = DefaultHasher::new();
    hasher.write(s.as_bytes());
    let end: [u8; 1] = [0xffu8];
    hasher.write(end.as_slice());
    proof {
        assert(end@ =~= seq![0xffu8]);
        assert(hasher@ =~= seq![s.spec_bytes(), seq![0xffu8]]);
    }
    hex8_exec(hasher.finish())
}

/// The name of the scratch file holding the text of the source named `key`:
/// `summa-<hash>.txt`.
pub fn text_file_name(key: &str) -> (r: String)
    ensures
        r@ == "summa-"@ + hex8(str_hash(key) as nat) + ".txt"@,
{
    let mut v = to_chars("summa-");
    append_chars(&mut v, &to_chars(sha8_of_path(key).as_str()));
    append_chars(&mut v, &to_chars(".txt"));
    from_chars(&v)
}

// ---------------------------------------------------------------------------
// The stub
// ---------------------------------------------------------------------------

/// What an ingest reports: where the source came from, what kind it is,
/// where it was staged, where its text was written, the title suggested for
/// its summary and its size in bytes.
#[derive(Debug)]
pub struct IngestStub {
    pub source: String,
    pub kind: String,
    pub staged_path: String,
    pub extracted_text_path: String,
    pub suggested_title: String,
    pub bytes: u64,
}

/// The name a source is staged under in the vault: `<slug>.md` for a web
/// page; otherwise the file name of the located file, or `unknown.pdf` /
/// `unknown.md` when it has none.
pub open spec fn staged_name(source: Seq<char>, located: Seq<char>) -> Seq<char> {
    match kind_of(source) {
        SourceKind::Url => url_slug(source) + ".md"@,
        SourceKind::Pdf => match file_name(located) {
            Some(n) => n,
            None => "unknown.pdf"@,
        },
        SourceKind::Md => match file_name(located) {
            Some(n) => n,
            None => "unknown.md"@,
        },
    }
}

/// The name `source` is staged under, `located` being where the file was
/// found (unused for web pages).
pub fn staging_name(source: &str, located: &str) -> (r: String)
    ensures
        r@ == staged_name(source@, located@),
{
    match source_kind(source) {
        SourceKind::Url => {
            let mut v = to_chars(url_to_slug(source).as_str());
            append_chars(&mut v, &to_chars(".md"));
            from_chars(&v)
        },
        k => match file_name_exec(&to_chars(located)) {
            Some(n) => from_chars(&n),
            None => match k {
                SourceKind::Pdf => from_chars(&to_chars("unknown.pdf")),
                _ => from_chars(&to_chars("unknown.md")),
            },
        },
    }
}

/// The title suggested for a source: from the slug of a web page, else from
/// the stem of the located file (`Unknown` when it has none).
pub open spec fn suggested_title(source: Seq<char>, located: Seq<char>) -> Seq<char> {
    if names_url(source) {
        url_title(source)
    } else {
        match file_stem(located) {
            Some(st) => stem_title(st),
            None => stem_title("Unknown"@),
        }
    }
}

/// The stub describing an ingested source. `source` is what was asked for;
/// `located` the absolute path of the file it names (unused for a web page);
/// `staged_path` where it was staged, relative to the vault when possible;
/// `extracted_text_path` where its text was written; `bytes` its size (for
/// a web page, the size of its rendered text).
pub fn run(source: &str, located: &str, staged_path: &str, extracted_text_path: &str, bytes: u64) -> (r: IngestStub)
    ensures
        r.source@ == (if names_url(source@) { source@ } else { located@ }),
        r.kind@ == kind_name(kind_of(source@)),
        r.staged_path@ == staged_path@,
        r.extracted_text_path@ == extracted_text_path@,
        r.suggested_title@ == suggested_title(source@, located@),
        r.bytes == bytes,
{
    let k = source_kind(source);
    let kind = match k {
        SourceKind::Url => from_chars(&to_chars("url")),
        SourceKind::Pdf => from_chars(&to_chars("pdf")),
        SourceKind::Md => from_chars(&to_chars("md")),
    };
    let (origin, title) = if is_url(source) {
        (from_chars(&to_chars(source)), url_to_title(source))
    } else {
        let t = match file_stem_exec(&to_chars(located)) {
            Some(st) => stem_to_title(from_chars(&st).as_str()),
            None => stem_to_title("Unknown"),
        };
        (from_chars(&to_chars(located)), t)
    };
    IngestStub {
        source: origin,
        kind,
        staged_path: from_chars(&to_chars(staged_path)),
        extracted_text_path: from_chars(&to_chars(extracted_text_path)),
        suggested_title: title,
        bytes,
    }
}

} // verus!
