//! Vault health checks: pages missing from the index, source summaries
//! older than their source, sources never summarised, the repair of
//! malformed links and of links that miss a page's title only by case or
//! spacing, and the report that gathers them.

use vstd::prelude::*;
use crate::frontmatter::{eq_chars, is_summa_owned, str_eq, summa_owned, SummaFrontmatter};
use crate::index::{
    index_end, index_start, index_views, managed_page, page_title, title_exec, IndexPage,
    IndexPageView,
};
use crate::links::{is_managed_name, string_views};
use crate::order::{insert_pos, sort_chars, sorted_seq};
use crate::text::{
    append_chars, contains, contains_exec, find, find_exec, from_chars, lemma_find_from, starts_with, starts_with_exec, sub_chars, to_chars, views,
    trim_start_str, trim_start_str_exec, replace_all, replace_all_exec, decimal, decimal_exec,
};
use crate::vault::{extension, extension_exec, file_name_exec};

verus! {

/// A dangling link target and the pages that link to it.
#[derive(Debug)]
pub struct DanglingItem {
    pub target: String,
    pub in_files: Vec<String>,
}

/// A dangling link target that a page matches up to case, spacing or an
/// alias: the target, that page's stem, and the pages that link to it.
#[derive(Debug)]
pub struct RepairableItem {
    pub target: String,
    pub canonical: String,
    pub in_files: Vec<String>,
}

/// A page whose frontmatter does not parse: its path and the parser's
/// message.
#[derive(Debug)]
pub struct FrontmatterProblem {
    pub file: String,
    pub error: String,
}

/// A malformed link, where it is, and its repaired form.
#[derive(Debug)]
pub struct MalformedItem {
    pub file: String,
    pub raw: String,
    pub fix: String,
}

/// A source summary ingested before its source last changed.
#[derive(Debug)]
pub struct StaleItem {
    pub file: String,
    pub ingested: String,
    pub source: String,
    pub source_mtime: String,
}

/// A change made by a repair.
#[derive(Debug)]
pub struct FixRecord {
    pub file: String,
    pub change: String,
}

/// Every finding of a lint run.
#[derive(Debug)]
pub struct LintReport {
    pub orphans: Vec<String>,
    pub dangling: Vec<DanglingItem>,
    pub repairable: Vec<RepairableItem>,
    pub malformed: Vec<MalformedItem>,
    pub malformed_frontmatter: Vec<FrontmatterProblem>,
    pub missing_index: Vec<String>,
    pub stale_vs_source: Vec<StaleItem>,
    pub un_ingested: Vec<String>,
    pub fixed: Vec<FixRecord>,
}

/// How a lint run behaves: whether it repairs, whether repairs may touch
/// human notes, and whether the report is printed as JSON.
#[derive(Debug)]
pub struct LintOpts {
    pub fix: bool,
    pub include_human: bool,
    pub json: bool,
}

// ---------------------------------------------------------------------------
// Missing from the index
// ---------------------------------------------------------------------------

/// `index.md` has its first end anchor before the end of its first start
/// anchor (reading the section between them is then impossible).
pub open spec fn anchors_crossed(c: Seq<char>) -> bool {
    find(c, index_start()) is Some && find(c, index_end()) is Some
        && find(c, index_end())->0 < find(c, index_start())->0 + index_start().len()
}

/// The text between the first start anchor and the first end anchor, or
/// nothing when either is missing.
pub open spec fn between_anchors(c: Seq<char>) -> Seq<char> {
    match (find(c, index_start()), find(c, index_end())) {
        (Some(s), Some(e)) => c.subrange(s + index_start().len(), e),
        _ => seq![],
    }
}

/// The generated section of `index.md`.
pub fn extract_between_anchors(content: &str) -> (r: String)
    requires
        !anchors_crossed(content@),
    ensures
        r@ == between_anchors(content@),
{
    let c = to_chars(content);
    let st = to_chars("<!-- summa:index-start -->");
    let en = to_chars("<!-- summa:index-end -->");
    match (find_exec(&c, &st), find_exec(&c, &en)) {
        (Some(s), Some(e)) => {
            proof {
                lemma_find_from(c@, st@, 0);
                lemma_find_from(c@, en@, 0);
            }
            let n = c.len();
            assert(s + st.len() <= n);
            from_chars(&sub_chars(&c, s + st.len(), e))
        },
        _ => String::new(),
    }
}

/// The owned pages whose title does not appear in the index section, in
/// walk order.
pub open spec fn missing_of(ps: Seq<IndexPageView>, anchored: Seq<char>) -> Seq<Seq<char>>
    decreases ps.len(),
{
    if ps.len() == 0 {
        seq![]
    } else {
        let r = missing_of(ps.drop_last(), anchored);
        let p = ps.last();
        if !managed_page(p) && summa_owned(p.content) && !contains(anchored, page_title(p)) {
            r.push(p.path)
        } else {
            r
        }
    }
}

/// The paths, sorted, of the owned pages (other than `index.md` and
/// `log.md`) whose title does not appear in the generated section of
/// `index_content`.
pub fn check_missing_index(index_content: &str, pages: &[IndexPage]) -> (r: Vec<String>)
    requires
        !anchors_crossed(index_content@),
    ensures
        string_views(r@) == sorted_seq(missing_of(index_views(pages@), between_anchors(index_content@))),
{
    let anchored = extract_between_anchors(index_content);
    let a = to_chars(anchored.as_str());
    let ghost ps = index_views(pages@);
    let mut out: Vec<Vec<char>> = Vec::new();
    let mut i: usize = 0;
    while i < pages.len()
        invariant
            i <= pages.len(),
            ps == index_views(pages@),
            a@ == between_anchors(index_content@),
            views(out@) == missing_of(ps.take(i as int), a@),
        decreases pages.len() - i,
    {
        proof {
            assert(ps.take(i + 1).drop_last() =~= ps.take(i as int));
            assert(ps.take(i + 1).last() == pages@[i as int]@);
        }
        let p = &pages[i];
        let path = to_chars(p.path.as_str());
        let managed = match file_name_exec(&path) {
            Some(n) => is_managed_name(&n),
            None => false,
        };
        if !managed && is_summa_owned(p.content.as_str()) {
            let t = title_exec(p);
            if !contains_exec(&a, &t) {
                let ghost o = out@;
                out.push(path);
                proof { crate::text::lemma_views_push(o, out@.last()); }
            }
        }
        i = i + 1;
    }
    proof { assert(ps.take(pages.len() as int) =~= ps); }
    let sorted = sort_chars(&out);
    crate::links::strings_of_chars(&sorted)
}


// ---------------------------------------------------------------------------
// Un-ingested sources
// ---------------------------------------------------------------------------

/// A file of the vault: its path relative to the root, and for markdown
/// files their text (none when unreadable or not markdown).
#[derive(Debug)]
pub struct VaultFile {
    pub path: String,
    pub content: Option<String>,
}

/// The `source:` paths of the source summaries, without leading `./`.
pub open spec fn sources_named(ps: Seq<IndexPageView>) -> Seq<Seq<char>>
    decreases ps.len(),
{
    if ps.len() == 0 {
        seq![]
    } else {
        let r = sources_named(ps.drop_last());
        let p = ps.last();
        if p.summa == Some("source-summary"@) && p.source is Some {
            r.push(trim_start_str(p.source->0, "./"@))
        } else {
            r
        }
    }
}

/// `path` names a file directly in `Clippings/`, not in a folder below it.
pub open spec fn in_clippings(path: Seq<char>) -> bool {
    starts_with(path, "Clippings/"@) && crate::text::find_char_from(path, '/', 10) is None
}

/// A file no source summary points at: a PDF anywhere, or a markdown file
/// directly in `Clippings/` that this tool does not own.
pub open spec fn un_ingested_file(path: Seq<char>, content: Option<Seq<char>>, sourced: Seq<Seq<char>>) -> bool {
    if extension(path) == Some("pdf"@) {
        !sourced.contains(path)
    } else if in_clippings(path) && extension(path) == Some("md"@) {
        content is Some && !summa_owned(content->0) && !sourced.contains(path)
    } else {
        false
    }
}

pub open spec fn file_content(f: VaultFile) -> Option<Seq<char>> {
    match f.content {
        Some(c) => Some(c@),
        None => None,
    }
}

/// The un-ingested files, in walk order.
pub open spec fn un_ingested_of(fs: Seq<VaultFile>, sourced: Seq<Seq<char>>) -> Seq<Seq<char>>
    decreases fs.len(),
{
    if fs.len() == 0 {
        seq![]
    } else {
        let r = un_ingested_of(fs.drop_last(), sourced);
        let f = fs.last();
        if un_ingested_file(f.path@, file_content(f), sourced) {
            r.push(f.path@)
        } else {
            r
        }
    }
}

fn sources_named_exec(pages: &[IndexPage]) -> (r: Vec<Vec<char>>)
    ensures
        views(r@) == sources_named(index_views(pages@)),
{
    let ghost ps = index_views(pages@);
    let dot = to_chars("./");
    let mut r: Vec<Vec<char>> = Vec::new();
    let mut i: usize = 0;
    while i < pages.len()
        invariant
            i <= pages.len(),
            ps == index_views(pages@),
            dot@ == "./"@,
            views(r@) == sources_named(ps.take(i as int)),
        decreases pages.len() - i,
    {
        proof {
            assert(ps.take(i + 1).drop_last() =~= ps.take(i as int));
            assert(ps.take(i + 1).last() == pages@[i as int]@);
        }
        let p = &pages[i];
        if crate::index::summa_is(p, "source-summary") {
            match &p.fm {
                Some(f) => match &f.source {
                    Some(src) => {
                        let ghost o = r@;
                        r.push(trim_start_str_exec(&to_chars(src.as_str()), &dot));
                        proof { crate::text::lemma_views_push(o, r@.last()); }
                    },
                    None => {},
                },
                None => {},
            }
        }
        i = i + 1;
    }
    proof { assert(ps.take(pages.len() as int) =~= ps); }
    r
}

/// The files, sorted, that no source summary points at: PDFs anywhere, and
/// markdown files directly in `Clippings/` that this tool does not own. `files` are
/// all files of the vault; `pages` its readable markdown pages.
pub fn check_un_ingested(files: &[VaultFile], pages: &[IndexPage]) -> (r: Vec<String>)
    ensures
        string_views(r@) == sorted_seq(un_ingested_of(files@, sources_named(index_views(pages@)))),
{
    let sourced = sources_named_exec(pages);
    let ghost sd = views(sourced@);
    let pdf = to_chars("pdf");
    let md = to_chars("md");
    let clip = to_chars("Clippings/");
    let mut out: Vec<Vec<char>> = Vec::new();
    let mut i: usize = 0;
    while i < files.len()
        invariant
            i <= files.len(),
            sd == views(sourced@),
            pdf@ == "pdf"@,
            md@ == "md"@,
            clip@ == "Clippings/"@,
            views(out@) == un_ingested_of(files@.take(i as int), sd),
        decreases files.len() - i,
    {
        proof {
            assert(files@.take(i + 1).drop_last() =~= files@.take(i as int));
            assert(files@.take(i + 1).last() == files@[i as int]);
        }
        let f = &files[i];
        let path = to_chars(f.path.as_str());
        let ext = extension_exec(&path);
        let is_pdf = match &ext {
            Some(e) => eq_chars(e, &pdf),
            None => false,
        };
        let is_md = match &ext {
            Some(e) => eq_chars(e, &md),
            None => false,
        };
        let hit = if is_pdf {
            !crate::links::contains_chars(&sourced, &path)
        } else if starts_with_exec(&path, &clip) && crate::text::find_char_from_exec(&path, '/', 10).is_none() && is_md {
            match &f.content {
                Some(c) => !is_summa_owned(c.as_str()) && !crate::links::contains_chars(&sourced, &path),
                None => false,
            }
        } else {
            false
        };
        proof {
            assert(hit == un_ingested_file(f.path@, file_content(*f), sd));
        }
        if hit {
            let ghost o = out@;
            out.push(path);
            proof { crate::text::lemma_views_push(o, out@.last()); }
        }
        i = i + 1;
    }
    proof { assert(files@.take(files.len() as int) =~= files@); }
    let sorted = sort_chars(&out);
    crate::links::strings_of_chars(&sorted)
}

// ---------------------------------------------------------------------------
// Stale source summaries
// ---------------------------------------------------------------------------

/// What `chrono::DateTime::parse_from_rfc3339` makes of `s`, as a Unix
/// timestamp in seconds; none when `s` is not an RFC 3339 date-time.
pub uninterp spec fn rfc3339_seconds(s: Seq<char>) -> Option<int>;

/// The UTC time `secs` seconds and `nanos` nanoseconds after the Unix epoch,
/// formatted by chrono as `%Y-%m-%dT%H:%M:%SZ`; none when chrono cannot
/// represent it.
pub uninterp spec fn utc_stamp(secs: int, nanos: int) -> Option<Seq<char>>;

/// Calls `chrono::DateTime::parse_from_rfc3339` and takes `timestamp()`; the
/// result is named `rfc3339_seconds`, nothing more is claimed of it.
#[verifier::external_body]
fn parse_rfc3339_seconds(s: &str) -> (r: Option<i64>)
    ensures
        match r {
            Some(x) => rfc3339_seconds(s@) == Some(x as int),
            None => rfc3339_seconds(s@) is None,
        },
{
    chrono::DateTime::parse_from_rfc3339(s).ok().map(|d| d.timestamp())
}

/// Calls `chrono::DateTime::from_timestamp` and formats the result with
/// `%Y-%m-%dT%H:%M:%SZ`; the result is named `utc_stamp`.
#[verifier::external_body]
fn format_utc(secs: i64, nanos: u32) -> (r: Option<String>)
    ensures
        match r {
            Some(t) => utc_stamp(secs as int, nanos as int) == Some(t@),
            None => utc_stamp(secs as int, nanos as int) is None,
        },
{
    chrono::DateTime::from_timestamp(secs, nanos).map(|d| d.format("%Y-%m-%dT%H:%M:%SZ").to_string())
}

/// A modification time: seconds since the Unix epoch (negative before it)
/// and the nanoseconds past that second.
#[derive(Debug)]
pub struct FileTime {
    pub secs: i64,
    pub nanos: u32,
}

/// A markdown page of the vault with what the stale check reads: its path,
/// its frontmatter (none when it has none or it does not parse), and the
/// modification time of the file its `source:` names (none when there is no
/// such file).
#[derive(Debug)]
pub struct StalePage {
    pub path: String,
    pub fm: Option<SummaFrontmatter>,
    pub source_mtime: Option<FileTime>,
}

/// A source summary is stale when its `ingested:` time, read as RFC 3339,
/// lies at or after the epoch and strictly before its source's modification
/// time.
pub open spec fn stale(p: StalePage) -> bool {
    &&& p.fm is Some
    &&& crate::index::opt_string(p.fm->0.summa) == Some("source-summary"@)
    &&& p.fm->0.ingested is Some
    &&& p.fm->0.source is Some
    &&& p.source_mtime is Some
    &&& rfc3339_seconds(p.fm->0.ingested->0@) is Some
    &&& rfc3339_seconds(p.fm->0.ingested->0@)->0 >= 0
    &&& ({
        let i = rfc3339_seconds(p.fm->0.ingested->0@)->0;
        let m = p.source_mtime->0;
        i < m.secs || (i == m.secs && 0 < m.nanos)
    })
}

/// The report line of a stale page: its path, its `ingested:` and `source:`
/// values, and its source's modification time in UTC.
pub open spec fn stale_item(p: StalePage) -> (Seq<char>, Seq<char>, Seq<char>, Seq<char>) {
    (p.path@, p.fm->0.ingested->0@, p.fm->0.source->0@, utc_stamp(p.source_mtime->0.secs as int, p.source_mtime->0.nanos as int)->0)
}

/// The stale pages' report lines, in walk order.
pub open spec fn stale_of(ps: Seq<StalePage>) -> Seq<(Seq<char>, Seq<char>, Seq<char>, Seq<char>)>
    decreases ps.len(),
{
    if ps.len() == 0 {
        seq![]
    } else {
        let r = stale_of(ps.drop_last());
        if stale(ps.last()) {
            r.push(stale_item(ps.last()))
        } else {
            r
        }
    }
}

pub open spec fn stale_views(v: Seq<StaleItem>) -> Seq<(Seq<char>, Seq<char>, Seq<char>, Seq<char>)> {
    Seq::new(v.len(), |i: int| (v[i].file@, v[i].ingested@, v[i].source@, v[i].source_mtime@))
}

pub open spec fn stale_files(v: Seq<(Seq<char>, Seq<char>, Seq<char>, Seq<char>)>) -> Seq<Seq<char>> {
    Seq::new(v.len(), |i: int| v[i].0)
}

/// `s` sorted by file, stably.
pub open spec fn sorted_by_file(s: Seq<(Seq<char>, Seq<char>, Seq<char>, Seq<char>)>) -> Seq<(Seq<char>, Seq<char>, Seq<char>, Seq<char>)>
    decreases s.len(),
{
    if s.len() == 0 {
        seq![]
    } else {
        let t = sorted_by_file(s.drop_last());
        t.insert(insert_pos(stale_files(t), s.last().0, 0), s.last())
    }
}

/// A stale page whose source's modification time chrono cannot represent.
pub open spec fn unstamped(p: StalePage) -> bool {
    stale(p) && utc_stamp(p.source_mtime->0.secs as int, p.source_mtime->0.nanos as int) is None
}

/// What the stale check finds on one page.
enum StaleCheck {
    Fresh,
    Stale(StaleItem),
    Unstamped,
}

fn stale_item_exec(p: &StalePage) -> (r: StaleCheck)
    ensures
        r is Fresh <==> !stale(*p),
        r is Unstamped <==> unstamped(*p),
        r matches StaleCheck::Stale(x) ==> (x.file@, x.ingested@, x.source@, x.source_mtime@) == stale_item(*p),
{
    proof { reveal_strlit("source-summary"); }
    let f = match &p.fm {
        Some(f) => f,
        None => return StaleCheck::Fresh,
    };
    let is_summary = match &f.summa {
        Some(v) => str_eq(v.as_str(), "source-summary"),
        None => false,
    };
    if !is_summary {
        return StaleCheck::Fresh;
    }
    let ingested = match &f.ingested {
        Some(i) => i,
        None => return StaleCheck::Fresh,
    };
    let source = match &f.source {
        Some(s) => s,
        None => return StaleCheck::Fresh,
    };
    let m = match &p.source_mtime {
        Some(m) => m,
        None => return StaleCheck::Fresh,
    };
    let secs = match parse_rfc3339_seconds(ingested.as_str()) {
        Some(x) => x,
        None => return StaleCheck::Fresh,
    };
    if secs < 0 {
        return StaleCheck::Fresh;
    }
    if secs < m.secs || (secs == m.secs && 0 < m.nanos) {
        match format_utc(m.secs, m.nanos) {
            Some(stamp) => StaleCheck::Stale(
                StaleItem { file: p.path.clone(), ingested: ingested.clone(), source: source.clone(), source_mtime: stamp },
            ),
            None => StaleCheck::Unstamped,
        }
    } else {
        StaleCheck::Fresh
    }
}

/// The source summaries, sorted by path, whose `ingested:` time precedes
/// their source file's modification time. None when such a page's source
/// time lies outside what chrono can represent (no UTC date can be written for it).
pub fn check_stale_vs_source(pages: &[StalePage]) -> (r: Option<Vec<StaleItem>>)
    ensures
        r is None <==> exists|k: int| 0 <= k < pages@.len() && unstamped(#[trigger] pages@[k]),
        r matches Some(v) ==> stale_views(v@) == sorted_by_file(stale_of(pages@)),
{
    let mut r: Vec<StaleItem> = Vec::new();
    let mut keys: Vec<Vec<char>> = Vec::new();
    let mut i: usize = 0;
    while i < pages.len()
        invariant
            i <= pages.len(),
            stale_views(r@) == sorted_by_file(stale_of(pages@.take(i as int))),
            views(keys@) == stale_files(stale_views(r@)),
            forall|k: int| 0 <= k < i ==> !unstamped(#[trigger] pages@[k]),
        decreases pages.len() - i,
    {
        proof {
            assert(pages@.take(i + 1).drop_last() =~= pages@.take(i as int));
            assert(pages@.take(i + 1).last() == pages@[i as int]);
        }
        match stale_item_exec(&pages[i]) {
            StaleCheck::Stale(x) => {
                let key = to_chars(x.file.as_str());
                let k = crate::order::insert_pos_exec(&keys, &key);
                let ghost o = r@;
                let ghost ok = keys@;
                let ghost xv = (x.file@, x.ingested@, x.source@, x.source_mtime@);
                r.insert(k, x);
                keys.insert(k, key);
                proof {
                    let s0 = stale_of(pages@.take(i as int));
                    assert(stale_of(pages@.take(i + 1)) == s0.push(xv));
                    assert(s0.push(xv).drop_last() =~= s0);
                    assert(key@ == xv.0);
                    assert(stale_views(r@) =~= stale_views(o).insert(k as int, xv));
                    assert(views(keys@) =~= views(ok).insert(k as int, xv.0));
                    assert(views(keys@) =~= stale_files(stale_views(r@)));
                }
            },
            StaleCheck::Unstamped => {
                return None;
            },
            StaleCheck::Fresh => {},
        }
        i = i + 1;
    }
    proof { assert(pages@.take(pages.len() as int) =~= pages@); }
    Some(r)
}


// ---------------------------------------------------------------------------
// Repairing malformed links
// ---------------------------------------------------------------------------

pub open spec fn malformed_files(ms: Seq<MalformedItem>) -> Seq<Seq<char>> {
    Seq::new(ms.len(), |i: int| ms[i].file@)
}

/// The files the malformed links are in, each once, in order of first
/// appearance.
pub open spec fn files_in_order(fs: Seq<Seq<char>>) -> Seq<Seq<char>>
    decreases fs.len(),
{
    if fs.len() == 0 {
        seq![]
    } else {
        let r = files_in_order(fs.drop_last());
        if r.contains(fs.last()) {
            r
        } else {
            r.push(fs.last())
        }
    }
}

/// The files holding malformed links, each once, in order of first
/// appearance: the files a repair has to read.
pub fn files_to_fix(malformed: &[MalformedItem]) -> (r: Vec<String>)
    ensures
        string_views(r@) == files_in_order(malformed_files(malformed@)),
{
    let mut r: Vec<Vec<char>> = Vec::new();
    let mut i: usize = 0;
    while i < malformed.len()
        invariant
            i <= malformed.len(),
            views(r@) == files_in_order(malformed_files(malformed@).take(i as int)),
        decreases malformed.len() - i,
    {
        proof {
            assert(malformed_files(malformed@).take(i + 1).drop_last() =~= malformed_files(malformed@).take(i as int));
            assert(malformed_files(malformed@).take(i + 1).last() == malformed@[i as int].file@);
        }
        let f = to_chars(malformed[i].file.as_str());
        if !crate::links::contains_chars(&r, &f) {
            let ghost o = r@;
            r.push(f);
            proof { crate::text::lemma_views_push(o, r@.last()); }
        }
        i = i + 1;
    }
    proof { assert(malformed_files(malformed@).take(malformed.len() as int) =~= malformed_files(malformed@)); }
    crate::links::strings_of_chars(&r)
}

/// The (raw, fix) pairs of the malformed links in file `f`, in order.
pub open spec fn links_in(ms: Seq<MalformedItem>, f: Seq<char>) -> Seq<(Seq<char>, Seq<char>)>
    decreases ms.len(),
{
    if ms.len() == 0 {
        seq![]
    } else {
        let r = links_in(ms.drop_last(), f);
        if ms.last().file@ == f {
            r.push((ms.last().raw@, ms.last().fix@))
        } else {
            r
        }
    }
}

/// `c` with each raw link replaced by its fix, one after the other.
pub open spec fn apply_fixes(c: Seq<char>, items: Seq<(Seq<char>, Seq<char>)>) -> Seq<char>
    decreases items.len(),
{
    if items.len() == 0 {
        c
    } else {
        replace_all(apply_fixes(c, items.drop_last()), items.last().0, items.last().1)
    }
}

/// The record of one repair: `<label>raw → fix`.
pub open spec fn fix_change(label: Seq<char>, raw: Seq<char>, fix: Seq<char>) -> Seq<char> {
    label + raw + " \u{2192} "@ + fix
}

/// A file and its current text (none when it could not be read).
#[derive(Debug)]
pub struct FileText {
    pub path: String,
    pub content: Option<String>,
}

/// The repair may touch the file: it is readable, and owned by this tool
/// unless human notes are included.
pub open spec fn fixable(f: FileText, include_human: bool) -> bool {
    f.content is Some && (summa_owned(f.content->0@) || include_human)
}

/// The records of the repairs, file by file.
pub open spec fn fix_records(fs: Seq<FileText>, ms: Seq<MalformedItem>, include_human: bool, label: Seq<char>) -> Seq<(Seq<char>, Seq<char>)>
    decreases fs.len(),
{
    if fs.len() == 0 {
        seq![]
    } else {
        let r = fix_records(fs.drop_last(), ms, include_human, label);
        let f = fs.last();
        if fixable(f, include_human) {
            let items = links_in(ms, f.path@);
            r + Seq::new(items.len(), |k: int| (f.path@, fix_change(label, items[k].0, items[k].1)))
        } else {
            r
        }
    }
}

/// The files the repairs change, with their new text, file by file.
pub open spec fn fix_writes(fs: Seq<FileText>, ms: Seq<MalformedItem>, include_human: bool) -> Seq<(Seq<char>, Seq<char>)>
    decreases fs.len(),
{
    if fs.len() == 0 {
        seq![]
    } else {
        let r = fix_writes(fs.drop_last(), ms, include_human);
        let f = fs.last();
        if fixable(f, include_human) && apply_fixes(f.content->0@, links_in(ms, f.path@)) != f.content->0@ {
            r.push((f.path@, apply_fixes(f.content->0@, links_in(ms, f.path@))))
        } else {
            r
        }
    }
}

/// Every rewritten file is one the repair may touch: readable, and owned by
/// this tool unless human notes are included.
pub open spec fn only_fixable_written(writes: Seq<(String, String)>, files: Seq<FileText>, include_human: bool) -> bool {
    forall|k: int| #![trigger writes[k]] 0 <= k < writes.len() ==> exists|j: int| #![trigger files[j]] 0 <= j < files.len()
        && files[j].path@ == writes[k].0@ && fixable(files[j], include_human)
}

/// What a repair of malformed links does: the records of the repairs and the
/// files to rewrite with their new text.
#[derive(Debug)]
pub struct FixOutcome {
    pub fixed: Vec<FixRecord>,
    pub writes: Vec<(String, String)>,
}

pub open spec fn record_views(v: Seq<FixRecord>) -> Seq<(Seq<char>, Seq<char>)> {
    Seq::new(v.len(), |i: int| (v[i].file@, v[i].change@))
}

fn apply_fixes_exec(c: &[char], ms: &[MalformedItem], f: &[char]) -> (r: Vec<char>)
    ensures
        r@ == apply_fixes(c@, links_in(ms@, f@)),
{
    let mut cur = vstd::slice::slice_to_vec(c);
    let mut i: usize = 0;
    while i < ms.len()
        invariant
            i <= ms.len(),
            cur@ == apply_fixes(c@, links_in(ms@.take(i as int), f@)),
        decreases ms.len() - i,
    {
        proof {
            assert(ms@.take(i + 1).drop_last() =~= ms@.take(i as int));
            assert(ms@.take(i + 1).last() == ms@[i as int]);
        }
        let file = to_chars(ms[i].file.as_str());
        if eq_chars(&file, f) {
            let raw = to_chars(ms[i].raw.as_str());
            let fix = to_chars(ms[i].fix.as_str());
            cur = replace_all_exec(&cur, &raw, &fix);
            proof {
                let items = links_in(ms@.take(i + 1), f@);
                assert(items.drop_last() == links_in(ms@.take(i as int), f@));
            }
        }
        i = i + 1;
    }
    proof { assert(ms@.take(ms.len() as int) =~= ms@); }
    cur
}

/// One more file was handled: what was written is still only fixable files.
proof fn lemma_written_step(writes: Seq<(String, String)>, w0: Seq<(String, String)>, files: Seq<FileText>, i: int, include_human: bool, grew: bool)
    requires
        0 <= i < files.len(),
        only_fixable_written(w0, files.take(i), include_human),
        !grew ==> writes == w0,
        grew ==> writes.len() == w0.len() + 1 && fixable(files[i], include_human) && files[i].path@ == writes[w0.len() as int].0@ && writes.drop_last() == w0,
    ensures
        only_fixable_written(writes, files.take(i + 1), include_human),
{
    let ft = files.take(i + 1);
    let f0 = files.take(i);
    assert forall|k: int| #![trigger writes[k]] 0 <= k < writes.len() implies exists|j: int| #![trigger ft[j]] 0 <= j < ft.len()
        && ft[j].path@ == writes[k].0@ && fixable(ft[j], include_human) by {
        if k < w0.len() {
            assert(writes[k] == w0[k]);
            let j = choose|j: int| #![trigger f0[j]] 0 <= j < f0.len() && f0[j].path@ == w0[k].0@ && fixable(f0[j], include_human);
            assert(ft[j] == f0[j]);
        } else {
            assert(ft[i] == files[i]);
        }
    }
}

/// Repair the malformed links of the given files. `files` are the files to
/// repair with their current text (see `files_to_fix`); `malformed` the
/// malformed links found. A file is repaired only when it is readable and
/// owned by this tool, or when human notes are included: every raw link is
/// replaced by its fix, one link after the other, each repair recorded as
/// `fixed: raw → fix`; a file is rewritten only when its text changed.
pub fn apply_malformed_fixes(files: &[FileText], malformed: &[MalformedItem], include_human: bool) -> (r: FixOutcome)
    ensures
        record_views(r.fixed@) == fix_records(files@, malformed@, include_human, "fixed: "@),
        crate::index::pair_string_views(r.writes@) == fix_writes(files@, malformed@, include_human),
        only_fixable_written(r.writes@, files@, include_human),
{
    apply_replacements(files, malformed, include_human, "fixed: ")
}

/// Replace, in each file the repair may touch, every `raw` of that file's
/// items by its `fix`, recording each as `<label>raw → fix`.
fn apply_replacements(files: &[FileText], malformed: &[MalformedItem], include_human: bool, label: &str) -> (r: FixOutcome)
    ensures
        record_views(r.fixed@) == fix_records(files@, malformed@, include_human, label@),
        crate::index::pair_string_views(r.writes@) == fix_writes(files@, malformed@, include_human),
        only_fixable_written(r.writes@, files@, include_human),
{
    let mut fixed: Vec<FixRecord> = Vec::new();
    let mut writes: Vec<(String, String)> = Vec::new();
    let mut i: usize = 0;
    while i < files.len()
        invariant
            i <= files.len(),
            record_views(fixed@) == fix_records(files@.take(i as int), malformed@, include_human, label@),
            crate::index::pair_string_views(writes@) == fix_writes(files@.take(i as int), malformed@, include_human),
            only_fixable_written(writes@, files@.take(i as int), include_human),
        decreases files.len() - i,
    {
        proof {
            assert(files@.take(i + 1).drop_last() =~= files@.take(i as int));
            assert(files@.take(i + 1).last() == files@[i as int]);
        }
        let ghost w0 = writes@;
        let ghost mut grew = false;
        let f = &files[i];
        let ok = match &f.content {
            Some(c) => include_human || is_summa_owned(c.as_str()),
            None => false,
        };
        if ok && f.content.is_some() {
            let c = f.content.as_ref().unwrap();
            let path = to_chars(f.path.as_str());
            let ghost r0 = record_views(fixed@);
            let mut k: usize = 0;
            while k < malformed.len()
                invariant
                    k <= malformed.len(),
                    path@ == f.path@,
                    record_views(fixed@) == r0 + Seq::new(links_in(malformed@.take(k as int), f.path@).len(), |q: int| (f.path@, fix_change(label@, links_in(malformed@.take(k as int), f.path@)[q].0, links_in(malformed@.take(k as int), f.path@)[q].1))),
                decreases malformed.len() - k,
            {
                proof {
                    assert(malformed@.take(k + 1).drop_last() =~= malformed@.take(k as int));
                    assert(malformed@.take(k + 1).last() == malformed@[k as int]);
                }
                let file = to_chars(malformed[k].file.as_str());
                let ghost before = links_in(malformed@.take(k as int), f.path@);
                if eq_chars(&file, &path) {
                    let mut change = to_chars(label);
                    append_chars(&mut change, &to_chars(malformed[k].raw.as_str()));
                    append_chars(&mut change, &to_chars(" \u{2192} "));
                    append_chars(&mut change, &to_chars(malformed[k].fix.as_str()));
                    let ghost o = fixed@;
                    fixed.push(FixRecord { file: f.path.clone(), change: from_chars(&change) });
                    proof {
                        let after = links_in(malformed@.take(k + 1), f.path@);
                        assert(after == before.push((malformed@[k as int].raw@, malformed@[k as int].fix@)));
                        assert(record_views(fixed@) =~= record_views(o).push((f.path@, fix_change(label@, malformed@[k as int].raw@, malformed@[k as int].fix@))));
                        assert(record_views(fixed@) =~= r0 + Seq::new(after.len(), |q: int| (f.path@, fix_change(label@, after[q].0, after[q].1))));
                    }
                } else {
                    proof {
                        assert(links_in(malformed@.take(k + 1), f.path@) == before);
                    }
                }
                k = k + 1;
            }
            proof { assert(malformed@.take(malformed.len() as int) =~= malformed@); }
            let cs = to_chars(c.as_str());
            let nc = apply_fixes_exec(&cs, malformed, &path);
            if !eq_chars(&nc, &cs) {
                let ghost o = writes@;
                writes.push((f.path.clone(), from_chars(&nc)));
                proof {
                    assert(crate::index::pair_string_views(writes@) =~= crate::index::pair_string_views(o).push((f.path@, nc@)));
                    assert(files@[i as int].path@ == writes@[writes@.len() - 1].0@);
                    assert(fixable(files@[i as int], include_human));
                    grew = true;
                }
            }
        }
        proof {
            assert(!grew ==> writes@ == w0);
            assert(grew ==> writes@.len() == w0.len() + 1 && fixable(files@[i as int], include_human) && files@[i as int].path@ == writes@[w0.len() as int].0@ && writes@.drop_last() == w0);
            lemma_written_step(writes@, w0, files@, i as int, include_human, grew);
        }
        i = i + 1;
    }
    proof {
        assert(files@.take(files.len() as int) =~= files@);
        assert(only_fixable_written(writes@, files@, include_human));
    }
    FixOutcome { fixed, writes }
}


// ---------------------------------------------------------------------------
// Repairing links that differ from a page's title only by case or spacing
// ---------------------------------------------------------------------------

/// `c` with the links to `t` pointed at `canon`: `[[t]]`, `[[t|` and `[[t#`
/// become `[[canon]]`, `[[canon|` and `[[canon#`, in that order.
pub open spec fn retarget(c: Seq<char>, t: Seq<char>, canon: Seq<char>) -> Seq<char> {
    let a = replace_all(c, "[["@ + t + "]]"@, "[["@ + canon + "]]"@);
    let b = replace_all(a, "[["@ + t + "|"@, "[["@ + canon + "|"@);
    replace_all(b, "[["@ + t + "#"@, "[["@ + canon + "#"@)
}

/// The text of the file at `path` after each repairable target that the file
/// links to was retargeted, one target after the other.
pub open spec fn repaired_text(c: Seq<char>, rs: Seq<(Seq<char>, Seq<char>, Seq<Seq<char>>)>, path: Seq<char>) -> Seq<char>
    decreases rs.len(),
{
    if rs.len() == 0 {
        c
    } else {
        let prev = repaired_text(c, rs.drop_last(), path);
        let r = rs.last();
        if r.2.contains(path) {
            retarget(prev, r.0, r.1)
        } else {
            prev
        }
    }
}

/// The changes recorded for the file at `path`: `repaired: [[t]] → [[canon]]`
/// for each target whose retargeting changed the text.
pub open spec fn repair_changes(c: Seq<char>, rs: Seq<(Seq<char>, Seq<char>, Seq<Seq<char>>)>, path: Seq<char>) -> Seq<Seq<char>>
    decreases rs.len(),
{
    if rs.len() == 0 {
        seq![]
    } else {
        let prev_text = repaired_text(c, rs.drop_last(), path);
        let prev = repair_changes(c, rs.drop_last(), path);
        let r = rs.last();
        if r.2.contains(path) && retarget(prev_text, r.0, r.1) != prev_text {
            prev.push(fix_change("repaired: "@, "[["@ + r.0 + "]]"@, "[["@ + r.1 + "]]"@))
        } else {
            prev
        }
    }
}

/// The records of the link repairs, file by file.
pub open spec fn repair_records(fs: Seq<FileText>, rs: Seq<(Seq<char>, Seq<char>, Seq<Seq<char>>)>, include_human: bool) -> Seq<(Seq<char>, Seq<char>)>
    decreases fs.len(),
{
    if fs.len() == 0 {
        seq![]
    } else {
        let r = repair_records(fs.drop_last(), rs, include_human);
        let f = fs.last();
        if fixable(f, include_human) {
            let ch = repair_changes(f.content->0@, rs, f.path@);
            r + Seq::new(ch.len(), |k: int| (f.path@, ch[k]))
        } else {
            r
        }
    }
}

/// The files the link repairs change, with their new text, file by file.
pub open spec fn repair_writes(fs: Seq<FileText>, rs: Seq<(Seq<char>, Seq<char>, Seq<Seq<char>>)>, include_human: bool) -> Seq<(Seq<char>, Seq<char>)>
    decreases fs.len(),
{
    if fs.len() == 0 {
        seq![]
    } else {
        let r = repair_writes(fs.drop_last(), rs, include_human);
        let f = fs.last();
        if fixable(f, include_human) && repaired_text(f.content->0@, rs, f.path@) != f.content->0@ {
            r.push((f.path@, repaired_text(f.content->0@, rs, f.path@)))
        } else {
            r
        }
    }
}

fn listed(v: &Vec<String>, t: &str) -> (b: bool)
    ensures
        b == string_views(v@).contains(t@),
{
    let mut k: usize = 0;
    while k < v.len()
        invariant
            k <= v.len(),
            forall|j: int| 0 <= j < k ==> v@[j]@ != t@,
        decreases v.len() - k,
    {
        if str_eq(v[k].as_str(), t) {
            proof { assert(string_views(v@)[k as int] == t@); }
            return true;
        }
        k = k + 1;
    }
    proof {
        if string_views(v@).contains(t@) {
            let j = choose|j: int| 0 <= j < string_views(v@).len() && string_views(v@)[j] == t@;
            assert(v@[j]@ == t@);
        }
    }
    false
}

fn link_to(t: &str, tail: &str) -> (r: Vec<char>)
    ensures
        r@ == "[["@ + t@ + tail@,
{
    let mut r = to_chars("[[");
    append_chars(&mut r, &to_chars(t));
    append_chars(&mut r, &to_chars(tail));
    r
}

fn retarget_exec(c: &[char], t: &str, canon: &str) -> (r: Vec<char>)
    ensures
        r@ == retarget(c@, t@, canon@),
{
    let a = replace_all_exec(c, &link_to(t, "]]"), &link_to(canon, "]]"));
    let b = replace_all_exec(&a, &link_to(t, "|"), &link_to(canon, "|"));
    replace_all_exec(&b, &link_to(t, "#"), &link_to(canon, "#"))
}

/// Point the repairable links of the given files at their pages' titles.
/// `files` are the files that link to a repairable target, with their
/// current text; `repairable` the repairable targets of the link report. A
/// file is repaired only when it is readable and owned by this tool, or when
/// human notes are included: for each target the file links to, in order,
/// `[[t]]`, `[[t|` and `[[t#` become `[[canonical]]`, `[[canonical|` and
/// `[[canonical#`; each target whose links changed is recorded as
/// `repaired: [[t]] → [[canonical]]`, and a file is rewritten only when its
/// text changed.
pub fn apply_link_repairs(files: &[FileText], repairable: &[crate::links::RepairableLink], include_human: bool) -> (r: FixOutcome)
    ensures
        record_views(r.fixed@) == repair_records(files@, repairable_link_views(repairable@), include_human),
        crate::index::pair_string_views(r.writes@) == repair_writes(files@, repairable_link_views(repairable@), include_human),
        only_fixable_written(r.writes@, files@, include_human),
{
    let ghost rs = repairable_link_views(repairable@);
    let mut fixed: Vec<FixRecord> = Vec::new();
    let mut writes: Vec<(String, String)> = Vec::new();
    let mut i: usize = 0;
    while i < files.len()
        invariant
            i <= files.len(),
            rs == repairable_link_views(repairable@),
            record_views(fixed@) == repair_records(files@.take(i as int), rs, include_human),
            crate::index::pair_string_views(writes@) == repair_writes(files@.take(i as int), rs, include_human),
            only_fixable_written(writes@, files@.take(i as int), include_human),
        decreases files.len() - i,
    {
        proof {
            assert(files@.take(i + 1).drop_last() =~= files@.take(i as int));
            assert(files@.take(i + 1).last() == files@[i as int]);
        }
        let ghost w0 = writes@;
        let ghost mut grew = false;
        let f = &files[i];
        let ok = match &f.content {
            Some(c) => include_human || is_summa_owned(c.as_str()),
            None => false,
        };
        if ok && f.content.is_some() {
            let c = f.content.as_ref().unwrap();
            let cs = to_chars(c.as_str());
            let mut cur = to_chars(c.as_str());
            let ghost r0 = record_views(fixed@);
            let mut k: usize = 0;
            while k < repairable.len()
                invariant
                    k <= repairable.len(),
                    rs == repairable_link_views(repairable@),
                    cs@ == c@,
                    cur@ == repaired_text(c@, rs.take(k as int), f.path@),
                    record_views(fixed@) == r0 + Seq::new(repair_changes(c@, rs.take(k as int), f.path@).len(), |q: int| (f.path@, repair_changes(c@, rs.take(k as int), f.path@)[q])),
                decreases repairable.len() - k,
            {
                proof {
                    assert(rs.take(k + 1).drop_last() =~= rs.take(k as int));
                    assert(rs.take(k + 1).last() == rs[k as int]);
                }
                let rl = &repairable[k];
                let ghost before = repair_changes(c@, rs.take(k as int), f.path@);
                if listed(&rl.in_files, f.path.as_str()) {
                    let next = retarget_exec(&cur, rl.target.as_str(), rl.canonical.as_str());
                    if !eq_chars(&next, &cur) {
                        let mut change = to_chars("repaired: ");
                        append_chars(&mut change, &link_to(rl.target.as_str(), "]]"));
                        append_chars(&mut change, &to_chars(" \u{2192} "));
                        append_chars(&mut change, &link_to(rl.canonical.as_str(), "]]"));
                        let ghost o = fixed@;
                        fixed.push(FixRecord { file: f.path.clone(), change: from_chars(&change) });
                        proof {
                            let after = repair_changes(c@, rs.take(k + 1), f.path@);
                            assert(after == before.push(fix_change("repaired: "@, "[["@ + rl.target@ + "]]"@, "[["@ + rl.canonical@ + "]]"@)));
                            assert(record_views(fixed@) =~= record_views(o).push((f.path@, after.last())));
                            assert(record_views(fixed@) =~= r0 + Seq::new(after.len(), |q: int| (f.path@, after[q])));
                        }
                    } else {
                        proof { assert(repair_changes(c@, rs.take(k + 1), f.path@) == before); }
                    }
                    cur = next;
                } else {
                    proof { assert(repair_changes(c@, rs.take(k + 1), f.path@) == before); }
                }
                k = k + 1;
            }
            proof { assert(rs.take(repairable.len() as int) =~= rs); }
            if !eq_chars(&cur, &cs) {
                let ghost o = writes@;
                writes.push((f.path.clone(), from_chars(&cur)));
                proof {
                    assert(crate::index::pair_string_views(writes@) =~= crate::index::pair_string_views(o).push((f.path@, cur@)));
                    assert(files@[i as int].path@ == writes@[writes@.len() - 1].0@);
                    assert(fixable(files@[i as int], include_human));
                    grew = true;
                }
            }
        }
        proof {
            assert(!grew ==> writes@ == w0);
            assert(grew ==> writes@.len() == w0.len() + 1 && fixable(files@[i as int], include_human) && files@[i as int].path@ == writes@[w0.len() as int].0@ && writes@.drop_last() == w0);
            lemma_written_step(writes@, w0, files@, i as int, include_human, grew);
        }
        i = i + 1;
    }
    proof {
        assert(files@.take(files.len() as int) =~= files@);
        assert(only_fixable_written(writes@, files@, include_human));
    }
    FixOutcome { fixed, writes }
}

/// The files that link to a repairable target, each once, in order of first
/// appearance: the files a link repair has to read.
pub fn files_to_repair(repairable: &[crate::links::RepairableLink]) -> (r: Vec<String>)
    ensures
        string_views(r@) == files_in_order(repair_files(repairable_link_views(repairable@))),
{
    let ghost rs = repairable_link_views(repairable@);
    let mut r: Vec<Vec<char>> = Vec::new();
    let mut i: usize = 0;
    while i < repairable.len()
        invariant
            i <= repairable.len(),
            rs == repairable_link_views(repairable@),
            views(r@) == files_in_order(repair_files(rs.take(i as int))),
        decreases repairable.len() - i,
    {
        let fs = &repairable[i].in_files;
        let ghost base = views(r@);
        let mut j: usize = 0;
        while j < fs.len()
            invariant
                i < repairable.len(),
                j <= fs.len(),
                fs == repairable@[i as int].in_files,
                rs == repairable_link_views(repairable@),
                views(r@) == files_in_order(repair_files(rs.take(i as int)) + string_views(fs@).take(j as int)),
            decreases fs.len() - j,
        {
            proof {
                let s = repair_files(rs.take(i as int)) + string_views(fs@).take(j + 1);
                assert(s.drop_last() =~= repair_files(rs.take(i as int)) + string_views(fs@).take(j as int));
                assert(s.last() == fs@[j as int]@);
            }
            let f = to_chars(fs[j].as_str());
            if !crate::links::contains_chars(&r, &f) {
                let ghost o = r@;
                r.push(f);
                proof { crate::text::lemma_views_push(o, r@.last()); }
            }
            j = j + 1;
        }
        proof {
            assert(string_views(fs@).take(fs@.len() as int) =~= string_views(fs@));
            assert(rs.take(i + 1).drop_last() =~= rs.take(i as int));
            assert(rs[i as int].2 == string_views(fs@));
        }
        i = i + 1;
    }
    proof { assert(rs.take(repairable.len() as int) =~= rs); }
    crate::links::strings_of_chars(&r)
}

/// The files listed by the repairable targets, in order, with repeats.
pub open spec fn repair_files(rs: Seq<(Seq<char>, Seq<char>, Seq<Seq<char>>)>) -> Seq<Seq<char>>
    decreases rs.len(),
{
    if rs.len() == 0 {
        seq![]
    } else {
        repair_files(rs.drop_last()) + rs.last().2
    }
}

// ---------------------------------------------------------------------------
// Index repairs and the log line of a run
// ---------------------------------------------------------------------------

/// The records of an index regeneration: `added missing page: <path>` on
/// `index.md`, one per missing page, in order.
pub fn index_fix_records(missing: &Vec<String>) -> (r: Vec<FixRecord>)
    ensures
        record_views(r@) == Seq::new(missing@.len(), |i: int| ("index.md"@, "added missing page: "@ + missing@[i]@)),
{
    let mut r: Vec<FixRecord> = Vec::new();
    let mut i: usize = 0;
    while i < missing.len()
        invariant
            i <= missing.len(),
            record_views(r@) == Seq::new(i as nat, |k: int| ("index.md"@, "added missing page: "@ + missing@[k]@)),
        decreases missing.len() - i,
    {
        let mut change = to_chars("added missing page: ");
        append_chars(&mut change, &to_chars(missing[i].as_str()));
        let file = from_chars(&to_chars("index.md"));
        let text = from_chars(&change);
        let ghost o = r@;
        r.push(FixRecord { file, change: text });
        proof {
            assert(file@ == "index.md"@);
            assert(text@ == "added missing page: "@ + missing@[i as int]@);
            assert(record_views(r@) =~= record_views(o).push(("index.md"@, "added missing page: "@ + missing@[i as int]@)));
            assert(record_views(r@) =~= Seq::new((i + 1) as nat, |k: int| ("index.md"@, "added missing page: "@ + missing@[k]@)));
        }
        i = i + 1;
    }
    r
}

/// The number of records whose change starts with `prefix`.
pub open spec fn records_starting(rs: Seq<(Seq<char>, Seq<char>)>, prefix: Seq<char>) -> nat
    decreases rs.len(),
{
    if rs.len() == 0 {
        0
    } else {
        records_starting(rs.drop_last(), prefix) + if starts_with(rs.last().1, prefix) { 1nat } else { 0nat }
    }
}

fn records_starting_exec(rs: &Vec<FixRecord>, prefix: &str) -> (n: usize)
    ensures
        n == records_starting(record_views(rs@), prefix@),
{
    let p = to_chars(prefix);
    let mut n: usize = 0;
    let mut i: usize = 0;
    while i < rs.len()
        invariant
            i <= rs.len(),
            p@ == prefix@,
            n <= i,
            n == records_starting(record_views(rs@).take(i as int), prefix@),
        decreases rs.len() - i,
    {
        proof {
            assert(record_views(rs@).take(i + 1).drop_last() =~= record_views(rs@).take(i as int));
            assert(record_views(rs@).take(i + 1).last() == (rs@[i as int].file@, rs@[i as int].change@));
        }
        if starts_with_exec(&to_chars(rs[i].change.as_str()), &p) {
            n = n + 1;
        }
        i = i + 1;
    }
    proof { assert(record_views(rs@).take(rs.len() as int) =~= record_views(rs@)); }
    n
}

/// The note a lint run logs: how many malformed links and missing-index
/// pages it fixed, and how many orphans, dangling targets, stale summaries
/// and un-ingested files it found.
pub open spec fn lint_note_text(r: LintReport) -> Seq<char> {
    "fixed "@ + decimal(records_starting(record_views(r.fixed@), "fixed:"@)) + " malformed links, "@
        + decimal(records_starting(record_views(r.fixed@), "added missing"@)) + " missing-index pages; orphans="@
        + decimal(r.orphans@.len()) + " dangling="@ + decimal(r.dangling@.len()) + " stale="@
        + decimal(r.stale_vs_source@.len()) + " un-ingested="@ + decimal(r.un_ingested@.len())
}

/// The note a lint run appends to the log.
pub fn lint_note(r: &LintReport) -> (s: String)
    ensures
        s@ == lint_note_text(*r),
{
    let a = records_starting_exec(&r.fixed, "fixed:");
    let b = records_starting_exec(&r.fixed, "added missing");
    let mut t = to_chars("fixed ");
    append_chars(&mut t, &decimal_exec(a));
    append_chars(&mut t, &to_chars(" malformed links, "));
    append_chars(&mut t, &decimal_exec(b));
    append_chars(&mut t, &to_chars(" missing-index pages; orphans="));
    append_chars(&mut t, &decimal_exec(r.orphans.len()));
    append_chars(&mut t, &to_chars(" dangling="));
    append_chars(&mut t, &decimal_exec(r.dangling.len()));
    append_chars(&mut t, &to_chars(" stale="));
    append_chars(&mut t, &decimal_exec(r.stale_vs_source.len()));
    append_chars(&mut t, &to_chars(" un-ingested="));
    append_chars(&mut t, &decimal_exec(r.un_ingested.len()));
    from_chars(&t)
}

// ---------------------------------------------------------------------------
// The report of a run
// ---------------------------------------------------------------------------

fn copy_strings(v: &Vec<String>) -> (r: Vec<String>)
    ensures
        string_views(r@) == string_views(v@),
{
    let mut r: Vec<String> = Vec::new();
    let mut i: usize = 0;
    while i < v.len()
        invariant
            i <= v.len(),
            string_views(r@) == string_views(v@).take(i as int),
        decreases v.len() - i,
    {
        let ghost o = r@;
        r.push(v[i].clone());
        proof {
            assert(string_views(r@) =~= string_views(o).push(v@[i as int]@));
            assert(string_views(v@).take(i + 1) =~= string_views(v@).take(i as int).push(v@[i as int]@));
        }
        i = i + 1;
    }
    proof { assert(string_views(v@).take(v.len() as int) =~= string_views(v@)); }
    r
}

/// The dangling items of a report, as target and referencing files.
pub open spec fn dangling_item_views(d: Seq<DanglingItem>) -> Seq<(Seq<char>, Seq<Seq<char>>)> {
    Seq::new(d.len(), |k: int| (d[k].target@, string_views(d[k].in_files@)))
}

/// The dangling links of a link report, as target and referencing files.
pub open spec fn dangling_link_views(d: Seq<crate::links::DanglingLink>) -> Seq<(Seq<char>, Seq<Seq<char>>)> {
    Seq::new(d.len(), |k: int| (d[k].target@, string_views(d[k].in_files@)))
}

/// The malformed items of a report, as file, raw link and fix.
pub open spec fn malformed_item_views(m: Seq<MalformedItem>) -> Seq<(Seq<char>, Seq<char>, Seq<char>)> {
    Seq::new(m.len(), |k: int| (m[k].file@, m[k].raw@, m[k].fix@))
}

/// The repairable items of a report, as target, canonical stem and
/// referencing files.
pub open spec fn repairable_item_views(d: Seq<RepairableItem>) -> Seq<(Seq<char>, Seq<char>, Seq<Seq<char>>)> {
    Seq::new(d.len(), |k: int| (d[k].target@, d[k].canonical@, string_views(d[k].in_files@)))
}

/// The repairable links of a link report, likewise.
pub open spec fn repairable_link_views(d: Seq<crate::links::RepairableLink>) -> Seq<(Seq<char>, Seq<char>, Seq<Seq<char>>)> {
    Seq::new(d.len(), |k: int| (d[k].target@, d[k].canonical@, string_views(d[k].in_files@)))
}

/// The frontmatter problems, as file and message.
pub open spec fn problem_views(v: Seq<FrontmatterProblem>) -> Seq<(Seq<char>, Seq<char>)> {
    Seq::new(v.len(), |k: int| (v[k].file@, v[k].error@))
}

fn copy_repairable(v: &Vec<crate::links::RepairableLink>) -> (r: Vec<RepairableItem>)
    ensures
        repairable_item_views(r@) == repairable_link_views(v@),
{
    let mut r: Vec<RepairableItem> = Vec::new();
    let mut i: usize = 0;
    while i < v.len()
        invariant
            i <= v.len(),
            repairable_item_views(r@) == repairable_link_views(v@).take(i as int),
        decreases v.len() - i,
    {
        let d = &v[i];
        let item = RepairableItem { target: d.target.clone(), canonical: d.canonical.clone(), in_files: copy_strings(&d.in_files) };
        let ghost o = r@;
        r.push(item);
        proof {
            assert(repairable_item_views(r@) =~= repairable_item_views(o).push((d.target@, d.canonical@, string_views(d.in_files@))));
            assert(repairable_link_views(v@).take(i + 1) =~= repairable_link_views(v@).take(i as int).push((d.target@, d.canonical@, string_views(d.in_files@))));
        }
        i = i + 1;
    }
    proof { assert(repairable_link_views(v@).take(v@.len() as int) =~= repairable_link_views(v@)); }
    r
}

fn join_records(a: Vec<FixRecord>, b: Vec<FixRecord>) -> (r: Vec<FixRecord>)
    ensures
        record_views(r@) == record_views(a@) + record_views(b@),
{
    let mut r = a;
    let ghost a0 = record_views(r@);
    let mut j: usize = 0;
    while j < b.len()
        invariant
            j <= b.len(),
            record_views(r@) == a0 + record_views(b@).take(j as int),
        decreases b.len() - j,
    {
        let ghost o = r@;
        r.push(FixRecord { file: b[j].file.clone(), change: b[j].change.clone() });
        proof {
            assert(record_views(r@) =~= record_views(o).push((b@[j as int].file@, b@[j as int].change@)));
            assert(record_views(b@).take(j + 1) =~= record_views(b@).take(j as int).push((b@[j as int].file@, b@[j as int].change@)));
        }
        j = j + 1;
    }
    proof { assert(record_views(b@).take(b@.len() as int) =~= record_views(b@)); }
    r
}

/// The records of a run: with `fix`, the malformed-link repairs followed,
/// when pages were missing from the index, by one record per missing page;
/// without `fix`, none.
pub open spec fn run_records(fix: bool, repairs: Seq<(Seq<char>, Seq<char>)>, missing: Seq<Seq<char>>) -> Seq<(Seq<char>, Seq<char>)> {
    if fix {
        repairs + Seq::new(missing.len(), |i: int| ("index.md"@, "added missing page: "@ + missing[i]))
    } else {
        seq![]
    }
}

/// The report of a lint run, gathered from the checks' results. `links` is
/// the vault's link report; `repairs` the records of the malformed-link
/// repairs made (see `apply_malformed_fixes`) and `link_repairs` those of
/// the repairable-link repairs (see `apply_link_repairs`), both ignored
/// without `fix`; `bad_frontmatter` the pages whose frontmatter does not
/// parse;
/// `missing` the pages missing from the index before any repair and
/// `missing_after` after the index was regenerated (used only when `fix`
/// regenerated it, that is when pages were missing); `stale` and
/// `un_ingested` the findings of those checks. Orphans, dangling targets and
/// malformed links come from the link report, in its order.
pub fn run(
    links: &crate::links::LinksReport,
    opts: &LintOpts,
    repairs: Vec<FixRecord>,
    link_repairs: Vec<FixRecord>,
    missing: Vec<String>,
    missing_after: Vec<String>,
    stale: Vec<StaleItem>,
    un_ingested: Vec<String>,
    bad_frontmatter: Vec<FrontmatterProblem>,
) -> (r: LintReport)
    ensures
        string_views(r.orphans@) == string_views(links.orphans@),
        dangling_item_views(r.dangling@) == dangling_link_views(links.dangling@),
        repairable_item_views(r.repairable@) == repairable_link_views(links.repairable_dangling@),
        malformed_item_views(r.malformed@) == crate::links::malformed_views(links.malformed@),
        problem_views(r.malformed_frontmatter@) == problem_views(bad_frontmatter@),
        record_views(r.fixed@) == run_records(opts.fix, record_views(repairs@) + record_views(link_repairs@), string_views(missing@)),
        string_views(r.missing_index@) == (if opts.fix && missing@.len() > 0 {
            string_views(missing_after@)
        } else {
            string_views(missing@)
        }),
        stale_views(r.stale_vs_source@) == stale_views(stale@),
        string_views(r.un_ingested@) == string_views(un_ingested@),
{
    let orphans = copy_strings(&links.orphans);
    let mut dangling: Vec<DanglingItem> = Vec::new();
    let mut i: usize = 0;
    while i < links.dangling.len()
        invariant
            i <= links.dangling.len(),
            dangling_item_views(dangling@) == dangling_link_views(links.dangling@).take(i as int),
        decreases links.dangling.len() - i,
    {
        let d = &links.dangling[i];
        let item = DanglingItem { target: d.target.clone(), in_files: copy_strings(&d.in_files) };
        let ghost o = dangling@;
        dangling.push(item);
        proof {
            assert(dangling_item_views(dangling@) =~= dangling_item_views(o).push((d.target@, string_views(d.in_files@))));
            assert(dangling_link_views(links.dangling@).take(i + 1) =~= dangling_link_views(links.dangling@).take(i as int).push((d.target@, string_views(d.in_files@))));
        }
        i = i + 1;
    }
    proof { assert(dangling_link_views(links.dangling@).take(links.dangling@.len() as int) =~= dangling_link_views(links.dangling@)); }
    let mut malformed: Vec<MalformedItem> = Vec::new();
    let mut k: usize = 0;
    while k < links.malformed.len()
        invariant
            k <= links.malformed.len(),
            malformed_item_views(malformed@) == crate::links::malformed_views(links.malformed@).take(k as int),
        decreases links.malformed.len() - k,
    {
        let m = &links.malformed[k];
        let item = MalformedItem { file: m.file.clone(), raw: m.raw.clone(), fix: m.fix.clone() };
        let ghost o = malformed@;
        malformed.push(item);
        proof {
            assert(malformed_item_views(malformed@) =~= malformed_item_views(o).push((m.file@, m.raw@, m.fix@)));
            assert(crate::links::malformed_views(links.malformed@).take(k + 1) =~= crate::links::malformed_views(links.malformed@).take(k as int).push((m.file@, m.raw@, m.fix@)));
        }
        k = k + 1;
    }
    proof { assert(crate::links::malformed_views(links.malformed@).take(links.malformed@.len() as int) =~= crate::links::malformed_views(links.malformed@)); }
    let repairable = copy_repairable(&links.repairable_dangling);
    let all = join_records(repairs, link_repairs);
    let ghost rv = record_views(all@);
    let mut fixed: Vec<FixRecord> = Vec::new();
    let mut missing_index = missing;
    if opts.fix {
        fixed = all;
        if missing_index.len() > 0 {
            let added = index_fix_records(&missing_index);
            let ghost a = record_views(fixed@);
            let mut j: usize = 0;
            while j < added.len()
                invariant
                    j <= added.len(),
                    record_views(fixed@) == a + record_views(added@).take(j as int),
                decreases added.len() - j,
            {
                let ghost o = fixed@;
                let rec = FixRecord { file: added[j].file.clone(), change: added[j].change.clone() };
                fixed.push(rec);
                proof {
                    assert(record_views(fixed@) =~= record_views(o).push((added@[j as int].file@, added@[j as int].change@)));
                    assert(record_views(added@).take(j + 1) =~= record_views(added@).take(j as int).push((added@[j as int].file@, added@[j as int].change@)));
                }
                j = j + 1;
            }
            proof {
                assert(record_views(added@).take(added@.len() as int) =~= record_views(added@));
                assert(record_views(fixed@) =~= run_records(opts.fix, rv, string_views(missing@)));
            }
            missing_index = missing_after;
        } else {
            proof {
                assert(record_views(fixed@) =~= run_records(opts.fix, rv, string_views(missing@)));
            }
        }
    } else {
        proof {
            assert(record_views(fixed@) =~= run_records(opts.fix, rv, string_views(missing@)));
        }
    }
    LintReport {
        orphans,
        dangling,
        repairable,
        malformed,
        malformed_frontmatter: bad_frontmatter,
        missing_index,
        stale_vs_source: stale,
        un_ingested,
        fixed,
    }
}

// ---------------------------------------------------------------------------
// What the un-ingested list holds
// ---------------------------------------------------------------------------

/// Sorting adds nothing.
proof fn lemma_sorted_from(s: Seq<Seq<char>>, x: Seq<char>)
    requires
        sorted_seq(s).contains(x),
    ensures
        s.contains(x),
    decreases s.len(),
{
    if s.len() > 0 {
        let t = sorted_seq(s.drop_last());
        crate::order::lemma_insert_pos(t, s.last(), 0);
        let q = insert_pos(t, s.last(), 0);
        let r = t.insert(q, s.last());
        let m = choose|m: int| 0 <= m < r.len() && r[m] == x;
        if x != s.last() {
            if m < q {
                assert(t[m] == x);
            } else {
                assert(m > q);
                assert(t[m - 1] == x);
            }
            lemma_sorted_from(s.drop_last(), x);
            let k = choose|k: int| 0 <= k < s.drop_last().len() && s.drop_last()[k] == x;
            assert(s[k] == x);
        } else {
            assert(s[s.len() - 1] == x);
        }
    }
}

proof fn lemma_un_ingested_of(fs: Seq<VaultFile>, sourced: Seq<Seq<char>>, p: Seq<char>)
    ensures
        un_ingested_of(fs, sourced).contains(p) <==> exists|i: int| 0 <= i < fs.len() && fs[i].path@ == p
            && #[trigger] un_ingested_file(fs[i].path@, file_content(fs[i]), sourced),
    decreases fs.len(),
{
    if fs.len() > 0 {
        let pre = fs.drop_last();
        lemma_un_ingested_of(pre, sourced, p);
        let r = un_ingested_of(pre, sourced);
        let f = fs.last();
        if un_ingested_of(fs, sourced).contains(p) {
            let m = choose|m: int| 0 <= m < un_ingested_of(fs, sourced).len() && un_ingested_of(fs, sourced)[m] == p;
            if m < r.len() {
                assert(r[m] == p);
                let i = choose|i: int| 0 <= i < pre.len() && pre[i].path@ == p && #[trigger] un_ingested_file(pre[i].path@, file_content(pre[i]), sourced);
                assert(fs[i] == pre[i]);
            } else {
                assert(fs[fs.len() - 1] == f);
            }
        }
        if exists|i: int| 0 <= i < fs.len() && fs[i].path@ == p && #[trigger] un_ingested_file(fs[i].path@, file_content(fs[i]), sourced) {
            let i = choose|i: int| 0 <= i < fs.len() && fs[i].path@ == p && #[trigger] un_ingested_file(fs[i].path@, file_content(fs[i]), sourced);
            if i < pre.len() {
                assert(pre[i] == fs[i]);
                let m = choose|m: int| 0 <= m < r.len() && r[m] == p;
                if un_ingested_file(f.path@, file_content(f), sourced) {
                    assert(r.push(f.path@)[m] == p);
                }
            } else {
                assert(un_ingested_of(fs, sourced) == r.push(p));
                assert(r.push(p)[r.len() as int] == p);
            }
        }
    }
}

/// The un-ingested list never names a file that a source summary names: a
/// reported path is that of a PDF, or of a readable Markdown file directly
/// in `Clippings/` that this tool does not own, and no source summary has it
/// as its `source:` (a leading `./` aside). Conversely every such file that
/// no source summary names is reported.
pub proof fn lemma_un_ingested_unsourced(files: Seq<VaultFile>, pages: Seq<IndexPage>, p: Seq<char>)
    ensures
        sorted_seq(un_ingested_of(files, sources_named(index_views(pages)))).contains(p) ==> {
            &&& !sources_named(index_views(pages)).contains(p)
            &&& exists|i: int| 0 <= i < files.len() && #[trigger] files[i].path@ == p && {
                ||| extension(p) == Some("pdf"@)
                ||| in_clippings(p) && extension(p) == Some("md"@) && file_content(files[i]) is Some
                    && !summa_owned(file_content(files[i])->0)
            }
        },
        (exists|i: int| 0 <= i < files.len() && #[trigger] files[i].path@ == p && {
            ||| extension(p) == Some("pdf"@)
            ||| in_clippings(p) && extension(p) == Some("md"@) && file_content(files[i]) is Some
                && !summa_owned(file_content(files[i])->0)
        }) && !sources_named(index_views(pages)).contains(p)
            ==> sorted_seq(un_ingested_of(files, sources_named(index_views(pages)))).contains(p),
{
    let sourced = sources_named(index_views(pages));
    let u = un_ingested_of(files, sourced);
    lemma_un_ingested_of(files, sourced, p);
    if sorted_seq(u).contains(p) {
        lemma_sorted_from(u, p);
        let i = choose|i: int| 0 <= i < files.len() && files[i].path@ == p && #[trigger] un_ingested_file(files[i].path@, file_content(files[i]), sourced);
        assert(files[i].path@ == p);
    }
    if exists|i: int| 0 <= i < files.len() && #[trigger] files[i].path@ == p && {
        ||| extension(p) == Some("pdf"@)
        ||| in_clippings(p) && extension(p) == Some("md"@) && file_content(files[i]) is Some
            && !summa_owned(file_content(files[i])->0)
    } {
        if !sourced.contains(p) {
            let i = choose|i: int| 0 <= i < files.len() && #[trigger] files[i].path@ == p && {
                ||| extension(p) == Some("pdf"@)
                ||| in_clippings(p) && extension(p) == Some("md"@) && file_content(files[i]) is Some
                    && !summa_owned(file_content(files[i])->0)
            };
            assert(un_ingested_file(files[i].path@, file_content(files[i]), sourced));
            crate::index_coverage::lemma_sorted_seq_contains(u, p);
        }
    }
}
} // verus!
