//! The vault index: the catalogue of this tool's pages and of the human
//! notes' folders, kept between two anchor comments in `index.md`.

use vstd::prelude::*;
use crate::frontmatter::{
    eq_chars, fm_field, get_field, is_summa_owned, summa_owned, str_eq, SummaFrontmatter,
};
use crate::links::is_managed_name;
use crate::links::managed_name;
use crate::order::{sort_chars, sort_pairs_by_key, sorted_by_key, sorted_seq, pair_chars_views};
use crate::text::{
    contains, find, find_exec, lemma_find_from, lemma_find_from_is, lemma_match_in_piece,
    lemma_no_match_over, matches_at,
    append_chars, decimal, decimal_exec, from_chars, join, join_exec, split_char, split_char_exec,
    to_chars, views,
};
use crate::vault::{file_name, file_name_exec, file_stem, file_stem_exec};
use vstd::utf8::{decode_utf8, encode_scalar, encode_utf8, is_char_boundary};

verus! {

broadcast use vstd::utf8::encode_utf8_decode_utf8;

/// A readable markdown page of the vault, as the index reads it.
#[derive(Debug)]
pub struct IndexPage {
    /// The page's path relative to the vault root, `/`-separated.
    pub path: String,
    /// The page's text.
    pub content: String,
    /// The page's frontmatter fields; none when it has no frontmatter or the
    /// frontmatter does not parse.
    pub fm: Option<SummaFrontmatter>,
}

/// The spec view of an `IndexPage`.
pub struct IndexPageView {
    pub path: Seq<char>,
    pub content: Seq<char>,
    pub title: Option<Seq<char>>,
    pub summa: Option<Seq<char>>,
    pub source: Option<Seq<char>>,
    pub ingested: Option<Seq<char>>,
}

pub open spec fn opt_string(o: Option<String>) -> Option<Seq<char>> {
    match o {
        Some(s) => Some(s@),
        None => None,
    }
}

impl View for IndexPage {
    type V = IndexPageView;

    open spec fn view(&self) -> IndexPageView {
        IndexPageView {
            path: self.path@,
            content: self.content@,
            title: match self.fm {
                Some(f) => opt_string(f.title),
                None => None,
            },
            summa: match self.fm {
                Some(f) => opt_string(f.summa),
                None => None,
            },
            source: match self.fm {
                Some(f) => opt_string(f.source),
                None => None,
            },
            ingested: match self.fm {
                Some(f) => opt_string(f.ingested),
                None => None,
            },
        }
    }
}

pub open spec fn pair_string_views(v: Seq<(String, String)>) -> Seq<(Seq<char>, Seq<char>)> {
    Seq::new(v.len(), |i: int| (v[i].0@, v[i].1@))
}

pub open spec fn index_views(ps: Seq<IndexPage>) -> Seq<IndexPageView> {
    Seq::new(ps.len(), |i: int| ps[i]@)
}

/// A page's title: its frontmatter `title:`, else its file stem, else
/// `Unknown`.
pub open spec fn page_title(p: IndexPageView) -> Seq<char> {
    match p.title {
        Some(t) => t,
        None => match file_stem(p.path) {
            Some(s) => s,
            None => "Unknown"@,
        },
    }
}

/// A page the index ignores: `index.md` or `log.md`.
pub open spec fn managed_page(p: IndexPageView) -> bool {
    file_name(p.path) is Some && managed_name(file_name(p.path)->0)
}

/// An owned page of the given `summa:` kind.
pub open spec fn owned_of_kind(p: IndexPageView, kind: Seq<char>) -> bool {
    !managed_page(p) && summa_owned(p.content) && p.summa == Some(kind)
}

/// The first ten bytes of `s` as text, or nothing when `s` is shorter or
/// the tenth byte ends inside a character (`str::get(..10)`).
pub open spec fn date_prefix(s: Seq<char>) -> Seq<char> {
    if 10 <= encode_utf8(s).len() && is_char_boundary(encode_utf8(s), 10) {
        decode_utf8(encode_utf8(s).take(10))
    } else {
        seq![]
    }
}

/// The encoding of joined texts is the encodings joined.
proof fn lemma_encode_concat(a: Seq<char>, b: Seq<char>)
    ensures
        encode_utf8(a + b) == encode_utf8(a) + encode_utf8(b),
    decreases a.len(),
{
    if a.len() == 0 {
        assert(a + b =~= b);
        assert(encode_utf8(a) + encode_utf8(b) =~= encode_utf8(b));
    } else {
        assert((a + b).drop_first() =~= a.drop_first() + b);
        assert((a + b)[0] == a[0]);
        lemma_encode_concat(a.drop_first(), b);
        assert(encode_utf8(a) + encode_utf8(b) =~= encode_scalar(a[0] as u32) + (encode_utf8(a.drop_first()) + encode_utf8(b)));
    }
}

/// A character boundary of an encoding past its first character is one of
/// the rest, moved by the first character's width.
proof fn lemma_boundary_step(s: Seq<char>, n: int)
    requires
        s.len() > 0,
        0 < n,
    ensures
        is_char_boundary(encode_utf8(s), n) == is_char_boundary(encode_utf8(s.drop_first()), n - encode_scalar(s[0] as u32).len()),
{
    vstd::utf8::encode_utf8_valid_utf8(s);
    vstd::utf8::encode_utf8_valid_utf8(s.drop_first());
    vstd::utf8::encode_utf8_first_scalar(s);
    let bytes = encode_utf8(s);
    assert(vstd::utf8::pop_first_scalar(bytes) =~= encode_utf8(s.drop_first()));
    let w = encode_scalar(s[0] as u32).len() as int;
    if n > bytes.len() {
        if n - w >= 0 {
            assert(encode_utf8(s.drop_first()).len() == bytes.len() - w);
        }
    }
}

/// The width of a character's UTF-8 encoding.
fn utf8_width(c: char) -> (w: usize)
    ensures
        w == encode_scalar(c as u32).len(),
        1 <= w <= 4,
{
    proof { vstd::utf8::char_is_scalar(c); }
    let u = c as u32;
    if u < 0x80 {
        1
    } else if u < 0x800 {
        2
    } else if u < 0x10000 {
        3
    } else {
        4
    }
}

/// The first ten bytes of `s` as text (`str::get(..10)`), empty when `s` is
/// shorter or the tenth byte ends inside a character.
fn date_prefix_exec(s: &str) -> (r: Vec<char>)
    ensures
        r@ == date_prefix(s@),
{
    let cs = to_chars(s);
    let mut i: usize = 0;
    let mut bytes: usize = 0;
    proof {
        assert(s@.take(0) =~= Seq::<char>::empty());
        assert(s@.skip(0) =~= s@);
        assert(encode_utf8(Seq::<char>::empty()) =~= Seq::<u8>::empty());
        assert(encode_utf8(s@.take(0)) + encode_utf8(s@) =~= encode_utf8(s@));
    }
    while i < cs.len() && bytes < 10
        invariant
            i <= cs.len(),
            cs@ == s@,
            bytes < 14,
            encode_utf8(s@) == encode_utf8(s@.take(i as int)) + encode_utf8(s@.skip(i as int)),
            bytes == encode_utf8(s@.take(i as int)).len(),
            bytes <= 10 ==> is_char_boundary(encode_utf8(s@), 10) == is_char_boundary(encode_utf8(s@.skip(i as int)), 10 - bytes),
            bytes > 10 ==> !is_char_boundary(encode_utf8(s@), 10),
        decreases cs.len() - i,
    {
        let w = utf8_width(cs[i]);
        proof {
            let t = s@.skip(i as int);
            assert(t[0] == s@[i as int]);
            assert(t.drop_first() =~= s@.skip(i + 1));
            lemma_boundary_step(t, 10 - bytes);
            lemma_encode_concat(s@.take(i as int), seq![s@[i as int]]);
            assert(s@.take(i + 1) =~= s@.take(i as int) + seq![s@[i as int]]);
            assert(encode_utf8(seq![s@[i as int]]) =~= encode_scalar(s@[i as int] as u32)) by {
                assert(seq![s@[i as int]].drop_first() =~= Seq::<char>::empty());
                assert(encode_utf8(Seq::<char>::empty()) =~= Seq::<u8>::empty());
            }
            lemma_encode_concat(s@.take(i + 1), s@.skip(i + 1));
            assert(s@.take(i + 1) + s@.skip(i + 1) =~= s@);
            if bytes + w > 10 {
                vstd::utf8::encode_utf8_valid_utf8(s@.skip(i + 1));
            }
        }
        bytes = bytes + w;
        i = i + 1;
    }
    proof {
        vstd::utf8::encode_utf8_valid_utf8(s@.skip(i as int));
        vstd::utf8::encode_utf8_valid_utf8(s@);
        lemma_encode_concat(s@.take(i as int), s@.skip(i as int));
        assert(s@.take(i as int) + s@.skip(i as int) =~= s@);
        if bytes < 10 {
            assert(i == cs.len());
            assert(s@.skip(i as int) =~= Seq::<char>::empty());
            assert(encode_utf8(Seq::<char>::empty()) =~= Seq::<u8>::empty());
        }
    }
    if bytes == 10 {
        proof {
            assert(encode_utf8(s@).take(10) =~= encode_utf8(s@.take(i as int)));
            vstd::utf8::encode_utf8_decode_utf8(s@.take(i as int));
        }
        crate::text::sub_chars(&cs, 0, i)
    } else {
        Vec::new()
    }
}

/// The date a source summary shows: the date part of its `ingested:`.
pub open spec fn source_date(p: IndexPageView) -> Seq<char> {
    match fm_field(p.content, "ingested"@) {
        Some(i) => date_prefix(i),
        None => seq![],
    }
}

/// The top-level folder a human note is catalogued under: the first
/// component of its path, when it has more than one and it is not `wiki`.
pub open spec fn human_dir(p: IndexPageView) -> Option<Seq<char>> {
    let parts = split_char(p.path, '/');
    if managed_page(p) || summa_owned(p.content) || parts.len() <= 1 || parts[0] == "wiki"@ {
        None
    } else {
        Some(parts[0])
    }
}

/// The titles of the owned pages of a kind, in walk order.
pub open spec fn titles_of_kind(ps: Seq<IndexPageView>, kind: Seq<char>) -> Seq<Seq<char>>
    decreases ps.len(),
{
    if ps.len() == 0 {
        seq![]
    } else {
        let r = titles_of_kind(ps.drop_last(), kind);
        if owned_of_kind(ps.last(), kind) {
            r.push(page_title(ps.last()))
        } else {
            r
        }
    }
}

/// The (title, date) of the source summaries, in walk order.
pub open spec fn sources_of(ps: Seq<IndexPageView>) -> Seq<(Seq<char>, Seq<char>)>
    decreases ps.len(),
{
    if ps.len() == 0 {
        seq![]
    } else {
        let r = sources_of(ps.drop_last());
        if owned_of_kind(ps.last(), "source-summary"@) {
            r.push((page_title(ps.last()), source_date(ps.last())))
        } else {
            r
        }
    }
}

/// The folders of the human notes, one per note, in walk order.
pub open spec fn human_dirs_of(ps: Seq<IndexPageView>) -> Seq<Seq<char>>
    decreases ps.len(),
{
    if ps.len() == 0 {
        seq![]
    } else {
        let r = human_dirs_of(ps.drop_last());
        match human_dir(ps.last()) {
            Some(d) => r.push(d),
            None => r,
        }
    }
}

/// A sorted sequence with repeats removed.
pub open spec fn dedup(s: Seq<Seq<char>>) -> Seq<Seq<char>>
    decreases s.len(),
{
    if s.len() == 0 {
        seq![]
    } else {
        let t = dedup(s.drop_last());
        if t.len() > 0 && t.last() == s.last() {
            t
        } else {
            t.push(s.last())
        }
    }
}

/// The number of times `d` occurs in `s`.
pub open spec fn occurrences(s: Seq<Seq<char>>, d: Seq<char>) -> nat
    decreases s.len(),
{
    if s.len() == 0 {
        0
    } else {
        occurrences(s.drop_last(), d) + if s.last() == d { 1nat } else { 0nat }
    }
}


/// `- [[e]]`.
pub open spec fn entry_line(e: Seq<char>) -> Seq<char> {
    "- [["@ + e + "]]"@
}

/// `- [[title]]`, followed by ` — date` when there is a date.
pub open spec fn source_line(t: Seq<char>, d: Seq<char>) -> Seq<char> {
    if d.len() == 0 {
        "- [["@ + t + "]]"@
    } else {
        "- [["@ + t + "]] \u{2014} "@ + d
    }
}

/// `- **dir/** — N notes`.
pub open spec fn dir_line(d: Seq<char>, n: nat) -> Seq<char> {
    "- **"@ + d + "/** \u{2014} "@ + decimal(n) + " notes"@
}

/// A heading followed by its items; nothing at all when there are no items.
pub open spec fn section(heading: Seq<char>, items: Seq<Seq<char>>) -> Seq<Seq<char>> {
    if items.len() == 0 {
        seq![]
    } else {
        seq![heading] + items
    }
}

/// The lines of the index section: entities, sources, answers (each sorted
/// by title) and the human notes' folders (sorted, with their note counts),
/// each under its heading and left out when empty.
pub open spec fn index_lines(ps: Seq<IndexPageView>) -> Seq<Seq<char>> {
    let ents = sorted_seq(titles_of_kind(ps, "entity"@));
    let srcs = sorted_by_key(sources_of(ps));
    let answers = sorted_seq(titles_of_kind(ps, "answer"@));
    let dirs = dedup(sorted_seq(human_dirs_of(ps)));
    section("## Entities"@, Seq::new(ents.len(), |i: int| entry_line(ents[i])))
        + section("## Sources"@, Seq::new(srcs.len(), |i: int| source_line(srcs[i].0, srcs[i].1)))
        + section("## Answers"@, Seq::new(answers.len(), |i: int| entry_line(answers[i])))
        + section(
        "## Human notes (by folder)"@,
        Seq::new(dirs.len(), |i: int| dir_line(dirs[i], occurrences(human_dirs_of(ps), dirs[i]))),
    )
}

/// The text of the index section.
pub open spec fn index_section(ps: Seq<IndexPageView>) -> Seq<char> {
    join(index_lines(ps), "\n"@)
}

/// What one page contributes to the index.
struct Contribution {
    entity: Option<Vec<char>>,
    source: Option<(Vec<char>, Vec<char>)>,
    answer: Option<Vec<char>>,
    dir: Option<Vec<char>>,
}

pub fn title_exec(p: &IndexPage) -> (r: Vec<char>)
    ensures
        r@ == page_title(p@),
{
    let title = match &p.fm {
        Some(f) => match &f.title {
            Some(t) => Some(to_chars(t.as_str())),
            None => None,
        },
        None => None,
    };
    match title {
        Some(t) => t,
        None => {
            let path = to_chars(p.path.as_str());
            match file_stem_exec(&path) {
                Some(st) => st,
                None => to_chars("Unknown"),
            }
        },
    }
}

pub fn summa_is(p: &IndexPage, kind: &str) -> (b: bool)
    ensures
        b == (p@.summa == Some(kind@)),
{
    match &p.fm {
        Some(f) => match &f.summa {
            Some(v) => str_eq(v.as_str(), kind),
            None => false,
        },
        None => false,
    }
}

fn source_date_exec(p: &IndexPage) -> (r: Vec<char>)
    ensures
        r@ == source_date(p@),
{
    match get_field(p.content.as_str(), "ingested") {
        Some(ing) => date_prefix_exec(ing.as_str()),
        None => Vec::new(),
    }
}

fn contribution(p: &IndexPage) -> (c: Contribution)
    ensures
        c.entity is Some <==> owned_of_kind(p@, "entity"@),
        c.entity matches Some(e) ==> e@ == page_title(p@),
        c.answer is Some <==> owned_of_kind(p@, "answer"@),
        c.answer matches Some(e) ==> e@ == page_title(p@),
        c.source is Some <==> owned_of_kind(p@, "source-summary"@),
        c.source matches Some(x) ==> x.0@ == page_title(p@) && x.1@ == source_date(p@),
        opt_chars(c.dir) == human_dir(p@),
{
    proof {
        reveal_strlit("entity");
        reveal_strlit("source-summary");
        reveal_strlit("answer");
        assert("entity"@.len() != "source-summary"@.len());
        assert("entity"@[0] != "answer"@[0]);
        assert("answer"@.len() != "source-summary"@.len());
    }
    let path = to_chars(p.path.as_str());
    let managed = match file_name_exec(&path) {
        Some(n) => is_managed_name(&n),
        None => false,
    };
    let none = Contribution { entity: None, source: None, answer: None, dir: None };
    if managed {
        return none;
    }
    if is_summa_owned(p.content.as_str()) {
        if summa_is(p, "entity") {
            Contribution { entity: Some(title_exec(p)), ..none }
        } else if summa_is(p, "source-summary") {
            Contribution { source: Some((title_exec(p), source_date_exec(p))), ..none }
        } else if summa_is(p, "answer") {
            Contribution { answer: Some(title_exec(p)), ..none }
        } else {
            none
        }
    } else {
        let parts = split_char_exec(&path, '/');
        let wiki = to_chars("wiki");
        proof {
            crate::text::lemma_split_char_nonempty(path@, '/');
        }
        if parts.len() > 1 && !eq_chars(&parts[0], &wiki) {
            Contribution { dir: Some(vstd::slice::slice_to_vec(parts[0].as_slice())), ..none }
        } else {
            none
        }
    }
}

pub open spec fn opt_chars(o: Option<Vec<char>>) -> Option<Seq<char>> {
    match o {
        Some(v) => Some(v@),
        None => None,
    }
}


fn dedup_exec(v: &Vec<Vec<char>>) -> (r: Vec<Vec<char>>)
    ensures
        views(r@) == dedup(views(v@)),
{
    let mut r: Vec<Vec<char>> = Vec::new();
    let mut i: usize = 0;
    while i < v.len()
        invariant
            i <= v.len(),
            views(r@) == dedup(views(v@).take(i as int)),
        decreases v.len() - i,
    {
        proof {
            assert(views(v@).take(i + 1).drop_last() =~= views(v@).take(i as int));
            assert(views(v@).take(i + 1).last() == v@[i as int]@);
        }
        let dup = r.len() > 0 && eq_chars(&r[r.len() - 1], &v[i]);
        if !dup {
            let ghost old_r = r@;
            r.push(vstd::slice::slice_to_vec(v[i].as_slice()));
            proof { crate::text::lemma_views_push(old_r, r@.last()); }
        }
        i = i + 1;
    }
    proof { assert(views(v@).take(v.len() as int) =~= views(v@)); }
    r
}

fn occurrences_exec(v: &Vec<Vec<char>>, d: &[char]) -> (n: usize)
    ensures
        n == occurrences(views(v@), d@),
{
    let mut n: usize = 0;
    let mut i: usize = 0;
    while i < v.len()
        invariant
            i <= v.len(),
            n == occurrences(views(v@).take(i as int), d@),
            n <= i,
        decreases v.len() - i,
    {
        proof {
            assert(views(v@).take(i + 1).drop_last() =~= views(v@).take(i as int));
            assert(views(v@).take(i + 1).last() == v@[i as int]@);
        }
        if eq_chars(&v[i], d) {
            n = n + 1;
        }
        i = i + 1;
    }
    proof { assert(views(v@).take(v.len() as int) =~= views(v@)); }
    n
}

fn line3(a: &str, b: &[char], c: &str) -> (r: Vec<char>)
    ensures
        r@ == a@ + b@ + c@,
{
    let mut r = to_chars(a);
    append_chars(&mut r, b);
    let t = to_chars(c);
    append_chars(&mut r, &t);
    r
}

fn push_section(lines: &mut Vec<Vec<char>>, heading: &str, items: Vec<Vec<char>>)
    ensures
        views(final(lines)@) == views(old(lines)@) + section(heading@, views(items@)),
{
    if items.len() == 0 {
        proof { assert(views(lines@) + section(heading@, views(items@)) =~= views(lines@)); }
        return;
    }
    let ghost l0 = views(lines@);
    lines.push(to_chars(heading));
    let mut i: usize = 0;
    proof {
        assert(views(lines@) =~= l0 + seq![heading@] + views(items@).take(0));
    }
    while i < items.len()
        invariant
            i <= items.len(),
            views(lines@) == l0 + seq![heading@] + views(items@).take(i as int),
        decreases items.len() - i,
    {
        let ghost old_lines = lines@;
        lines.push(vstd::slice::slice_to_vec(items[i].as_slice()));
        proof {
            crate::text::lemma_views_push(old_lines, lines@.last());
            assert(views(items@).take(i + 1) =~= views(items@).take(i as int).push(items@[i as int]@));
        }
        i = i + 1;
    }
    proof {
        assert(views(items@).take(items.len() as int) =~= views(items@));
        assert(l0 + seq![heading@] + views(items@) =~= l0 + section(heading@, views(items@)));
    }
}

/// The text of the index section for the vault's readable markdown pages,
/// given in walk order.
pub fn build_index_section(pages: &[IndexPage]) -> (r: String)
    ensures
        r@ == index_section(index_views(pages@)),
{
    let ghost ps = index_views(pages@);
    let mut ents: Vec<Vec<char>> = Vec::new();
    let mut srcs: Vec<(Vec<char>, Vec<char>)> = Vec::new();
    let mut answers: Vec<Vec<char>> = Vec::new();
    let mut dirs: Vec<Vec<char>> = Vec::new();
    let mut i: usize = 0;
    while i < pages.len()
        invariant
            i <= pages.len(),
            ps == index_views(pages@),
            views(ents@) == titles_of_kind(ps.take(i as int), "entity"@),
            views(answers@) == titles_of_kind(ps.take(i as int), "answer"@),
            pair_chars_views(srcs@) == sources_of(ps.take(i as int)),
            views(dirs@) == human_dirs_of(ps.take(i as int)),
        decreases pages.len() - i,
    {
        proof {
            assert(ps.take(i + 1).drop_last() =~= ps.take(i as int));
            assert(ps.take(i + 1).last() == pages@[i as int]@);
        }
        let c = contribution(&pages[i]);
        let ghost (e0, a0, s0, d0) = (ents@, answers@, srcs@, dirs@);
        match c.entity {
            Some(e) => {
                ents.push(e);
                proof { crate::text::lemma_views_push(e0, ents@.last()); }
            },
            None => {},
        }
        match c.answer {
            Some(e) => {
                answers.push(e);
                proof { crate::text::lemma_views_push(a0, answers@.last()); }
            },
            None => {},
        }
        match c.source {
            Some(x) => {
                srcs.push(x);
                proof { assert(pair_chars_views(srcs@) =~= pair_chars_views(s0).push((srcs@.last().0@, srcs@.last().1@))); }
            },
            None => {},
        }
        match c.dir {
            Some(d) => {
                dirs.push(d);
                proof { crate::text::lemma_views_push(d0, dirs@.last()); }
            },
            None => {},
        }
        i = i + 1;
    }
    proof { assert(ps.take(pages.len() as int) =~= ps); }
    let ents = sort_chars(&ents);
    let srcs = sort_pairs_by_key(&srcs);
    let answers = sort_chars(&answers);
    let sorted_dirs = sort_chars(&dirs);
    let udirs = dedup_exec(&sorted_dirs);

    let mut lines: Vec<Vec<char>> = Vec::new();

    let mut items: Vec<Vec<char>> = Vec::new();
    let mut k: usize = 0;
    while k < ents.len()
        invariant
            k <= ents.len(),
            views(items@) == Seq::new(k as nat, |q: int| entry_line(views(ents@)[q])),
        decreases ents.len() - k,
    {
        let ghost o = items@;
        items.push(line3("- [[", &ents[k], "]]"));
        proof {
            crate::text::lemma_views_push(o, items@.last());
            assert(views(items@) =~= Seq::new((k + 1) as nat, |q: int| entry_line(views(ents@)[q])));
        }
        k = k + 1;
    }
    push_section(&mut lines, "## Entities", items);

    let mut items: Vec<Vec<char>> = Vec::new();
    let mut k: usize = 0;
    while k < srcs.len()
        invariant
            k <= srcs.len(),
            views(items@) == Seq::new(k as nat, |q: int| source_line(pair_chars_views(srcs@)[q].0, pair_chars_views(srcs@)[q].1)),
        decreases srcs.len() - k,
    {
        let ghost o = items@;
        let line = if srcs[k].1.len() == 0 {
            line3("- [[", &srcs[k].0, "]]")
        } else {
            line3("- [[", &srcs[k].0, "]] \u{2014} ")
        };
        let mut line = line;
        if srcs[k].1.len() > 0 {
            append_chars(&mut line, &srcs[k].1);
        }
        items.push(line);
        proof {
            crate::text::lemma_views_push(o, items@.last());
            assert(views(items@) =~= Seq::new((k + 1) as nat, |q: int| source_line(pair_chars_views(srcs@)[q].0, pair_chars_views(srcs@)[q].1)));
        }
        k = k + 1;
    }
    push_section(&mut lines, "## Sources", items);

    let mut items: Vec<Vec<char>> = Vec::new();
    let mut k: usize = 0;
    while k < answers.len()
        invariant
            k <= answers.len(),
            views(items@) == Seq::new(k as nat, |q: int| entry_line(views(answers@)[q])),
        decreases answers.len() - k,
    {
        let ghost o = items@;
        items.push(line3("- [[", &answers[k], "]]"));
        proof {
            crate::text::lemma_views_push(o, items@.last());
            assert(views(items@) =~= Seq::new((k + 1) as nat, |q: int| entry_line(views(answers@)[q])));
        }
        k = k + 1;
    }
    push_section(&mut lines, "## Answers", items);

    let mut items: Vec<Vec<char>> = Vec::new();
    let mut k: usize = 0;
    while k < udirs.len()
        invariant
            k <= udirs.len(),
            views(items@) == Seq::new(k as nat, |q: int| dir_line(views(udirs@)[q], occurrences(views(dirs@), views(udirs@)[q]))),
        decreases udirs.len() - k,
    {
        let ghost o = items@;
        let n = occurrences_exec(&dirs, &udirs[k]);
        let mut line = line3("- **", &udirs[k], "/** \u{2014} ");
        let num = decimal_exec(n);
        append_chars(&mut line, &num);
        let tail = to_chars(" notes");
        append_chars(&mut line, &tail);
        items.push(line);
        proof {
            crate::text::lemma_views_push(o, items@.last());
            assert(views(items@) =~= Seq::new((k + 1) as nat, |q: int| dir_line(views(udirs@)[q], occurrences(views(dirs@), views(udirs@)[q]))));
        }
        k = k + 1;
    }
    push_section(&mut lines, "## Human notes (by folder)", items);

    let nl = to_chars("\n");
    let joined = join_exec(&lines, &nl);
    proof {
        assert(views(lines@) =~= index_lines(ps));
    }
    from_chars(&joined)
}


// ---------------------------------------------------------------------------
// The anchored section of index.md
// ---------------------------------------------------------------------------

/// The comment that opens the generated part of `index.md`.
pub open spec fn index_start() -> Seq<char> {
    "<!-- summa:index-start -->"@
}

/// The comment that closes the generated part of `index.md`.
pub open spec fn index_end() -> Seq<char> {
    "<!-- summa:index-end -->"@
}

/// `index.md` with the generated section replaced by `new`. When the file
/// has both anchors, everything up to the end of the first start anchor and
/// everything from the first end anchor on is kept, and `new` goes between
/// them on lines of its own; otherwise the file becomes a fresh index.
pub open spec fn replaced_index(existing: Seq<char>, new: Seq<char>) -> Seq<char> {
    match (find(existing, index_start()), find(existing, index_end())) {
        (Some(s), Some(e)) => existing.take(s + index_start().len()) + "\n"@ + new + "\n"@
            + existing.skip(e),
        _ => "# Index\n\n"@ + index_start() + "\n"@ + new + "\n"@ + index_end() + "\n\n"@,
    }
}

/// Replace the generated section of `index.md` (`existing`) with `new_content`.
pub fn replace_between_anchors(existing: &str, new_content: &str) -> (r: String)
    ensures
        r@ == replaced_index(existing@, new_content@),
{
    let ex = to_chars(existing);
    let st = to_chars("<!-- summa:index-start -->");
    let en = to_chars("<!-- summa:index-end -->");
    let nw = to_chars(new_content);
    let nl = to_chars("\n");
    let mut r: Vec<char>;
    match (find_exec(&ex, &st), find_exec(&ex, &en)) {
        (Some(s), Some(e)) => {
            proof {
                lemma_find_from(ex@, st@, 0);
                lemma_find_from(ex@, en@, 0);
            }
            let n = ex.len();
            assert(matches_at(ex@, st@, s as int));
            assert(s + st.len() <= n);
            r = crate::text::sub_chars(&ex, 0, s + st.len());
            append_chars(&mut r, &nl);
            append_chars(&mut r, &nw);
            append_chars(&mut r, &nl);
            let tail = crate::text::sub_chars(&ex, e, ex.len());
            append_chars(&mut r, &tail);
            proof {
                assert(ex@.subrange(0, s + st@.len()) =~= ex@.take(s + st@.len()));
                assert(ex@.subrange(e as int, ex@.len() as int) =~= ex@.skip(e as int));
            }
        },
        _ => {
            r = to_chars("# Index\n\n");
            append_chars(&mut r, &st);
            append_chars(&mut r, &nl);
            append_chars(&mut r, &nw);
            append_chars(&mut r, &nl);
            append_chars(&mut r, &en);
            let t = to_chars("\n\n");
            append_chars(&mut r, &t);
        },
    }
    from_chars(&r)
}

proof fn lemma_anchor_facts()
    ensures
        index_start().len() == 26,
        index_end().len() == 24,
        forall|k: int| 0 <= k < 24 ==> index_end()[k] != '\n',
        index_end()[0] == '<',
        index_start()[1] == '!',
        index_start()[2] == '-',
        index_start()[0] == '<',
        forall|k: int| 0 <= k < 26 ==> index_start()[k] != '\n',
        index_start()[17] != index_end()[17],
        "\n"@ == seq!['\n'],
        "# Index\n\n"@.len() == 9,
        forall|k: int| 0 <= k < 9 ==> "# Index\n\n"@[k] != '<',
        "\n\n"@ == seq!['\n', '\n'],
{
    reveal_strlit("<!-- summa:index-start -->");
    reveal_strlit("<!-- summa:index-end -->");
    reveal_strlit("\n");
    reveal_strlit("# Index\n\n");
    reveal_strlit("\n\n");
    assert("\n"@ =~= seq!['\n']);
    assert("\n\n"@ =~= seq!['\n', '\n']);
}

/// The end anchor cannot start within the first three characters of a start
/// anchor.
proof fn lemma_end_not_in_start(s: Seq<char>, p: int, j: int)
    requires
        matches_at(s, index_start(), p),
        p <= j <= p + 2,
    ensures
        !matches_at(s, index_end(), j),
{
    lemma_anchor_facts();
    if matches_at(s, index_end(), j) {
        assert(s.subrange(j, j + 24)[0] == s[j]);
        assert(s.subrange(p, p + 26)[j - p] == s[j]);
        if j == p {
            assert(s.subrange(j, j + 24)[17] == s[j + 17]);
            assert(s.subrange(p, p + 26)[17] == s[j + 17]);
        }
    }
}

/// The generated section is the text between the first start anchor and the
/// first end anchor of the result: with `new` free of the end anchor, the
/// anchors of `replaced_index(existing, new)` are found where it put them.
pub proof fn lemma_anchors_of_result(existing: Seq<char>, new: Seq<char>)
    requires
        !contains(new, index_end()),
        !(find(existing, index_start()) is Some && find(existing, index_end()) is Some
            && find(existing, index_end())->0 < find(existing, index_start())->0),
    ensures
        ({
            let r = replaced_index(existing, new);
            let pre = match (find(existing, index_start()), find(existing, index_end())) {
                (Some(s), Some(e)) => existing.take(s + index_start().len()),
                _ => "# Index\n\n"@ + index_start(),
            };
            &&& r.take(pre.len() as int) == pre
            &&& find(r, index_start()) == Some(pre.len() - index_start().len())
            &&& find(r, index_end()) == Some((pre.len() + 1 + new.len() + 1) as int)
        }),
{
    lemma_anchor_facts();
    let st = index_start();
    let en = index_end();
    let r = replaced_index(existing, new);
    crate::text::lemma_find_from(new, en, 0);
    lemma_find_from(existing, st, 0);
    lemma_find_from(existing, en, 0);
    match (find(existing, st), find(existing, en)) {
        (Some(s), Some(e)) => {
            let pre = existing.take(s + 26);
            let tail = existing.skip(e);
            assert(r == pre + "\n"@ + new + "\n"@ + tail);
            let n1 = pre.len() as int;
            let n2 = n1 + 1 + new.len();
            assert(r.take(n1) =~= pre);
            // start anchor at s, none before
            assert(r.subrange(s, s + 26) =~= existing.subrange(s, s + 26));
            assert forall|j: int| 0 <= j < s implies !matches_at(r, st, j) by {
                lemma_match_in_piece(r, st, 0, n1, j);
                lemma_match_in_piece(existing, st, 0, n1, j);
                assert(r.subrange(0, n1) =~= existing.subrange(0, n1));
            }
            lemma_find_from_is(r, st, 0, s);
            // end anchor right after the new text
            assert(r[n1] == '\n');
            assert(r[n2] == '\n');
            assert(tail.take(24) =~= existing.subrange(e, e + 24));
            assert(r.subrange(n2 + 1, n2 + 1 + 24) =~= existing.subrange(e, e + 24));
            assert forall|j: int| 0 <= j < n2 + 1 implies !matches_at(r, en, j) by {
                if j + 24 <= n1 {
                    lemma_match_in_piece(r, en, 0, n1, j);
                    lemma_match_in_piece(existing, en, 0, n1, j);
                    assert(r.subrange(0, n1) =~= existing.subrange(0, n1));
                    if matches_at(existing, en, j) {
                        assert(e <= j);
                        lemma_end_not_in_start(existing, s, j);
                    }
                } else if j <= n1 {
                    lemma_no_match_over(r, en, n1, '\n', j);
                } else if j + 24 <= n2 {
                    lemma_match_in_piece(r, en, n1 + 1, n2, j);
                    assert(r.subrange(n1 + 1, n2) =~= new);
                } else {
                    lemma_no_match_over(r, en, n2, '\n', j);
                }
            }
            lemma_find_from_is(r, en, 0, n2 + 1);
        },
        _ => {
            let pre = "# Index\n\n"@ + st;
            assert(r == pre + "\n"@ + new + "\n"@ + en + "\n\n"@);
            let n1 = 35int;
            let n2 = n1 + 1 + new.len();
            assert(r.take(n1) =~= pre);
            assert(r.subrange(9, 35) =~= st);
            assert forall|j: int| 0 <= j < 9 implies !matches_at(r, st, j) by {
                if matches_at(r, st, j) {
                    assert(r.subrange(j, j + 26)[0] == r[j]);
                    assert(r[j] == "# Index\n\n"@[j]);
                }
            }
            lemma_find_from_is(r, st, 0, 9);
            assert(r[n1] == '\n');
            assert(r[n2] == '\n');
            assert(r.subrange(n2 + 1, n2 + 25) =~= en);
            assert forall|j: int| 0 <= j < n2 + 1 implies !matches_at(r, en, j) by {
                if j < 9 {
                    if matches_at(r, en, j) {
                        assert(r.subrange(j, j + 24)[0] == r[j]);
                        assert(r[j] == "# Index\n\n"@[j]);
                    }
                } else if j + 24 <= n1 {
                    lemma_end_not_in_start(r, 9, j);
                } else if j <= n1 {
                    lemma_no_match_over(r, en, n1, '\n', j);
                } else if j + 24 <= n2 {
                    lemma_match_in_piece(r, en, n1 + 1, n2, j);
                    assert(r.subrange(n1 + 1, n2) =~= new);
                } else {
                    lemma_no_match_over(r, en, n2, '\n', j);
                }
            }
            lemma_find_from_is(r, en, 0, n2 + 1);
        },
    }
}


/// Regenerating the index is idempotent: putting the same section text into
/// an already regenerated `index.md` gives back the same file. This holds
/// whenever the section text does not itself contain the end anchor and the
/// file does not have its first end anchor before its first start anchor.
pub proof fn lemma_index_idempotent(existing: Seq<char>, new: Seq<char>)
    requires
        !contains(new, index_end()),
        !(find(existing, index_start()) is Some && find(existing, index_end()) is Some
            && find(existing, index_end())->0 < find(existing, index_start())->0),
    ensures
        replaced_index(replaced_index(existing, new), new) == replaced_index(existing, new),
{
    lemma_anchor_facts();
    lemma_anchors_of_result(existing, new);
    let r = replaced_index(existing, new);
    let pre = match (find(existing, index_start()), find(existing, index_end())) {
        (Some(s), Some(e)) => existing.take(s + index_start().len()),
        _ => "# Index\n\n"@ + index_start(),
    };
    let e2 = (pre.len() + 1 + new.len() + 1) as int;
    assert(find(r, index_end()) == Some(e2));
    assert(r.take(pre.len() as int) == pre);
    assert(r.take(pre.len() as int) + "\n"@ + new + "\n"@ + r.skip(e2) =~= r);
}

/// Pages that differ only in a page the index ignores, kept at its path,
/// have the same titles of each kind.
proof fn lemma_titles_ignore(ps: Seq<IndexPageView>, k: int, p: IndexPageView, kind: Seq<char>)
    requires
        0 <= k < ps.len(),
        managed_page(ps[k]),
        p.path == ps[k].path,
    ensures
        titles_of_kind(ps.update(k, p), kind) == titles_of_kind(ps, kind),
        sources_of(ps.update(k, p)) == sources_of(ps),
        human_dirs_of(ps.update(k, p)) == human_dirs_of(ps),
    decreases ps.len(),
{
    let qs = ps.update(k, p);
    if k == ps.len() - 1 {
        assert(qs.drop_last() =~= ps.drop_last());
    } else {
        assert(qs.drop_last() =~= ps.drop_last().update(k, p));
        lemma_titles_ignore(ps.drop_last(), k, p, kind);
        assert(qs.last() == ps.last());
    }
}

/// Running the index twice gives the same file: the first run writes the
/// section for the vault's pages into `index.md`; the second run sees the
/// same pages, but for `index.md` as the first run wrote it, and writes that
/// text back unchanged. This holds whenever the section does not itself
/// contain the end anchor and the file did not have its first end anchor
/// before its first start anchor.
pub proof fn lemma_index_rerun(ps: Seq<IndexPageView>, k: int, existing: Seq<char>, again: IndexPageView)
    requires
        0 <= k < ps.len(),
        managed_page(ps[k]),
        again.path == ps[k].path,
        again.content == replaced_index(existing, index_section(ps)),
        !contains(index_section(ps), index_end()),
        !(find(existing, index_start()) is Some && find(existing, index_end()) is Some
            && find(existing, index_end())->0 < find(existing, index_start())->0),
    ensures
        index_section(ps.update(k, again)) == index_section(ps),
        replaced_index(again.content, index_section(ps.update(k, again))) == again.content,
{
    lemma_titles_ignore(ps, k, again, "entity"@);
    lemma_titles_ignore(ps, k, again, "answer"@);
    assert(index_lines(ps.update(k, again)) == index_lines(ps));
    lemma_index_idempotent(existing, index_section(ps));
}

/// Regenerating the index keeps what precedes the generated section: the
/// file up to and including its first start anchor, when it has both anchors.
pub proof fn lemma_index_keeps_preamble(existing: Seq<char>, new: Seq<char>)
    requires
        find(existing, index_start()) is Some,
        find(existing, index_end()) is Some,
    ensures
        ({
            let s = find(existing, index_start())->0;
            replaced_index(existing, new).take(s + index_start().len()) == existing.take(
                s + index_start().len(),
            )
        }),
{
    let s = find(existing, index_start())->0;
    lemma_find_from(existing, index_start(), 0);
    let pre = existing.take(s + index_start().len());
    assert(replaced_index(existing, new).take(pre.len() as int) =~= pre);
}

} // verus!
