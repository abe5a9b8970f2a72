//! Wikilinks: finding `[[target]]`, `[[target|alias]]` and `![[embed]]`
//! links in page text, spotting malformed ones, and the vault-wide link
//! graph report (orphans, dangling targets, repairable targets).

use vstd::prelude::*;
use crate::frontmatter::{summa_owned, is_summa_owned, eq_chars};
use crate::order::{insert_sorted, strictly_sorted};
use crate::vault::{file_name, file_name_exec, file_stem, file_stem_exec};
use crate::text::{
    after_char, after_char_exec, after_pat, after_pat_exec, all_ascii_digits,
    all_ascii_digits_exec, append_chars, before_char, before_char_exec, before_pat,
    before_pat_exec, contains, contains_exec, find_char_from, find_char_from_exec, from_chars,
    join, join_exec, lemma_find_char_from, lowercase, lowercase_chars, opt_int, sub_chars,
    to_chars, trim, trim_exec, views, words, words_exec,
};

verus! {

// ---------------------------------------------------------------------------
// Finding links
// ---------------------------------------------------------------------------

/// Where the bracket part `[[inner]]` of a link starting at `i` ends: the
/// position of the first `]` after `[[`, when at least one character lies
/// between and a second `]` follows it.
pub open spec fn bracket_close(s: Seq<char>, i: int) -> Option<int> {
    if 0 <= i && i + 2 <= s.len() && s[i] == '[' && s[i + 1] == '[' {
        match find_char_from(s, ']', i + 2) {
            Some(k) => if k > i + 2 && k + 1 < s.len() && s[k + 1] == ']' {
                Some(k)
            } else {
                None
            },
            None => None,
        }
    } else {
        None
    }
}

/// A link found in a text: where it starts and ends, and where its inner
/// text (between `[[` and `]]`) starts and ends.
pub struct LinkSpan {
    pub start: int,
    pub inner_start: int,
    pub inner_end: int,
    pub end: int,
}

/// The link that the pattern `!?\[\[([^\]]+)\]\]` matches at position `p`,
/// the leading `!` taken when it can be.
pub open spec fn link_at(s: Seq<char>, p: int) -> Option<LinkSpan> {
    if 0 <= p < s.len() && s[p] == '!' && bracket_close(s, p + 1) is Some {
        let k = bracket_close(s, p + 1)->0;
        Some(LinkSpan { start: p, inner_start: p + 3, inner_end: k, end: k + 2 })
    } else if bracket_close(s, p) is Some {
        let k = bracket_close(s, p)->0;
        Some(LinkSpan { start: p, inner_start: p + 2, inner_end: k, end: k + 2 })
    } else {
        None
    }
}

pub proof fn lemma_bracket_close(s: Seq<char>, i: int)
    ensures
        bracket_close(s, i) matches Some(k) ==> {
            &&& 0 <= i && i + 2 < k && k + 1 < s.len()
            &&& s[i] == '[' && s[i + 1] == '['
            &&& s[k] == ']' && s[k + 1] == ']'
            &&& forall|j: int| i + 2 <= j < k ==> s[j] != ']'
        },
{
    if 0 <= i && i + 2 <= s.len() && s[i] == '[' && s[i + 1] == '[' {
        lemma_find_char_from(s, ']', i + 2);
    }
}

pub proof fn lemma_link_at(s: Seq<char>, p: int)
    ensures
        link_at(s, p) matches Some(m) ==> {
            &&& m.start == p && 0 <= p
            &&& p < m.inner_start < m.inner_end && m.end == m.inner_end + 2 && m.end <= s.len()
            &&& m.inner_start == p + 2 || m.inner_start == p + 3
        },
{
    lemma_bracket_close(s, p);
    lemma_bracket_close(s, p + 1);
}

/// The links of `s[pos..]`, left to right, none overlapping: the search
/// resumes where the previous link ended.
pub open spec fn links_from(s: Seq<char>, pos: int) -> Seq<LinkSpan>
    decreases s.len() - pos,
{
    if pos < 0 || pos >= s.len() {
        seq![]
    } else {
        match link_at(s, pos) {
            Some(m) => {
                proof {
                    lemma_link_at(s, pos);
                }
                seq![m] + links_from(s, m.end)
            },
            None => links_from(s, pos + 1),
        }
    }
}

/// Every wikilink of `s`, as (raw link text, inner text) pairs.
pub open spec fn link_texts(s: Seq<char>, ms: Seq<LinkSpan>) -> Seq<(Seq<char>, Seq<char>)> {
    Seq::new(
        ms.len(),
        |i: int| (s.subrange(ms[i].start, ms[i].end), s.subrange(ms[i].inner_start, ms[i].inner_end)),
    )
}

/// Every wikilink of `s`, as (raw link text, inner text) pairs.
pub open spec fn wikilinks(s: Seq<char>) -> Seq<(Seq<char>, Seq<char>)> {
    link_texts(s, links_from(s, 0))
}

/// The bracket close of a link starting at `i`.
fn bracket_close_exec(s: &[char], i: usize) -> (r: Option<usize>)
    ensures
        opt_int(r) == bracket_close(s@, i as int),
{
    if i < s.len() && s.len() - i >= 2 && s[i] == '[' && s[i + 1] == '[' {
        match find_char_from_exec(s, ']', i + 2) {
            Some(k) => {
                proof { lemma_find_char_from(s@, ']', i + 2); }
                if k > i + 2 && k + 1 < s.len() && s[k + 1] == ']' {
                    Some(k)
                } else {
                    None
                }
            },
            None => None,
        }
    } else {
        None
    }
}

/// The positions of a found link: start, inner start, inner end, end.
pub struct Span {
    pub start: usize,
    pub inner_start: usize,
    pub inner_end: usize,
    pub end: usize,
}

pub open spec fn span_is(x: Span, m: LinkSpan) -> bool {
    x.start == m.start && x.inner_start == m.inner_start && x.inner_end == m.inner_end && x.end
        == m.end
}

/// The link that starts at `p`, if any.
fn link_at_exec(s: &[char], p: usize) -> (r: Option<Span>)
    ensures
        match r {
            Some(x) => link_at(s@, p as int) matches Some(m) && span_is(x, m),
            None => link_at(s@, p as int) is None,
        },
{
    proof {
        lemma_bracket_close(s@, p as int);
        lemma_bracket_close(s@, p + 1);
    }
    if p < s.len() && s[p] == '!' {
        match bracket_close_exec(s, p + 1) {
            Some(k) => {
                return Some(Span { start: p, inner_start: p + 3, inner_end: k, end: k + 2 });
            },
            None => {},
        }
    }
    match bracket_close_exec(s, p) {
        Some(k) => Some(Span { start: p, inner_start: p + 2, inner_end: k, end: k + 2 }),
        None => None,
    }
}


// ---------------------------------------------------------------------------
// Reading a link
// ---------------------------------------------------------------------------

/// A backslash followed by a pipe: the escaping that web clippers leave in
/// link aliases, which Obsidian does not read as an alias separator.
pub open spec fn escaped_pipe() -> Seq<char> {
    seq!['\\', '|']
}

/// An alias that is nothing but a clipper's numeric id.
pub open spec fn digit_alias(a: Seq<char>) -> bool {
    trim(a).len() > 0 && all_ascii_digits(trim(a))
}

/// `[[target]]`.
pub open spec fn plain_link(target: Seq<char>) -> Seq<char> {
    seq!['[', '['] + target + seq![']', ']']
}

/// `[[target|alias]]`.
pub open spec fn alias_link(target: Seq<char>, alias: Seq<char>) -> Seq<char> {
    seq!['[', '['] + target + seq!['|'] + alias + seq![']', ']']
}

/// The page that a link's inner text points at: the target part (before the
/// alias separator, before any `#section`), trimmed; none when that is empty.
pub open spec fn link_target(inner: Seq<char>) -> Option<Seq<char>> {
    let t = if contains(inner, escaped_pipe()) {
        trim(before_char(trim(before_pat(inner, escaped_pipe())), '#'))
    } else {
        let tp = before_char(inner, '|');
        match after_char(inner, '|') {
            Some(a) => if digit_alias(a) {
                trim(before_char(trim(tp), '#'))
            } else {
                trim(before_char(tp, '#'))
            },
            None => trim(before_char(tp, '#')),
        }
    };
    if t.len() > 0 {
        Some(t)
    } else {
        None
    }
}

/// The repaired form of a malformed link, or none when the link is well
/// formed. A link is malformed when it uses `\\|` as alias separator (the fix
/// uses `|`, or drops the alias when it is empty or all digits) or when its
/// alias is all digits (the fix drops the alias).
pub open spec fn link_fix(inner: Seq<char>) -> Option<Seq<char>> {
    if contains(inner, escaped_pipe()) {
        let target = trim(before_pat(inner, escaped_pipe()));
        let alias = trim(after_pat(inner, escaped_pipe())->0);
        if alias.len() == 0 || all_ascii_digits(alias) {
            Some(plain_link(target))
        } else {
            Some(alias_link(target, alias))
        }
    } else {
        match after_char(inner, '|') {
            Some(a) => if digit_alias(a) {
                Some(plain_link(trim(before_char(inner, '|'))))
            } else {
                None
            },
            None => None,
        }
    }
}

/// The link targets among the links `ls`, in order.
pub open spec fn targets_of(ls: Seq<(Seq<char>, Seq<char>)>) -> Seq<Seq<char>>
    decreases ls.len(),
{
    if ls.len() == 0 {
        seq![]
    } else {
        let r = targets_of(ls.drop_last());
        match link_target(ls.last().1) {
            Some(t) => r.push(t),
            None => r,
        }
    }
}

/// The malformed links among `ls`, in order, as (raw link, repaired link).
pub open spec fn malformed_of(ls: Seq<(Seq<char>, Seq<char>)>) -> Seq<(Seq<char>, Seq<char>)>
    decreases ls.len(),
{
    if ls.len() == 0 {
        seq![]
    } else {
        let r = malformed_of(ls.drop_last());
        match link_fix(ls.last().1) {
            Some(f) => r.push((ls.last().0, f)),
            None => r,
        }
    }
}

pub open spec fn string_views(v: Seq<String>) -> Seq<Seq<char>> {
    Seq::new(v.len(), |i: int| v[i]@)
}

pub open spec fn pair_views(v: Seq<(String, String)>) -> Seq<(Seq<char>, Seq<char>)> {
    Seq::new(v.len(), |i: int| (v[i].0@, v[i].1@))
}

fn plain_link_exec(target: &[char]) -> (r: Vec<char>)
    ensures
        r@ == plain_link(target@),
{
    let mut r: Vec<char> = Vec::new();
    r.push('[');
    r.push('[');
    append_chars(&mut r, target);
    r.push(']');
    r.push(']');
    proof { assert(r@ =~= plain_link(target@)); }
    r
}

fn alias_link_exec(target: &[char], alias: &[char]) -> (r: Vec<char>)
    ensures
        r@ == alias_link(target@, alias@),
{
    let mut r: Vec<char> = Vec::new();
    r.push('[');
    r.push('[');
    append_chars(&mut r, target);
    r.push('|');
    append_chars(&mut r, alias);
    r.push(']');
    r.push(']');
    proof { assert(r@ =~= alias_link(target@, alias@)); }
    r
}

fn digit_alias_exec(a: &[char]) -> (b: bool)
    ensures
        b == digit_alias(a@),
{
    let t = trim_exec(a);
    t.len() > 0 && all_ascii_digits_exec(&t)
}

fn escaped_pipe_exec() -> (r: Vec<char>)
    ensures
        r@ == escaped_pipe(),
{
    let mut r: Vec<char> = Vec::new();
    r.push('\\');
    r.push('|');
    proof { assert(r@ =~= escaped_pipe()); }
    r
}

/// The page a link's inner text points at.
fn link_target_exec(inner: &[char]) -> (r: Option<Vec<char>>)
    ensures
        match r {
            Some(v) => link_target(inner@) == Some(v@),
            None => link_target(inner@) is None,
        },
{
    let esc = escaped_pipe_exec();
    let t = if contains_exec(inner, &esc) {
        let b = before_pat_exec(inner, &esc);
        let tb = trim_exec(&b);
        let h = before_char_exec(&tb, '#');
        trim_exec(&h)
    } else {
        let tp = before_char_exec(inner, '|');
        let digit = match after_char_exec(inner, '|') {
            Some(a) => digit_alias_exec(&a),
            None => false,
        };
        if digit {
            let tt = trim_exec(&tp);
            let h = before_char_exec(&tt, '#');
            trim_exec(&h)
        } else {
            let h = before_char_exec(&tp, '#');
            trim_exec(&h)
        }
    };
    if t.len() > 0 {
        Some(t)
    } else {
        None
    }
}

/// The repaired form of a malformed link.
fn link_fix_exec(inner: &[char]) -> (r: Option<Vec<char>>)
    ensures
        match r {
            Some(v) => link_fix(inner@) == Some(v@),
            None => link_fix(inner@) is None,
        },
{
    let esc = escaped_pipe_exec();
    if contains_exec(inner, &esc) {
        let b = before_pat_exec(inner, &esc);
        let target = trim_exec(&b);
        let a = match after_pat_exec(inner, &esc) {
            Some(a) => a,
            None => {
                proof {
                    crate::text::lemma_find_from(inner@, esc@, 0);
                }
                Vec::new()
            },
        };
        let alias = trim_exec(&a);
        if alias.len() == 0 || all_ascii_digits_exec(&alias) {
            Some(plain_link_exec(&target))
        } else {
            Some(alias_link_exec(&target, &alias))
        }
    } else {
        match after_char_exec(inner, '|') {
            Some(a) => if digit_alias_exec(&a) {
                let b = before_char_exec(inner, '|');
                let t = trim_exec(&b);
                Some(plain_link_exec(&t))
            } else {
                None
            },
            None => None,
        }
    }
}

pub proof fn lemma_link_texts_push(s: Seq<char>, ms: Seq<LinkSpan>, m: LinkSpan)
    ensures
        link_texts(s, ms.push(m)) == link_texts(s, ms).push(
            (s.subrange(m.start, m.end), s.subrange(m.inner_start, m.inner_end)),
        ),
{
    assert(link_texts(s, ms.push(m)) =~= link_texts(s, ms).push(
        (s.subrange(m.start, m.end), s.subrange(m.inner_start, m.inner_end)),
    ));
}

/// Parse the wikilinks of a text. Returns the link targets, in order, and
/// the malformed links, in order, each as (raw link, repaired link).
/// Malformed links still count as links to their target.
pub fn parse_wikilinks(content: &str) -> (r: (Vec<String>, Vec<(String, String)>))
    ensures
        string_views(r.0@) == targets_of(wikilinks(content@)),
        pair_views(r.1@) == malformed_of(wikilinks(content@)),
{
    let s = to_chars(content);
    let mut valid: Vec<String> = Vec::new();
    let mut malformed: Vec<(String, String)> = Vec::new();
    let ghost mut ms: Seq<LinkSpan> = seq![];
    let mut pos: usize = 0;
    while pos < s.len()
        invariant
            pos <= s.len(),
            s@ == content@,
            links_from(s@, 0) == ms + links_from(s@, pos as int),
            string_views(valid@) == targets_of(link_texts(s@, ms)),
            pair_views(malformed@) == malformed_of(link_texts(s@, ms)),
        decreases s.len() - pos,
    {
        match link_at_exec(&s, pos) {
            Some(x) => {
                let ghost m = link_at(s@, pos as int)->0;
                proof {
                    lemma_link_at(s@, pos as int);
                    lemma_link_texts_push(s@, ms, m);
                    assert(links_from(s@, pos as int) == seq![m] + links_from(s@, m.end));
                    assert(ms + links_from(s@, pos as int) == ms.push(m) + links_from(s@, m.end));
                }
                let raw = sub_chars(&s, x.start, x.end);
                let inner = sub_chars(&s, x.inner_start, x.inner_end);
                let ghost ls = link_texts(s@, ms.push(m));
                proof {
                    assert(ls.drop_last() == link_texts(s@, ms));
                    assert(ls.last() == (raw@, inner@));
                }
                match link_fix_exec(&inner) {
                    Some(f) => {
                        let ghost old_m = malformed@;
                        malformed.push((from_chars(&raw), from_chars(&f)));
                        proof {
                            assert(pair_views(malformed@) =~= pair_views(old_m).push((raw@, f@)));
                        }
                    },
                    None => {},
                }
                match link_target_exec(&inner) {
                    Some(t) => {
                        let ghost old_v = valid@;
                        valid.push(from_chars(&t));
                        proof {
                            assert(string_views(valid@) =~= string_views(old_v).push(t@));
                        }
                    },
                    None => {},
                }
                proof { ms = ms.push(m); }
                pos = x.end;
            },
            None => {
                pos = pos + 1;
            },
        }
    }
    proof {
        assert(links_from(s@, pos as int) == Seq::<LinkSpan>::empty());
        assert(ms + Seq::<LinkSpan>::empty() == ms);
    }
    (valid, malformed)
}


// ---------------------------------------------------------------------------
// Normalised titles
// ---------------------------------------------------------------------------

/// `s` with `_` and `-` turned into spaces.
pub open spec fn fold_separators(s: Seq<char>) -> Seq<char> {
    Seq::new(s.len(), |i: int| if s[i] == '_' || s[i] == '-' { ' ' } else { s[i] })
}

/// The form in which stems, targets and aliases are compared when looking
/// for a repair: `_` and `-` read as spaces, runs of whitespace collapsed to
/// one space, no leading or trailing whitespace, lowercase.
pub open spec fn normalize_title(s: Seq<char>) -> Seq<char> {
    lowercase(join(words(fold_separators(s)), seq![' ']))
}

/// The normalised form of a stem, target or alias.
pub fn normalize_title_exec(s: &[char]) -> (r: Vec<char>)
    ensures
        r@ == normalize_title(s@),
{
    let mut f: Vec<char> = Vec::new();
    let mut i: usize = 0;
    while i < s.len()
        invariant
            i <= s.len(),
            f@ == fold_separators(s@).take(i as int),
        decreases s.len() - i,
    {
        let c = s[i];
        f.push(if c == '_' || c == '-' { ' ' } else { c });
        proof {
            assert(fold_separators(s@).take(i + 1) =~= fold_separators(s@).take(i as int).push(
                fold_separators(s@)[i as int],
            ));
        }
        i = i + 1;
    }
    proof { assert(fold_separators(s@).take(s.len() as int) =~= fold_separators(s@)); }
    let ws = words_exec(&f);
    let sp: [char; 1] = [' '];
    proof { assert(sp@ =~= seq![' ']); }
    let joined = join_exec(&ws, sp.as_slice());
    proof { assert(f@ == fold_separators(s@)); }
    lowercase_chars(&joined)
}


// ---------------------------------------------------------------------------
// The vault's link graph
// ---------------------------------------------------------------------------

/// A markdown page of the vault as the link report reads it.
#[derive(Debug)]
pub struct LinkPage {
    /// The page's path relative to the vault root, `/`-separated.
    pub path: String,
    /// The page's text; none when it could not be read.
    pub content: Option<String>,
    /// The `aliases:` of the page's frontmatter; empty when the page has none
    /// or its frontmatter does not parse.
    pub aliases: Vec<String>,
}

/// The spec view of a `LinkPage`.
pub struct PageView {
    pub path: Seq<char>,
    pub content: Option<Seq<char>>,
    pub aliases: Seq<Seq<char>>,
}

impl View for LinkPage {
    type V = PageView;

    open spec fn view(&self) -> PageView {
        PageView {
            path: self.path@,
            content: match self.content {
                Some(c) => Some(c@),
                None => None,
            },
            aliases: string_views(self.aliases@),
        }
    }
}

pub open spec fn page_views(pages: Seq<LinkPage>) -> Seq<PageView> {
    Seq::new(pages.len(), |i: int| pages[i]@)
}

/// The link targets of a page (none when it could not be read).
pub open spec fn page_targets(p: PageView) -> Seq<Seq<char>> {
    match p.content {
        Some(c) => targets_of(wikilinks(c)),
        None => seq![],
    }
}

/// The malformed links of a page (none when it could not be read).
pub open spec fn page_malformed(p: PageView) -> Seq<(Seq<char>, Seq<char>)> {
    match p.content {
        Some(c) => malformed_of(wikilinks(c)),
        None => seq![],
    }
}

/// The first page, at or after `i`, whose stem is `t`.
pub open spec fn first_exact(ps: Seq<PageView>, t: Seq<char>, i: int) -> Option<int>
    decreases ps.len() - i,
{
    if i < 0 || i >= ps.len() {
        None
    } else if file_stem(ps[i].path) == Some(t) {
        Some(i)
    } else {
        first_exact(ps, t, i + 1)
    }
}

/// The first page, at or after `i`, whose lowercased stem is `lt`.
pub open spec fn first_lower(ps: Seq<PageView>, lt: Seq<char>, i: int) -> Option<int>
    decreases ps.len() - i,
{
    if i < 0 || i >= ps.len() {
        None
    } else if file_stem(ps[i].path) is Some && lowercase(file_stem(ps[i].path)->0) == lt {
        Some(i)
    } else {
        first_lower(ps, lt, i + 1)
    }
}

/// The first page, at or after `i`, whose normalised stem is `nt`.
pub open spec fn first_normalized(ps: Seq<PageView>, nt: Seq<char>, i: int) -> Option<int>
    decreases ps.len() - i,
{
    if i < 0 || i >= ps.len() {
        None
    } else if file_stem(ps[i].path) is Some && normalize_title(file_stem(ps[i].path)->0) == nt {
        Some(i)
    } else {
        first_normalized(ps, nt, i + 1)
    }
}

/// A page has an alias whose normalised form is `nt`.
pub open spec fn has_alias(p: PageView, nt: Seq<char>) -> bool {
    exists|k: int| 0 <= k < p.aliases.len() && normalize_title(#[trigger] p.aliases[k]) == nt
}

/// The first page, at or after `i`, with an alias whose normalised form is `nt`.
pub open spec fn first_alias(ps: Seq<PageView>, nt: Seq<char>, i: int) -> Option<int>
    decreases ps.len() - i,
{
    if i < 0 || i >= ps.len() {
        None
    } else if has_alias(ps[i], nt) {
        Some(i)
    } else {
        first_alias(ps, nt, i + 1)
    }
}

/// How a link target resolves against the vault's pages.
pub enum Resolution {
    /// A page's stem is exactly the target: the first such page.
    Exact(int),
    /// No stem is exactly the target, but one matches it ignoring case, or
    /// after normalisation, or a page's alias does: the page it should name.
    Repair(int),
    /// Nothing matches.
    Dangling,
}

/// How the target `t` resolves. An exact (case-sensitive) stem match always
/// wins; only without one are lowercase stems, normalised stems and
/// normalised aliases tried, in that order.
pub open spec fn resolve(ps: Seq<PageView>, t: Seq<char>) -> Resolution {
    match first_exact(ps, t, 0) {
        Some(i) => Resolution::Exact(i),
        None => match first_lower(ps, lowercase(t), 0) {
            Some(i) => Resolution::Repair(i),
            None => match first_normalized(ps, normalize_title(t), 0) {
                Some(i) => Resolution::Repair(i),
                None => match first_alias(ps, normalize_title(t), 0) {
                    Some(i) => Resolution::Repair(i),
                    None => Resolution::Dangling,
                },
            },
        },
    }
}

/// Some page links to `t`.
pub open spec fn linked_target(ps: Seq<PageView>, t: Seq<char>) -> bool {
    exists|j: int| 0 <= j < ps.len() && #[trigger] page_targets(ps[j]).contains(t)
}

/// Page `i` receives at least one link.
pub open spec fn has_inbound(ps: Seq<PageView>, i: int) -> bool {
    exists|t: Seq<char>|
        #[trigger] linked_target(ps, t) && (resolve(ps, t) == Resolution::Exact(i) || resolve(
            ps,
            t,
        ) == Resolution::Repair(i))
}

/// File names that are never orphans.
pub open spec fn managed_name(n: Seq<char>) -> bool {
    n == "index.md"@ || n == "log.md"@
}

/// Page `i` is an orphan: a readable page under `wiki/` that this tool owns,
/// that no link reaches, and that is not `index.md` or `log.md`.
pub open spec fn is_orphan(ps: Seq<PageView>, i: int) -> bool {
    &&& !has_inbound(ps, i)
    &&& !(file_name(ps[i].path) is Some && managed_name(file_name(ps[i].path)->0))
    &&& (crate::text::starts_with(ps[i].path, "wiki/"@) || crate::text::starts_with(ps[i].path, "wiki\\"@))
    &&& ps[i].content is Some
    &&& summa_owned(ps[i].content->0)
}

/// The page a repairable target should name: the stem of the page it
/// resolves to (the target itself if that page has no stem).
pub open spec fn canonical(ps: Seq<PageView>, t: Seq<char>) -> Seq<char> {
    match resolve(ps, t) {
        Resolution::Repair(i) => match file_stem(ps[i].path) {
            Some(st) => st,
            None => t,
        },
        _ => t,
    }
}

/// The malformed links of all pages, page by page, as (page path, raw, fix).
pub open spec fn all_malformed(ps: Seq<PageView>) -> Seq<(Seq<char>, Seq<char>, Seq<char>)>
    decreases ps.len(),
{
    if ps.len() == 0 {
        seq![]
    } else {
        let last = ps.last();
        all_malformed(ps.drop_last()) + Seq::new(
            page_malformed(last).len(),
            |k: int| (last.path, page_malformed(last)[k].0, page_malformed(last)[k].1),
        )
    }
}

/// The number of links of all pages, malformed links counted twice (once as
/// a link to their target, once as malformed).
pub open spec fn link_count(ps: Seq<PageView>) -> nat
    decreases ps.len(),
{
    if ps.len() == 0 {
        0
    } else {
        link_count(ps.drop_last()) + page_targets(ps.last()).len() + page_malformed(ps.last()).len()
    }
}

/// No two pages share a path.
pub open spec fn distinct_paths(ps: Seq<PageView>) -> bool {
    forall|i: int, j: int| 0 <= i < j < ps.len() ==> ps[i].path != ps[j].path
}


pub open spec fn opt_view(o: Option<Vec<char>>) -> Option<Seq<char>> {
    match o {
        Some(v) => Some(v@),
        None => None,
    }
}

/// What the report needs of one page, computed once.
struct PageInfo {
    path: Vec<char>,
    stem: Option<Vec<char>>,
    lower: Option<Vec<char>>,
    norm: Option<Vec<char>>,
    aliases: Vec<Vec<char>>,
    targets: Vec<Vec<char>>,
}

spec fn info_ok(x: PageInfo, p: PageView) -> bool {
    &&& x.path@ == p.path
    &&& opt_view(x.stem) == file_stem(p.path)
    &&& match x.stem {
        Some(st) => opt_view(x.lower) == Some(lowercase(st@)) && opt_view(x.norm) == Some(
            normalize_title(st@),
        ),
        None => x.lower is None && x.norm is None,
    }
    &&& views(x.aliases@) == Seq::new(p.aliases.len(), |k: int| normalize_title(p.aliases[k]))
    &&& views(x.targets@) == page_targets(p)
}

spec fn infos_ok(xs: Seq<PageInfo>, ps: Seq<PageView>) -> bool {
    xs.len() == ps.len() && forall|i: int| 0 <= i < xs.len() ==> info_ok(#[trigger] xs[i], ps[i])
}

fn chars_of_strings(v: &Vec<String>) -> (r: Vec<Vec<char>>)
    ensures
        views(r@) == string_views(v@),
{
    let mut r: Vec<Vec<char>> = Vec::new();
    let mut i: usize = 0;
    while i < v.len()
        invariant
            i <= v.len(),
            views(r@) == string_views(v@).take(i as int),
        decreases v.len() - i,
    {
        let ghost old_r = r@;
        r.push(to_chars(v[i].as_str()));
        proof {
            crate::text::lemma_views_push(old_r, r@.last());
            assert(string_views(v@).take(i + 1) =~= string_views(v@).take(i as int).push(v@[i as int]@));
        }
        i = i + 1;
    }
    proof { assert(string_views(v@).take(v.len() as int) =~= string_views(v@)); }
    r
}

fn page_info(p: &LinkPage) -> (x: PageInfo)
    ensures
        info_ok(x, p@),
{
    let path = to_chars(p.path.as_str());
    let stem = file_stem_exec(&path);
    let (lower, norm) = match &stem {
        Some(st) => (Some(lowercase_chars(st)), Some(normalize_title_exec(st))),
        None => (None, None),
    };
    let mut aliases: Vec<Vec<char>> = Vec::new();
    let mut k: usize = 0;
    while k < p.aliases.len()
        invariant
            k <= p.aliases.len(),
            views(aliases@) == Seq::new(k as nat, |j: int| normalize_title(p@.aliases[j])),
        decreases p.aliases.len() - k,
    {
        let a = to_chars(p.aliases[k].as_str());
        let ghost old_a = aliases@;
        aliases.push(normalize_title_exec(&a));
        proof {
            crate::text::lemma_views_push(old_a, aliases@.last());
            assert(views(aliases@) =~= Seq::new((k + 1) as nat, |j: int| normalize_title(p@.aliases[j])));
        }
        k = k + 1;
    }
    let targets = match &p.content {
        Some(c) => {
            let (t, _) = parse_wikilinks(c.as_str());
            chars_of_strings(&t)
        },
        None => Vec::new(),
    };
    proof {
        if p.content is None {
            assert(views(targets@) =~= page_targets(p@));
        }
    }
    PageInfo { path, stem, lower, norm, aliases, targets }
}

fn page_infos(pages: &[LinkPage]) -> (xs: Vec<PageInfo>)
    ensures
        infos_ok(xs@, page_views(pages@)),
{
    let mut xs: Vec<PageInfo> = Vec::new();
    let mut i: usize = 0;
    while i < pages.len()
        invariant
            i <= pages.len(),
            infos_ok(xs@, page_views(pages@).take(i as int)),
        decreases pages.len() - i,
    {
        xs.push(page_info(&pages[i]));
        i = i + 1;
    }
    proof { assert(page_views(pages@).take(pages.len() as int) =~= page_views(pages@)); }
    xs
}

/// How a target resolves, with page indices.
enum Res {
    Exact(usize),
    Repair(usize),
    Dangling,
}

spec fn res_is(r: Res, s: Resolution) -> bool {
    match r {
        Res::Exact(i) => s == Resolution::Exact(i as int),
        Res::Repair(i) => s == Resolution::Repair(i as int),
        Res::Dangling => s == Resolution::Dangling,
    }
}

proof fn lemma_first_exact(ps: Seq<PageView>, t: Seq<char>, i: int)
    requires
        0 <= i,
    ensures
        first_exact(ps, t, i) matches Some(k) ==> i <= k < ps.len(),
    decreases ps.len() - i,
{
    if i < ps.len() && file_stem(ps[i].path) != Some(t) {
        lemma_first_exact(ps, t, i + 1);
    }
}

proof fn lemma_first_lower(ps: Seq<PageView>, t: Seq<char>, i: int)
    requires
        0 <= i,
    ensures
        first_lower(ps, t, i) matches Some(k) ==> i <= k < ps.len(),
    decreases ps.len() - i,
{
    if i < ps.len() && !(file_stem(ps[i].path) is Some && lowercase(file_stem(ps[i].path)->0) == t) {
        lemma_first_lower(ps, t, i + 1);
    }
}

proof fn lemma_first_normalized(ps: Seq<PageView>, t: Seq<char>, i: int)
    requires
        0 <= i,
    ensures
        first_normalized(ps, t, i) matches Some(k) ==> i <= k < ps.len(),
    decreases ps.len() - i,
{
    if i < ps.len() && !(file_stem(ps[i].path) is Some && normalize_title(file_stem(ps[i].path)->0) == t) {
        lemma_first_normalized(ps, t, i + 1);
    }
}

proof fn lemma_first_alias(ps: Seq<PageView>, t: Seq<char>, i: int)
    requires
        0 <= i,
    ensures
        first_alias(ps, t, i) matches Some(k) ==> i <= k < ps.len(),
    decreases ps.len() - i,
{
    if i < ps.len() && !has_alias(ps[i], t) {
        lemma_first_alias(ps, t, i + 1);
    }
}

proof fn lemma_resolve_bounds(ps: Seq<PageView>, t: Seq<char>)
    ensures
        resolve(ps, t) matches Resolution::Exact(i) ==> 0 <= i < ps.len(),
        resolve(ps, t) matches Resolution::Repair(i) ==> 0 <= i < ps.len(),
{
    lemma_first_exact(ps, t, 0);
    lemma_first_lower(ps, lowercase(t), 0);
    lemma_first_normalized(ps, normalize_title(t), 0);
    lemma_first_alias(ps, normalize_title(t), 0);
}

fn first_exact_exec(xs: &Vec<PageInfo>, t: &[char], Ghost(ps): Ghost<Seq<PageView>>) -> (r: Option<usize>)
    requires
        infos_ok(xs@, ps),
    ensures
        opt_int(r) == first_exact(ps, t@, 0),
{
    let mut i: usize = 0;
    while i < xs.len()
        invariant
            i <= xs.len(),
            infos_ok(xs@, ps),
            first_exact(ps, t@, 0) == first_exact(ps, t@, i as int),
        decreases xs.len() - i,
    {
        let hit = match &xs[i].stem {
            Some(st) => eq_chars(st, t),
            None => false,
        };
        proof { assert(info_ok(xs@[i as int], ps[i as int])); }
        if hit {
            return Some(i);
        }
        i = i + 1;
    }
    None
}

fn first_lower_exec(xs: &Vec<PageInfo>, lt: &[char], Ghost(ps): Ghost<Seq<PageView>>) -> (r: Option<usize>)
    requires
        infos_ok(xs@, ps),
    ensures
        opt_int(r) == first_lower(ps, lt@, 0),
{
    let mut i: usize = 0;
    while i < xs.len()
        invariant
            i <= xs.len(),
            infos_ok(xs@, ps),
            first_lower(ps, lt@, 0) == first_lower(ps, lt@, i as int),
        decreases xs.len() - i,
    {
        let hit = match &xs[i].lower {
            Some(l) => eq_chars(l, lt),
            None => false,
        };
        proof { assert(info_ok(xs@[i as int], ps[i as int])); }
        if hit {
            return Some(i);
        }
        i = i + 1;
    }
    None
}

fn first_normalized_exec(xs: &Vec<PageInfo>, nt: &[char], Ghost(ps): Ghost<Seq<PageView>>) -> (r: Option<usize>)
    requires
        infos_ok(xs@, ps),
    ensures
        opt_int(r) == first_normalized(ps, nt@, 0),
{
    let mut i: usize = 0;
    while i < xs.len()
        invariant
            i <= xs.len(),
            infos_ok(xs@, ps),
            first_normalized(ps, nt@, 0) == first_normalized(ps, nt@, i as int),
        decreases xs.len() - i,
    {
        let hit = match &xs[i].norm {
            Some(n) => eq_chars(n, nt),
            None => false,
        };
        proof { assert(info_ok(xs@[i as int], ps[i as int])); }
        if hit {
            return Some(i);
        }
        i = i + 1;
    }
    None
}

fn has_alias_exec(x: &PageInfo, nt: &[char], Ghost(p): Ghost<PageView>) -> (b: bool)
    requires
        info_ok(*x, p),
    ensures
        b == has_alias(p, nt@),
{
    let mut k: usize = 0;
    proof {
        assert(views(x.aliases@).len() == x.aliases@.len());
        assert(x.aliases@.len() == p.aliases.len());
    }
    while k < x.aliases.len()
        invariant
            k <= x.aliases.len(),
            x.aliases@.len() == p.aliases.len(),
            info_ok(*x, p),
            forall|j: int| 0 <= j < k ==> normalize_title(#[trigger] p.aliases[j]) != nt@,
        decreases x.aliases.len() - k,
    {
        proof {
            assert(views(x.aliases@)[k as int] == normalize_title(p.aliases[k as int]));
        }
        if eq_chars(&x.aliases[k], nt) {
            proof {
                assert(normalize_title(p.aliases[k as int]) == nt@);
            }
            return true;
        }
        k = k + 1;
    }
    proof {
        assert(views(x.aliases@).len() == p.aliases.len());
    }
    false
}

fn first_alias_exec(xs: &Vec<PageInfo>, nt: &[char], Ghost(ps): Ghost<Seq<PageView>>) -> (r: Option<usize>)
    requires
        infos_ok(xs@, ps),
    ensures
        opt_int(r) == first_alias(ps, nt@, 0),
{
    let mut i: usize = 0;
    while i < xs.len()
        invariant
            i <= xs.len(),
            infos_ok(xs@, ps),
            first_alias(ps, nt@, 0) == first_alias(ps, nt@, i as int),
        decreases xs.len() - i,
    {
        proof { assert(info_ok(xs@[i as int], ps[i as int])); }
        if has_alias_exec(&xs[i], nt, Ghost(ps[i as int])) {
            return Some(i);
        }
        i = i + 1;
    }
    None
}

fn resolve_exec(xs: &Vec<PageInfo>, t: &[char], Ghost(ps): Ghost<Seq<PageView>>) -> (r: Res)
    requires
        infos_ok(xs@, ps),
    ensures
        res_is(r, resolve(ps, t@)),
{
    if let Some(i) = first_exact_exec(xs, t, Ghost(ps)) {
        return Res::Exact(i);
    }
    let lt = lowercase_chars(t);
    if let Some(i) = first_lower_exec(xs, &lt, Ghost(ps)) {
        return Res::Repair(i);
    }
    let nt = normalize_title_exec(t);
    if let Some(i) = first_normalized_exec(xs, &nt, Ghost(ps)) {
        return Res::Repair(i);
    }
    if let Some(i) = first_alias_exec(xs, &nt, Ghost(ps)) {
        return Res::Repair(i);
    }
    Res::Dangling
}


/// The link targets of all pages, page by page.
pub open spec fn flat_targets(ps: Seq<PageView>) -> Seq<Seq<char>>
    decreases ps.len(),
{
    if ps.len() == 0 {
        seq![]
    } else {
        flat_targets(ps.drop_last()) + page_targets(ps.last())
    }
}

proof fn lemma_flat_targets(ps: Seq<PageView>, t: Seq<char>)
    ensures
        flat_targets(ps).contains(t) <==> linked_target(ps, t),
    decreases ps.len(),
{
    if ps.len() > 0 {
        let init = ps.drop_last();
        lemma_flat_targets(init, t);
        let a = flat_targets(init);
        let b = page_targets(ps.last());
        if (a + b).contains(t) {
            let k = choose|k: int| 0 <= k < (a + b).len() && (a + b)[k] == t;
            if k < a.len() {
                assert(a.contains(t));
                let j = choose|j: int| 0 <= j < init.len() && #[trigger] page_targets(init[j]).contains(t);
                assert(ps[j] == init[j]);
                assert(page_targets(ps[j]).contains(t));
            } else {
                assert(b[k - a.len()] == t);
                assert(page_targets(ps[ps.len() - 1]).contains(t));
            }
        }
        if linked_target(ps, t) {
            let j = choose|j: int| 0 <= j < ps.len() && #[trigger] page_targets(ps[j]).contains(t);
            if j < ps.len() - 1 {
                assert(init[j] == ps[j]);
                assert(page_targets(init[j]).contains(t));
                assert(a.contains(t));
                let k = choose|k: int| 0 <= k < a.len() && a[k] == t;
                assert((a + b)[k] == t);
            } else {
                let k = choose|k: int| 0 <= k < b.len() && b[k] == t;
                assert((a + b)[a.len() + k] == t);
            }
        }
    }
}

proof fn lemma_push_contains(s: Seq<Seq<char>>, t: Seq<char>, x: Seq<char>)
    ensures
        s.push(t).contains(x) <==> (s.contains(x) || x == t),
{
    if s.push(t).contains(x) {
        let w = choose|w: int| 0 <= w < s.push(t).len() && s.push(t)[w] == x;
        if w < s.len() {
            assert(s[w] == x);
        }
    }
    if s.contains(x) {
        let w = choose|w: int| 0 <= w < s.len() && s[w] == x;
        assert(s.push(t)[w] == x);
    }
    if x == t {
        assert(s.push(t)[s.len() as int] == x);
    }
}

spec fn targets_page(ps: Seq<PageView>, t: Seq<char>, i: int) -> bool {
    resolve(ps, t) == Resolution::Exact(i) || resolve(ps, t) == Resolution::Repair(i)
}

/// What the first pass over all links gathers: which pages are linked to,
/// and the dangling and repairable targets, sorted.
struct Pass {
    linked: Vec<bool>,
    dangling: Vec<Vec<char>>,
    repairable: Vec<Vec<char>>,
}

spec fn pass_ok(p: Pass, ps: Seq<PageView>, seen: Seq<Seq<char>>) -> bool {
    &&& p.linked@.len() == ps.len()
    &&& forall|i: int| 0 <= i < ps.len() ==> (#[trigger] p.linked@[i] <==> exists|t: Seq<char>| #[trigger] seen.contains(t) && targets_page(ps, t, i))
    &&& strictly_sorted(views(p.dangling@))
    &&& forall|t: Seq<char>| #[trigger] views(p.dangling@).contains(t) <==> (seen.contains(t) && resolve(ps, t) is Dangling)
    &&& strictly_sorted(views(p.repairable@))
    &&& forall|t: Seq<char>| #[trigger] views(p.repairable@).contains(t) <==> (seen.contains(t) && resolve(ps, t) is Repair)
}

fn first_pass(xs: &Vec<PageInfo>, Ghost(ps): Ghost<Seq<PageView>>) -> (p: Pass)
    requires
        infos_ok(xs@, ps),
    ensures
        pass_ok(p, ps, flat_targets(ps)),
{
    let mut linked: Vec<bool> = Vec::new();
    let mut i: usize = 0;
    while i < xs.len()
        invariant
            i <= xs.len(),
            linked@.len() == i,
            forall|k: int| 0 <= k < i ==> !#[trigger] linked@[k],
        decreases xs.len() - i,
    {
        linked.push(false);
        i = i + 1;
    }
    let mut p = Pass { linked, dangling: Vec::new(), repairable: Vec::new() };
    proof {
        assert(ps.take(0) =~= Seq::<PageView>::empty());
        assert(flat_targets(ps.take(0)) =~= Seq::<Seq<char>>::empty());
    }
    let mut j: usize = 0;
    while j < xs.len()
        invariant
            j <= xs.len(),
            infos_ok(xs@, ps),
            pass_ok(p, ps, flat_targets(ps.take(j as int))),
        decreases xs.len() - j,
    {
        let ghost before = flat_targets(ps.take(j as int));
        proof {
            assert(info_ok(xs@[j as int], ps[j as int]));
            assert(ps.take(j + 1).drop_last() =~= ps.take(j as int));
            assert(flat_targets(ps.take(j + 1)) == before + page_targets(ps[j as int]));
        }
        let tv = &xs[j].targets;
        let mut k: usize = 0;
        proof {
            assert(page_targets(ps[j as int]).take(0) =~= Seq::<Seq<char>>::empty());
            assert(before + page_targets(ps[j as int]).take(0) =~= before);
        }
        while k < tv.len()
            invariant
                k <= tv.len(),
                infos_ok(xs@, ps),
                j < xs.len(),
                views(tv@) == page_targets(ps[j as int]),
                pass_ok(p, ps, before + page_targets(ps[j as int]).take(k as int)),
            decreases tv.len() - k,
        {
            let t = &tv[k];
            let ghost seen = before + page_targets(ps[j as int]).take(k as int);
            let ghost seen2 = before + page_targets(ps[j as int]).take(k + 1);
            proof {
                assert(views(tv@)[k as int] == t@);
                assert(seen2 =~= seen.push(t@));
                lemma_resolve_bounds(ps, t@);
            }
            let r = resolve_exec(xs, t.as_slice(), Ghost(ps));
            match r {
                Res::Exact(i) => {
                    p.linked.set(i, true);
                },
                Res::Repair(i) => {
                    p.linked.set(i, true);
                    insert_sorted(&mut p.repairable, vstd::slice::slice_to_vec(t.as_slice()));
                },
                Res::Dangling => {
                    insert_sorted(&mut p.dangling, vstd::slice::slice_to_vec(t.as_slice()));
                },
            }
            proof {
                assert forall|ii: int| 0 <= ii < ps.len() implies (#[trigger] p.linked@[ii] <==> exists|x: Seq<char>| #[trigger] seen2.contains(x) && targets_page(ps, x, ii)) by {
                    if p.linked@[ii] {
                        if targets_page(ps, t@, ii) {
                            assert(seen2[seen.len() as int] == t@);
                            assert(seen2.contains(t@));
                        } else {
                            let x = choose|x: Seq<char>| #[trigger] seen.contains(x) && targets_page(ps, x, ii);
                            let w = choose|w: int| 0 <= w < seen.len() && seen[w] == x;
                            assert(seen2[w] == x);
                            assert(seen2.contains(x));
                        }
                    }
                    if exists|x: Seq<char>| #[trigger] seen2.contains(x) && targets_page(ps, x, ii) {
                        let x = choose|x: Seq<char>| #[trigger] seen2.contains(x) && targets_page(ps, x, ii);
                        if x != t@ {
                            let w = choose|w: int| 0 <= w < seen2.len() && seen2[w] == x;
                            assert(seen[w] == x);
                            assert(seen.contains(x));
                        }
                    }
                }
                assert forall|x: Seq<char>| #[trigger] views(p.dangling@).contains(x) <==> (seen2.contains(x) && resolve(ps, x) is Dangling) by {
                    lemma_push_contains(seen, t@, x);
                }
                assert forall|x: Seq<char>| #[trigger] views(p.repairable@).contains(x) <==> (seen2.contains(x) && resolve(ps, x) is Repair) by {
                    lemma_push_contains(seen, t@, x);
                }
            }
            k = k + 1;
        }
        proof {
            assert(page_targets(ps[j as int]).take(tv.len() as int) =~= page_targets(ps[j as int]));
        }
        j = j + 1;
    }
    proof { assert(ps.take(xs.len() as int) =~= ps); }
    p
}


/// Whether `t` is one of `v`.
pub fn contains_chars(v: &Vec<Vec<char>>, t: &[char]) -> (b: bool)
    ensures
        b == views(v@).contains(t@),
{
    let mut k: usize = 0;
    while k < v.len()
        invariant
            k <= v.len(),
            forall|i: int| 0 <= i < k ==> views(v@)[i] != t@,
        decreases v.len() - k,
    {
        if eq_chars(&v[k], t) {
            proof { assert(views(v@)[k as int] == t@); }
            return true;
        }
        k = k + 1;
    }
    false
}

/// `files` are, sorted and without repeats, the paths of the pages that link
/// to `t`.
pub open spec fn referencing_files(ps: Seq<PageView>, t: Seq<char>, files: Seq<Seq<char>>) -> bool {
    &&& strictly_sorted(files)
    &&& forall|f: Seq<char>| #[trigger] files.contains(f) <==> exists|j: int|
        0 <= j < ps.len() && ps[j].path == f && #[trigger] page_targets(ps[j]).contains(t)
}

fn files_linking(xs: &Vec<PageInfo>, t: &[char], Ghost(ps): Ghost<Seq<PageView>>) -> (r: Vec<Vec<char>>)
    requires
        infos_ok(xs@, ps),
    ensures
        referencing_files(ps, t@, views(r@)),
{
    let mut r: Vec<Vec<char>> = Vec::new();
    let mut j: usize = 0;
    while j < xs.len()
        invariant
            j <= xs.len(),
            infos_ok(xs@, ps),
            strictly_sorted(views(r@)),
            forall|f: Seq<char>| #[trigger] views(r@).contains(f) <==> exists|jj: int|
                0 <= jj < j && ps[jj].path == f && #[trigger] page_targets(ps[jj]).contains(t@),
        decreases xs.len() - j,
    {
        proof { assert(info_ok(xs@[j as int], ps[j as int])); }
        let hit = contains_chars(&xs[j].targets, t);
        let ghost old_r = views(r@);
        if hit {
            insert_sorted(&mut r, vstd::slice::slice_to_vec(xs[j].path.as_slice()));
        }
        proof {
            assert forall|f: Seq<char>| #[trigger] views(r@).contains(f) <==> exists|jj: int|
                0 <= jj < j + 1 && ps[jj].path == f && #[trigger] page_targets(ps[jj]).contains(t@) by {
                if views(r@).contains(f) && !old_r.contains(f) {
                    assert(ps[j as int].path == f && page_targets(ps[j as int]).contains(t@));
                }
                if exists|jj: int| 0 <= jj < j + 1 && ps[jj].path == f && #[trigger] page_targets(ps[jj]).contains(t@) {
                    let jj = choose|jj: int| 0 <= jj < j + 1 && ps[jj].path == f && #[trigger] page_targets(ps[jj]).contains(t@);
                    if jj == j {
                        assert(hit);
                    }
                }
            }
        }
        j = j + 1;
    }
    r
}

/// A link target that no page matches, with the pages that link to it.
#[derive(Debug)]
pub struct DanglingLink {
    pub target: String,
    pub in_files: Vec<String>,
}

/// A dangling link target that a page matches up to case, spacing or an
/// alias, with the stem of that page and the pages that link to it.
#[derive(Debug)]
pub struct RepairableLink {
    pub target: String,
    pub canonical: String,
    pub in_files: Vec<String>,
}

/// A malformed link, where it is, and its repaired form.
#[derive(Debug)]
pub struct MalformedLink {
    pub file: String,
    pub raw: String,
    pub fix: String,
}

/// How many pages and links the vault has.
#[derive(Debug)]
pub struct LinkStats {
    pub pages: usize,
    pub links: usize,
}

/// The vault's link graph report.
#[derive(Debug)]
pub struct LinksReport {
    pub orphans: Vec<String>,
    pub dangling: Vec<DanglingLink>,
    pub repairable_dangling: Vec<RepairableLink>,
    pub malformed: Vec<MalformedLink>,
    pub stats: LinkStats,
}

pub fn strings_of_chars(v: &Vec<Vec<char>>) -> (r: Vec<String>)
    ensures
        string_views(r@) == views(v@),
{
    let mut r: Vec<String> = Vec::new();
    let mut i: usize = 0;
    while i < v.len()
        invariant
            i <= v.len(),
            string_views(r@) == views(v@).take(i as int),
        decreases v.len() - i,
    {
        let ghost old_r = r@;
        r.push(from_chars(&v[i]));
        proof {
            assert(string_views(r@) =~= string_views(old_r).push(v@[i as int]@));
            assert(views(v@).take(i + 1) =~= views(v@).take(i as int).push(v@[i as int]@));
        }
        i = i + 1;
    }
    proof { assert(views(v@).take(v.len() as int) =~= views(v@)); }
    r
}

pub open spec fn dangling_targets(d: Seq<DanglingLink>) -> Seq<Seq<char>> {
    Seq::new(d.len(), |k: int| d[k].target@)
}

pub open spec fn repairable_targets(d: Seq<RepairableLink>) -> Seq<Seq<char>> {
    Seq::new(d.len(), |k: int| d[k].target@)
}

fn dangling_entries(xs: &Vec<PageInfo>, targets: &Vec<Vec<char>>, Ghost(ps): Ghost<Seq<PageView>>) -> (r: Vec<DanglingLink>)
    requires
        infos_ok(xs@, ps),
    ensures
        dangling_targets(r@) == views(targets@),
        forall|k: int| 0 <= k < r@.len() ==> referencing_files(ps, #[trigger] r@[k].target@, string_views(r@[k].in_files@)),
{
    let mut r: Vec<DanglingLink> = Vec::new();
    let mut i: usize = 0;
    while i < targets.len()
        invariant
            i <= targets.len(),
            infos_ok(xs@, ps),
            dangling_targets(r@) == views(targets@).take(i as int),
            forall|k: int| 0 <= k < r@.len() ==> referencing_files(ps, #[trigger] r@[k].target@, string_views(r@[k].in_files@)),
        decreases targets.len() - i,
    {
        let files = files_linking(xs, &targets[i], Ghost(ps));
        let ghost old_r = r@;
        r.push(DanglingLink { target: from_chars(&targets[i]), in_files: strings_of_chars(&files) });
        proof {
            assert(r@[old_r.len() as int].target@ == targets@[i as int]@);
            assert(dangling_targets(r@) =~= dangling_targets(old_r).push(targets@[i as int]@));
            assert(views(targets@).take(i + 1) =~= views(targets@).take(i as int).push(targets@[i as int]@));
            assert forall|k: int| 0 <= k < r@.len() implies referencing_files(ps, #[trigger] r@[k].target@, string_views(r@[k].in_files@)) by {
                if k < old_r.len() {
                    assert(r@[k] == old_r[k]);
                }
            }
        }
        i = i + 1;
    }
    proof { assert(views(targets@).take(targets.len() as int) =~= views(targets@)); }
    r
}

fn canonical_exec(xs: &Vec<PageInfo>, t: &[char], Ghost(ps): Ghost<Seq<PageView>>) -> (r: Vec<char>)
    requires
        infos_ok(xs@, ps),
    ensures
        r@ == canonical(ps, t@),
{
    proof { lemma_resolve_bounds(ps, t@); }
    match resolve_exec(xs, t, Ghost(ps)) {
        Res::Repair(i) => {
            proof { assert(info_ok(xs@[i as int], ps[i as int])); }
            match &xs[i].stem {
                Some(st) => vstd::slice::slice_to_vec(st.as_slice()),
                None => vstd::slice::slice_to_vec(t),
            }
        },
        _ => vstd::slice::slice_to_vec(t),
    }
}

fn repairable_entries(xs: &Vec<PageInfo>, targets: &Vec<Vec<char>>, Ghost(ps): Ghost<Seq<PageView>>) -> (r: Vec<RepairableLink>)
    requires
        infos_ok(xs@, ps),
    ensures
        repairable_targets(r@) == views(targets@),
        forall|k: int| 0 <= k < r@.len() ==> referencing_files(ps, #[trigger] r@[k].target@, string_views(r@[k].in_files@)),
        forall|k: int| 0 <= k < r@.len() ==> (#[trigger] r@[k]).canonical@ == canonical(ps, r@[k].target@),
{
    let mut r: Vec<RepairableLink> = Vec::new();
    let mut i: usize = 0;
    while i < targets.len()
        invariant
            i <= targets.len(),
            infos_ok(xs@, ps),
            repairable_targets(r@) == views(targets@).take(i as int),
            forall|k: int| 0 <= k < r@.len() ==> referencing_files(ps, #[trigger] r@[k].target@, string_views(r@[k].in_files@)),
            forall|k: int| 0 <= k < r@.len() ==> (#[trigger] r@[k]).canonical@ == canonical(ps, r@[k].target@),
        decreases targets.len() - i,
    {
        let files = files_linking(xs, &targets[i], Ghost(ps));
        let canon = canonical_exec(xs, &targets[i], Ghost(ps));
        let ghost old_r = r@;
        r.push(RepairableLink { target: from_chars(&targets[i]), canonical: from_chars(&canon), in_files: strings_of_chars(&files) });
        proof {
            assert(r@[old_r.len() as int].target@ == targets@[i as int]@);
            assert(repairable_targets(r@) =~= repairable_targets(old_r).push(targets@[i as int]@));
            assert(views(targets@).take(i + 1) =~= views(targets@).take(i as int).push(targets@[i as int]@));
            assert forall|k: int| 0 <= k < r@.len() implies referencing_files(ps, #[trigger] r@[k].target@, string_views(r@[k].in_files@)) by {
                if k < old_r.len() {
                    assert(r@[k] == old_r[k]);
                }
            }
            assert forall|k: int| 0 <= k < r@.len() implies (#[trigger] r@[k]).canonical@ == canonical(ps, r@[k].target@) by {
                if k < old_r.len() {
                    assert(r@[k] == old_r[k]);
                }
            }
        }
        i = i + 1;
    }
    proof { assert(views(targets@).take(targets.len() as int) =~= views(targets@)); }
    r
}


/// Whether a file name is one of the managed files.
pub fn is_managed_name(n: &[char]) -> (b: bool)
    ensures
        b == managed_name(n@),
{
    let a = to_chars("index.md");
    let l = to_chars("log.md");
    eq_chars(n, &a) || eq_chars(n, &l)
}

fn orphan_candidate(page: &LinkPage, x: &PageInfo) -> (b: bool)
    requires
        info_ok(*x, page@),
    ensures
        b == ({
            let p = page@;
            &&& !(file_name(p.path) is Some && managed_name(file_name(p.path)->0))
            &&& (crate::text::starts_with(p.path, "wiki/"@) || crate::text::starts_with(p.path, "wiki\\"@))
            &&& p.content is Some
            &&& summa_owned(p.content->0)
        }),
{
    let managed = match file_name_exec(&x.path) {
        Some(n) => is_managed_name(&n),
        None => false,
    };
    if managed {
        return false;
    }
    let w1 = to_chars("wiki/");
    let w2 = to_chars("wiki\\");
    if !(crate::text::starts_with_exec(&x.path, &w1) || crate::text::starts_with_exec(&x.path, &w2)) {
        return false;
    }
    match &page.content {
        Some(c) => is_summa_owned(c.as_str()),
        None => false,
    }
}

fn orphans_of(pages: &[LinkPage], xs: &Vec<PageInfo>, linked: &Vec<bool>) -> (r: Vec<Vec<char>>)
    requires
        infos_ok(xs@, page_views(pages@)),
        linked@.len() == pages@.len(),
        forall|i: int| 0 <= i < pages@.len() ==> (#[trigger] linked@[i] <==> has_inbound(page_views(pages@), i)),
    ensures
        strictly_sorted(views(r@)),
        forall|f: Seq<char>| #[trigger] views(r@).contains(f) <==> exists|i: int|
            0 <= i < pages@.len() && pages@[i]@.path == f && #[trigger] is_orphan(page_views(pages@), i),
{
    let ghost ps = page_views(pages@);
    let mut r: Vec<Vec<char>> = Vec::new();
    let mut i: usize = 0;
    while i < pages.len()
        invariant
            i <= pages.len(),
            ps == page_views(pages@),
            infos_ok(xs@, ps),
            linked@.len() == pages@.len(),
            forall|i: int| 0 <= i < pages@.len() ==> (#[trigger] linked@[i] <==> has_inbound(ps, i)),
            strictly_sorted(views(r@)),
            forall|f: Seq<char>| #[trigger] views(r@).contains(f) <==> exists|ii: int|
                0 <= ii < i && pages@[ii]@.path == f && #[trigger] is_orphan(ps, ii),
        decreases pages.len() - i,
    {
        proof {
            assert(info_ok(xs@[i as int], ps[i as int]));
            assert(ps[i as int] == pages@[i as int]@);
        }
        let cand = orphan_candidate(&pages[i], &xs[i]);
        let orphan = !linked[i] && cand;
        let ghost old_r = views(r@);
        if orphan {
            insert_sorted(&mut r, vstd::slice::slice_to_vec(xs[i].path.as_slice()));
        }
        proof {
            assert(orphan == is_orphan(ps, i as int));
            assert forall|f: Seq<char>| #[trigger] views(r@).contains(f) <==> exists|ii: int|
                0 <= ii < i + 1 && pages@[ii]@.path == f && #[trigger] is_orphan(ps, ii) by {
                if views(r@).contains(f) && !old_r.contains(f) {
                    assert(pages@[i as int]@.path == f && is_orphan(ps, i as int));
                }
                if exists|ii: int| 0 <= ii < i + 1 && pages@[ii]@.path == f && #[trigger] is_orphan(ps, ii) {
                    let ii = choose|ii: int| 0 <= ii < i + 1 && pages@[ii]@.path == f && #[trigger] is_orphan(ps, ii);
                    if ii == i {
                        assert(orphan);
                    }
                }
            }
        }
        i = i + 1;
    }
    r
}

pub open spec fn malformed_views(m: Seq<MalformedLink>) -> Seq<(Seq<char>, Seq<char>, Seq<char>)> {
    Seq::new(m.len(), |k: int| (m[k].file@, m[k].raw@, m[k].fix@))
}

fn malformed_and_count(pages: &[LinkPage]) -> (r: (Vec<MalformedLink>, usize))
    ensures
        malformed_views(r.0@) == all_malformed(page_views(pages@)),
        r.1 == (if link_count(page_views(pages@)) <= usize::MAX { link_count(page_views(pages@)) } else { usize::MAX as nat }),
{
    let ghost ps = page_views(pages@);
    let mut m: Vec<MalformedLink> = Vec::new();
    let mut total: usize = 0;
    let mut i: usize = 0;
    proof {
        assert(ps.take(0) =~= Seq::<PageView>::empty());
    }
    while i < pages.len()
        invariant
            i <= pages.len(),
            ps == page_views(pages@),
            malformed_views(m@) == all_malformed(ps.take(i as int)),
            total == (if link_count(ps.take(i as int)) <= usize::MAX { link_count(ps.take(i as int)) } else { usize::MAX as nat }),
        decreases pages.len() - i,
    {
        proof {
            assert(ps.take(i + 1).drop_last() =~= ps.take(i as int));
            assert(ps.take(i + 1).last() == pages@[i as int]@);
        }
        let page = &pages[i];
        match &page.content {
            Some(c) => {
                let (targets, mal) = parse_wikilinks(c.as_str());
                let ghost pm = page_malformed(page@);
                let n = targets.len();
                let n2 = mal.len();
                proof {
                    assert(string_views(targets@).len() == n);
                    assert(pair_views(mal@).len() == n2);
                }
                total = if n <= usize::MAX - total && n2 <= usize::MAX - total - n {
                    total + n + n2
                } else {
                    usize::MAX
                };
                let mut k: usize = 0;
                let ghost m0 = malformed_views(m@);
                while k < mal.len()
                    invariant
                        k <= mal.len(),
                        pair_views(mal@) == pm,
                        malformed_views(m@) == m0 + Seq::new(k as nat, |q: int| (page@.path, pm[q].0, pm[q].1)),
                    decreases mal.len() - k,
                {
                    let ghost old_m = m@;
                    m.push(MalformedLink { file: page.path.clone(), raw: mal[k].0.clone(), fix: mal[k].1.clone() });
                    proof {
                        assert(pair_views(mal@)[k as int] == (mal@[k as int].0@, mal@[k as int].1@));
                        let e = m@[old_m.len() as int];
                        assert(e.file@ == page@.path);
                        assert(e.raw@ == pm[k as int].0);
                        assert(e.fix@ == pm[k as int].1);
                        assert(malformed_views(old_m).len() == old_m.len());
                        assert(malformed_views(m@) =~= malformed_views(old_m).push((page@.path, pm[k as int].0, pm[k as int].1)));
                        assert(malformed_views(m@) =~= m0 + Seq::new((k + 1) as nat, |q: int| (page@.path, pm[q].0, pm[q].1)));
                    }
                    k = k + 1;
                }
            },
            None => {
                proof {
                    assert(all_malformed(ps.take(i + 1)) =~= all_malformed(ps.take(i as int)));
                }
            },
        }
        i = i + 1;
    }
    proof { assert(ps.take(pages.len() as int) =~= ps); }
    (m, total)
}

/// The vault's link report, from its markdown pages in walk order.
///
/// - `orphans`: sorted paths of the orphan pages (see `is_orphan`).
/// - `dangling`: the targets that resolve to no page, sorted, each with the
///   sorted paths of the pages that link to it.
/// - `repairable_dangling`: the targets that match a page only up to case,
///   spacing or an alias, sorted, each with that page's stem and the sorted
///   paths of the pages that link to it.
/// - `malformed`: every malformed link, page by page, in text order.
/// - `stats`: the number of pages and of links.
pub fn run(pages: &[LinkPage]) -> (r: LinksReport)
    requires
        distinct_paths(page_views(pages@)),
    ensures
        strictly_sorted(string_views(r.orphans@)),
        forall|f: Seq<char>| #[trigger] string_views(r.orphans@).contains(f) <==> exists|i: int|
            0 <= i < pages@.len() && pages@[i]@.path == f && #[trigger] is_orphan(page_views(pages@), i),
        strictly_sorted(dangling_targets(r.dangling@)),
        forall|t: Seq<char>| #[trigger] dangling_targets(r.dangling@).contains(t) <==> (linked_target(page_views(pages@), t) && resolve(page_views(pages@), t) is Dangling),
        forall|k: int| 0 <= k < r.dangling@.len() ==> referencing_files(page_views(pages@), #[trigger] r.dangling@[k].target@, string_views(r.dangling@[k].in_files@)),
        strictly_sorted(repairable_targets(r.repairable_dangling@)),
        forall|t: Seq<char>| #[trigger] repairable_targets(r.repairable_dangling@).contains(t) <==> (linked_target(page_views(pages@), t) && resolve(page_views(pages@), t) is Repair),
        forall|k: int| 0 <= k < r.repairable_dangling@.len() ==> referencing_files(page_views(pages@), #[trigger] r.repairable_dangling@[k].target@, string_views(r.repairable_dangling@[k].in_files@)),
        forall|k: int| 0 <= k < r.repairable_dangling@.len() ==> (#[trigger] r.repairable_dangling@[k]).canonical@ == canonical(page_views(pages@), r.repairable_dangling@[k].target@),
        malformed_views(r.malformed@) == all_malformed(page_views(pages@)),
        r.stats.pages == pages@.len(),
        r.stats.links == (if link_count(page_views(pages@)) <= usize::MAX { link_count(page_views(pages@)) } else { usize::MAX as nat }),
{
    let ghost ps = page_views(pages@);
    let xs = page_infos(pages);
    let pass = first_pass(&xs, Ghost(ps));
    proof {
        assert forall|i: int| 0 <= i < pages@.len() implies (#[trigger] pass.linked@[i] <==> has_inbound(ps, i)) by {
            if pass.linked@[i] {
                let t = choose|t: Seq<char>| #[trigger] flat_targets(ps).contains(t) && targets_page(ps, t, i);
                lemma_flat_targets(ps, t);
                assert(linked_target(ps, t));
            }
            if has_inbound(ps, i) {
                let t = choose|t: Seq<char>| #[trigger] linked_target(ps, t) && (resolve(ps, t) == Resolution::Exact(i) || resolve(ps, t) == Resolution::Repair(i));
                lemma_flat_targets(ps, t);
                assert(flat_targets(ps).contains(t) && targets_page(ps, t, i));
            }
        }
        assert forall|t: Seq<char>| #[trigger] flat_targets(ps).contains(t) <==> linked_target(ps, t) by {
            lemma_flat_targets(ps, t);
        }
    }
    let orphans = orphans_of(pages, &xs, &pass.linked);
    let dangling = dangling_entries(&xs, &pass.dangling, Ghost(ps));
    let repairable = repairable_entries(&xs, &pass.repairable, Ghost(ps));
    let (malformed, links) = malformed_and_count(pages);
    let orphan_strings = strings_of_chars(&orphans);
    LinksReport {
        orphans: orphan_strings,
        dangling,
        repairable_dangling: repairable,
        malformed,
        stats: LinkStats { pages: pages.len(), links },
    }
}

// ---------------------------------------------------------------------------
// What a repair keeps
// ---------------------------------------------------------------------------

/// In `t + \| + a` with no `\|` in `t`, the first `\|` is the one after `t`.
proof fn lemma_first_escape(t: Seq<char>, a: Seq<char>)
    requires
        !contains(t, escaped_pipe()),
    ensures
        crate::text::find(t + escaped_pipe() + a, escaped_pipe()) == Some(t.len() as int),
        before_pat(t + escaped_pipe() + a, escaped_pipe()) == t,
        after_pat(t + escaped_pipe() + a, escaped_pipe()) == Some(a),
        contains(t + escaped_pipe() + a, escaped_pipe()),
{
    let e = escaped_pipe();
    let s = t + e + a;
    let n = t.len() as int;
    assert(s.subrange(n, n + 2) =~= e);
    assert forall|j: int| 0 <= j < n implies !crate::text::matches_at(s, e, j) by {
        if crate::text::matches_at(s, e, j) {
            if j + 2 <= n {
                assert(t.subrange(j, j + 2) =~= s.subrange(j, j + 2));
                crate::text::lemma_contains_at(t, e, j);
            } else {
                assert(s.subrange(j, j + 2)[1] == s[n]);
                assert(s[n] == '\\');
            }
        }
    }
    crate::text::lemma_find_from_is(s, e, 0, n);
    assert(s.take(n) =~= t);
    assert(s.skip(n + 2) =~= a);
}

/// A clipper-escaped link keeps its alias: the repair of `t\|a`, where `t`
/// holds no other `\|`, is `[[t|a]]` with both parts trimmed when the alias
/// is a word (not empty, not all digits), and `[[t]]` otherwise.
pub proof fn lemma_escaped_link_repair(t: Seq<char>, a: Seq<char>)
    requires
        !contains(t, escaped_pipe()),
    ensures
        trim(a).len() > 0 && !all_ascii_digits(trim(a)) ==> link_fix(t + escaped_pipe() + a)
            == Some(seq!['[', '['] + trim(t) + seq!['|'] + trim(a) + seq![']', ']']),
        trim(a).len() == 0 || all_ascii_digits(trim(a)) ==> link_fix(t + escaped_pipe() + a)
            == Some(seq!['[', '['] + trim(t) + seq![']', ']']),
{
    lemma_first_escape(t, a);
}

/// A link `t|a` whose target holds no `|` and no `\\|` can appear in: the
/// repair drops an alias that is a number (`[[t]]`, trimmed) and leaves any
/// other alias alone (the link is not malformed).
pub proof fn lemma_numeric_alias_repair(t: Seq<char>, a: Seq<char>)
    requires
        forall|i: int| 0 <= i < t.len() ==> t[i] != '|',
        t.len() == 0 || t.last() != '\\',
        !contains(a, escaped_pipe()),
    ensures
        digit_alias(a) ==> link_fix(t + seq!['|'] + a) == Some(seq!['[', '['] + trim(t) + seq![']', ']']),
        !digit_alias(a) ==> link_fix(t + seq!['|'] + a) is None,
{
    let e = escaped_pipe();
    let s = t + seq!['|'] + a;
    let n = t.len() as int;
    assert forall|j: int| !crate::text::matches_at(s, e, j) by {
        if crate::text::matches_at(s, e, j) {
            assert(s.subrange(j, j + 2)[0] == s[j]);
            assert(s.subrange(j, j + 2)[1] == s[j + 1]);
            if j + 1 < n {
                assert(s[j + 1] == t[j + 1]);
            } else if j + 1 == n {
                assert(s[j] == t.last());
            } else if j == n {
                assert(s[n] == '|');
            } else {
                assert(s.subrange(j, j + 2) =~= a.subrange(j - n - 1, j - n + 1));
                crate::text::lemma_contains_at(a, e, j - n - 1);
            }
        }
    }
    crate::text::lemma_find_from(s, e, 0);
    assert(!contains(s, e));
    assert(s[n] == '|');
    assert forall|j: int| 0 <= j < n implies s[j] != '|' by {
        assert(s[j] == t[j]);
    }
    lemma_find_char_from(s, '|', 0);
    assert(crate::text::find_char(s, '|') == Some(n));
    assert(s.take(n) =~= t);
    assert(s.skip(n + 1) =~= a);
}

} // verus!
