//! The lexical side of ranking wiki pages against a query: which queries
//! are answered at all, the terms a query is made of, how often the terms
//! occur in a page's title, aliases and body, which pages are scanned, and
//! the one-line summary shown for a page. The weighted score itself is a
//! floating-point sum and is left to the caller.

use vstd::prelude::*;
use crate::ingest::dashed;
use crate::links::string_views;
use crate::page::{nonempty_pieces, nonempty_pieces_exec};
use crate::text::{
    count_matches, count_matches_exec, from_chars, is_alphanumeric, lines, lines_exec, lowercase,
    lowercase_chars, split_char, split_char_exec, sub_chars, to_chars, trim, trim_exec,
    trim_start_char, trim_start_char_exec, views,
};
use crate::vault::{file_stem, file_stem_exec};

verus! {

/// Queries shorter than this many characters, once trimmed, match nothing.
pub const MIN_QUERY_CHARS: usize = 3;

/// Files larger than this many bytes are not scanned.
pub const MAX_FILE_BYTES: u64 = 10485760;

/// How a ranking run behaves: how many pages it returns and whether each
/// carries the parts of its score.
#[derive(Debug)]
pub struct RelevantOpts {
    pub limit: usize,
    pub explain: bool,
}

impl Default for RelevantOpts {
    /// Five pages, without the parts of their scores.
    fn default() -> (r: Self)
        ensures
            r.limit == 5,
            !r.explain,
    {
        RelevantOpts { limit: 5, explain: false }
    }
}

// ---------------------------------------------------------------------------
// Terms
// ---------------------------------------------------------------------------

/// The terms of a query: the maximal runs of alphanumeric characters of its
/// lowercase form (the non-empty pieces between non-alphanumeric
/// characters).
pub open spec fn tokens(q: Seq<char>) -> Seq<Seq<char>> {
    nonempty_pieces(split_char(dashed(lowercase(q)), '-'))
}

/// The terms of `query`.
pub fn tokenize(query: &str) -> (r: Vec<String>)
    ensures
        string_views(r@) == tokens(query@),
{
    let l = lowercase_chars(&to_chars(query));
    let mut d: Vec<char> = Vec::new();
    let mut i: usize = 0;
    while i < l.len()
        invariant
            i <= l.len(),
            d@ == dashed(l@.take(i as int)),
        decreases l.len() - i,
    {
        let c = l[i];
        d.push(if is_alphanumeric(c) { c } else { '-' });
        proof { assert(d@ =~= dashed(l@.take(i + 1))); }
        i = i + 1;
    }
    proof { assert(l@.take(l.len() as int) =~= l@); }
    let pieces = nonempty_pieces_exec(&split_char_exec(&d, '-'));
    let mut r: Vec<String> = Vec::new();
    let mut k: usize = 0;
    while k < pieces.len()
        invariant
            k <= pieces.len(),
            string_views(r@) == views(pieces@).take(k as int),
        decreases pieces.len() - k,
    {
        let ghost o = r@;
        r.push(from_chars(&pieces[k]));
        proof {
            assert(string_views(r@) =~= string_views(o).push(pieces@[k as int]@));
            assert(views(pieces@).take(k + 1) =~= views(pieces@).take(k as int).push(pieces@[k as int]@));
        }
        k = k + 1;
    }
    proof { assert(views(pieces@).take(pieces.len() as int) =~= views(pieces@)); }
    r
}

/// The terms a query is searched for: none when the trimmed query has fewer
/// than three characters, else the terms of the trimmed query.
pub open spec fn query_term_seq(query: Seq<char>) -> Seq<Seq<char>> {
    if trim(query).len() < MIN_QUERY_CHARS {
        seq![]
    } else {
        tokens(trim(query))
    }
}

/// The terms `query` is searched for; an empty result means the query
/// matches no page.
pub fn query_terms(query: &str) -> (r: Vec<String>)
    ensures
        string_views(r@) == query_term_seq(query@),
{
    let t = trim_exec(&to_chars(query));
    if t.len() < MIN_QUERY_CHARS {
        return Vec::new();
    }
    tokenize(from_chars(&t).as_str())
}

// ---------------------------------------------------------------------------
// Counting
// ---------------------------------------------------------------------------

/// How often `term` occurs in `haystack`, non-overlapping, left to right; an
/// empty term occurs nowhere.
pub open spec fn term_hits(haystack: Seq<char>, term: Seq<char>) -> nat {
    if term.len() == 0 {
        0
    } else {
        count_matches(haystack, term)
    }
}

/// The occurrences of `term` in `haystack`.
pub fn term_count(haystack: &str, term: &str) -> (n: usize)
    ensures
        n == term_hits(haystack@, term@),
{
    let t = to_chars(term);
    if t.len() == 0 {
        return 0;
    }
    count_matches_exec(&to_chars(haystack), &t)
}

/// The occurrences of every term in `haystack`, added up.
pub open spec fn hits_in(haystack: Seq<char>, terms: Seq<Seq<char>>) -> nat
    decreases terms.len(),
{
    if terms.len() == 0 {
        0
    } else {
        hits_in(haystack, terms.drop_last()) + term_hits(haystack, terms.last())
    }
}

/// The occurrences of every term in every text, added up.
pub open spec fn hits_in_all(texts: Seq<Seq<char>>, terms: Seq<Seq<char>>) -> nat
    decreases texts.len(),
{
    if texts.len() == 0 {
        0
    } else {
        hits_in_all(texts.drop_last(), terms) + hits_in(texts.last(), terms)
    }
}

proof fn lemma_hits_in_prefix(h: Seq<char>, terms: Seq<Seq<char>>, i: int)
    requires
        0 <= i <= terms.len(),
    ensures
        hits_in(h, terms.take(i)) <= hits_in(h, terms),
    decreases terms.len() - i,
{
    if i < terms.len() {
        lemma_hits_in_prefix(h, terms, i + 1);
        assert(terms.take(i + 1).drop_last() =~= terms.take(i));
    } else {
        assert(terms.take(i) =~= terms);
    }
}

proof fn lemma_hits_in_all_prefix(texts: Seq<Seq<char>>, terms: Seq<Seq<char>>, i: int)
    requires
        0 <= i <= texts.len(),
    ensures
        hits_in_all(texts.take(i), terms) <= hits_in_all(texts, terms),
    decreases texts.len() - i,
{
    if i < texts.len() {
        lemma_hits_in_all_prefix(texts, terms, i + 1);
        assert(texts.take(i + 1).drop_last() =~= texts.take(i));
    } else {
        assert(texts.take(i) =~= texts);
    }
}

/// The occurrences of all `terms` in `haystack` (already lowercased), or
/// none when that number does not fit in `usize`.
fn hits_exec(haystack: &str, terms: &Vec<String>) -> (r: Option<usize>)
    ensures
        match r {
            Some(n) => n == hits_in(haystack@, string_views(terms@)),
            None => hits_in(haystack@, string_views(terms@)) > usize::MAX,
        },
{
    let mut n: usize = 0;
    let mut i: usize = 0;
    while i < terms.len()
        invariant
            i <= terms.len(),
            n == hits_in(haystack@, string_views(terms@).take(i as int)),
        decreases terms.len() - i,
    {
        proof {
            assert(string_views(terms@).take(i + 1).drop_last() =~= string_views(terms@).take(i as int));
            lemma_hits_in_prefix(haystack@, string_views(terms@), i + 1);
        }
        let c = term_count(haystack, terms[i].as_str());
        match n.checked_add(c) {
            Some(m) => n = m,
            None => return None,
        }
        i = i + 1;
    }
    proof { assert(string_views(terms@).take(terms.len() as int) =~= string_views(terms@)); }
    Some(n)
}

/// How often a page's terms were found: in its lowercased title, in its
/// lowercased aliases, and in its lowercased body.
#[derive(Debug)]
pub struct PageHits {
    pub title: usize,
    pub alias: usize,
    pub body: usize,
}

/// The lowercase forms of some texts.
pub open spec fn lowercased(v: Seq<Seq<char>>) -> Seq<Seq<char>> {
    v.map_values(|s: Seq<char>| lowercase(s))
}

/// The hits of `terms` in a page with this title, these aliases and this
/// body. Each count is the sum over the terms (and, for aliases, over the
/// aliases) of the term's occurrences in the lowercase text. None when a
/// count does not fit in `usize`.
pub fn page_hits(title: &str, aliases: &Vec<String>, body: &str, terms: &Vec<String>) -> (r: Option<PageHits>)
    ensures
        r is Some <==> (hits_in(lowercase(title@), string_views(terms@)) <= usize::MAX
            && hits_in_all(lowercased(string_views(aliases@)), string_views(terms@)) <= usize::MAX
            && hits_in(lowercase(body@), string_views(terms@)) <= usize::MAX),
        r matches Some(h) ==> h.title == hits_in(lowercase(title@), string_views(terms@))
            && h.alias == hits_in_all(lowercased(string_views(aliases@)), string_views(terms@))
            && h.body == hits_in(lowercase(body@), string_views(terms@)),
{
    let tl = crate::text::to_lowercase(title);
    let t = hits_exec(tl.as_str(), terms);
    let ghost all = lowercased(string_views(aliases@));
    let mut a: usize = 0;
    let mut ok = true;
    let mut i: usize = 0;
    while i < aliases.len()
        invariant
            i <= aliases.len(),
            all == lowercased(string_views(aliases@)),
            ok ==> a == hits_in_all(all.take(i as int), string_views(terms@)),
            !ok ==> hits_in_all(all, string_views(terms@)) > usize::MAX,
        decreases aliases.len() - i,
    {
        proof {
            assert(all.take(i + 1).drop_last() =~= all.take(i as int));
            assert(all.take(i + 1).last() == lowercase(aliases@[i as int]@));
            lemma_hits_in_all_prefix(all, string_views(terms@), i + 1);
        }
        let al = crate::text::to_lowercase(aliases[i].as_str());
        if ok {
            match hits_exec(al.as_str(), terms) {
                Some(h) => match a.checked_add(h) {
                    Some(m) => a = m,
                    None => ok = false,
                },
                None => ok = false,
            }
        }
        i = i + 1;
    }
    proof { assert(all.take(aliases.len() as int) =~= all); }
    let bl = crate::text::to_lowercase(body);
    let b = hits_exec(bl.as_str(), terms);
    match (t, b) {
        (Some(t), Some(b)) => if ok {
            Some(PageHits { title: t, alias: a, body: b })
        } else {
            None
        },
        _ => None,
    }
}

/// A page is ranked only when some term was found in it somewhere.
pub fn is_match(h: &PageHits) -> (b: bool)
    ensures
        b == (h.title > 0 || h.alias > 0 || h.body > 0),
{
    h.title > 0 || h.alias > 0 || h.body > 0
}

/// Whether a file of `len` bytes is small enough to scan.
pub fn scannable(len: u64) -> (b: bool)
    ensures
        b == (len <= MAX_FILE_BYTES),
{
    len <= MAX_FILE_BYTES
}

// ---------------------------------------------------------------------------
// What is shown for a page
// ---------------------------------------------------------------------------

/// The title shown for a page: its frontmatter title, else the stem of its
/// path, else `Unknown`.
pub open spec fn shown_title(fm_title: Option<Seq<char>>, path: Seq<char>) -> Seq<char> {
    match fm_title {
        Some(t) => t,
        None => match file_stem(path) {
            Some(s) => s,
            None => "Unknown"@,
        },
    }
}

/// The title shown for the page at `path`.
pub fn page_title(fm_title: Option<&str>, path: &str) -> (r: String)
    ensures
        r@ == shown_title(match fm_title { Some(t) => Some(t@), None => None }, path@),
{
    match fm_title {
        Some(t) => from_chars(&to_chars(t)),
        None => match file_stem_exec(&to_chars(path)) {
            Some(s) => from_chars(&s),
            None => from_chars(&to_chars("Unknown")),
        },
    }
}

/// The first line that is not blank, trimmed.
pub open spec fn first_nonblank(ls: Seq<Seq<char>>) -> Option<Seq<char>>
    decreases ls.len(),
{
    if ls.len() == 0 {
        None
    } else if trim(ls[0]).len() > 0 {
        Some(trim(ls[0]))
    } else {
        first_nonblank(ls.skip(1))
    }
}

/// The summary shown for a page: its body's first non-blank line, trimmed,
/// without leading `#`s and trimmed again, cut to 200 characters; empty
/// when the body is blank.
pub open spec fn summary_line(body: Seq<char>) -> Seq<char> {
    match first_nonblank(lines(body)) {
        None => seq![],
        Some(t) => {
            let u = trim(trim_start_char(t, '#'));
            if u.len() > 200 {
                u.take(200)
            } else {
                u
            }
        },
    }
}

/// The summary shown for a page with this body.
pub fn first_summary_line(body: &str) -> (r: String)
    ensures
        r@ == summary_line(body@),
{
    let ls = lines_exec(&to_chars(body));
    let mut i: usize = 0;
    proof { assert(views(ls@).skip(0) =~= views(ls@)); }
    while i < ls.len()
        invariant
            i <= ls.len(),
            first_nonblank(lines(body@)) == first_nonblank(views(ls@).skip(i as int)),
            views(ls@) == lines(body@),
        decreases ls.len() - i,
    {
        let t = trim_exec(&ls[i]);
        proof {
            assert(views(ls@).skip(i as int)[0] == ls@[i as int]@);
            assert(views(ls@).skip(i as int).skip(1) =~= views(ls@).skip(i + 1));
        }
        if t.len() > 0 {
            let u = trim_exec(&trim_start_char_exec(&t, '#'));
            if u.len() > 200 {
                return from_chars(&sub_chars(&u, 0, 200));
            }
            return from_chars(&u);
        }
        i = i + 1;
    }
    proof { assert(views(ls@).skip(ls.len() as int) =~= Seq::<Seq<char>>::empty()); }
    String::new()
}

} // verus!
