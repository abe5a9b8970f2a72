//! What the page writers promise, stated over their inputs and results:
//! a slug keeps every letter and digit of the title, an answer page lists
//! every cite, and a decision call that files no new entry files its
//! mention on the page as it stands.

use vstd::prelude::*;
use crate::index_coverage::{lemma_contains_self, lemma_join_contains};
use crate::page::{
    answer_text, decision_step, decision_write, entity_write, folded_entry, log_has_entry,
    nonempty_pieces, quoted_list, slug_of, summary_text,
};
use crate::text::{
    char_is_alphanumeric, contains, find_char_from, join, lemma_contains_within,
    lemma_find_char_from, lowercase, split_char, split_char_from,
};

verus! {

// ---------------------------------------------------------------------------
// Slugs
// ---------------------------------------------------------------------------

/// `s` without its `-` characters.
pub open spec fn undashed(s: Seq<char>) -> Seq<char>
    decreases s.len(),
{
    if s.len() == 0 {
        seq![]
    } else {
        let r = undashed(s.drop_last());
        if s.last() == '-' {
            r
        } else {
            r.push(s.last())
        }
    }
}

/// The alphanumeric characters of `s` other than `-`, in order.
pub open spec fn word_chars(s: Seq<char>) -> Seq<char>
    decreases s.len(),
{
    if s.len() == 0 {
        seq![]
    } else {
        let r = word_chars(s.drop_last());
        if char_is_alphanumeric(s.last()) && s.last() != '-' {
            r.push(s.last())
        } else {
            r
        }
    }
}

proof fn lemma_undashed_concat(a: Seq<char>, b: Seq<char>)
    ensures
        undashed(a + b) == undashed(a) + undashed(b),
    decreases b.len(),
{
    if b.len() == 0 {
        assert(a + b =~= a);
        assert(undashed(a) + undashed(b) =~= undashed(a));
    } else {
        assert((a + b).drop_last() =~= a + b.drop_last());
        assert((a + b).last() == b.last());
        lemma_undashed_concat(a, b.drop_last());
        if b.last() == '-' {
        } else {
            assert(undashed(a) + undashed(b) =~= (undashed(a) + undashed(b.drop_last())).push(b.last()));
        }
    }
}

/// The pieces without their dashes, one after the other.
pub open spec fn flat(ps: Seq<Seq<char>>) -> Seq<char>
    decreases ps.len(),
{
    if ps.len() == 0 {
        seq![]
    } else {
        flat(ps.drop_last()) + undashed(ps.last())
    }
}

proof fn lemma_flat_concat(a: Seq<Seq<char>>, b: Seq<Seq<char>>)
    ensures
        flat(a + b) == flat(a) + flat(b),
    decreases b.len(),
{
    if b.len() == 0 {
        assert(a + b =~= a);
        assert(flat(a) + flat(b) =~= flat(a));
    } else {
        assert((a + b).drop_last() =~= a + b.drop_last());
        assert((a + b).last() == b.last());
        lemma_flat_concat(a, b.drop_last());
        assert(flat(a) + flat(b) =~= flat(a) + flat(b.drop_last()) + undashed(b.last()));
    }
}

/// A lone piece and a lone dash.
proof fn lemma_small(x: Seq<char>)
    ensures
        flat(seq![x]) == undashed(x),
        undashed(seq!['-']) == Seq::<char>::empty(),
{
    assert(flat(Seq::<Seq<char>>::empty()) =~= Seq::<char>::empty());
    assert(seq![x].drop_last() =~= Seq::<Seq<char>>::empty());
    assert(seq![x].last() == x);
    assert(flat(seq![x]) =~= undashed(x));
    assert(undashed(Seq::<char>::empty()) =~= Seq::<char>::empty());
    assert(seq!['-'].drop_last() =~= Seq::<char>::empty());
    assert(seq!['-'].last() == '-');
}

proof fn lemma_undashed_join(ps: Seq<Seq<char>>)
    ensures
        undashed(join(ps, seq!['-'])) == flat(ps),
    decreases ps.len(),
{
    let dash = seq!['-'];
    if ps.len() > 0 {
        lemma_small(ps[0]);
    }
    lemma_small(seq![]);
    if ps.len() == 1 {
        assert(ps =~= seq![ps[0]]);
    } else if ps.len() > 1 {
        lemma_undashed_join(ps.drop_last());
        lemma_undashed_concat(join(ps.drop_last(), dash), dash);
        lemma_undashed_concat(join(ps.drop_last(), dash) + dash, ps.last());
        assert(undashed(join(ps.drop_last(), dash)) + undashed(dash) =~= undashed(join(ps.drop_last(), dash)));
    }
}

proof fn lemma_flat_nonempty(ps: Seq<Seq<char>>)
    ensures
        flat(nonempty_pieces(ps)) == flat(ps),
    decreases ps.len(),
{
    if ps.len() > 0 {
        lemma_flat_nonempty(ps.drop_last());
        if ps.last().len() == 0 {
            assert(undashed(ps.last()) =~= Seq::<char>::empty());
            assert(flat(ps) =~= flat(ps.drop_last()));
        } else {
            let r = nonempty_pieces(ps.drop_last());
            assert(r.push(ps.last()).drop_last() =~= r);
        }
    }
}

proof fn lemma_flat_split(s: Seq<char>, pos: int)
    requires
        0 <= pos <= s.len(),
    ensures
        flat(split_char_from(s, '-', pos)) == undashed(s.skip(pos)),
    decreases s.len() + 1 - pos,
{
    lemma_find_char_from(s, '-', pos);
    match find_char_from(s, '-', pos) {
        None => {
            let x = s.subrange(pos, s.len() as int);
            assert(split_char_from(s, '-', pos) == seq![x]);
            lemma_small(x);
            assert(s.skip(pos) =~= x);
        },
        Some(i) => {
            let x = s.subrange(pos, i);
            lemma_flat_split(s, i + 1);
            let rest = split_char_from(s, '-', i + 1);
            assert(split_char_from(s, '-', pos) == seq![x] + rest);
            lemma_flat_concat(seq![x], rest);
            lemma_small(x);
            assert(s.skip(pos) =~= x + seq!['-'] + s.skip(i + 1));
            lemma_undashed_concat(x + seq!['-'], s.skip(i + 1));
            lemma_undashed_concat(x, seq!['-']);
            assert(undashed(x) + undashed(seq!['-']) =~= undashed(x));
        },
    }
}

proof fn lemma_undashed_marked(l: Seq<char>)
    ensures
        undashed(Seq::new(l.len(), |i: int| if char_is_alphanumeric(l[i]) { l[i] } else { '-' })) == word_chars(l),
    decreases l.len(),
{
    let d = Seq::new(l.len(), |i: int| if char_is_alphanumeric(l[i]) { l[i] } else { '-' });
    if l.len() > 0 {
        let l0 = l.drop_last();
        lemma_undashed_marked(l0);
        assert(d.drop_last() =~= Seq::new(l0.len(), |i: int| if char_is_alphanumeric(l0[i]) { l0[i] } else { '-' }));
        assert(d.last() == (if char_is_alphanumeric(l.last()) { l.last() } else { '-' }));
    }
}

/// A slug keeps every letter and digit of the title: leaving out its `-`
/// separators, a slug is exactly the alphanumeric characters of the
/// lowercased title, in order (a `-` of the title is a separator too).
pub proof fn lemma_slug_keeps_words(title: Seq<char>)
    ensures
        undashed(slug_of(title)) == word_chars(lowercase(title)),
{
    let l = lowercase(title);
    let d = Seq::new(l.len(), |i: int| if char_is_alphanumeric(l[i]) { l[i] } else { '-' });
    let ps = split_char(d, '-');
    lemma_undashed_join(nonempty_pieces(ps));
    lemma_flat_nonempty(ps);
    lemma_flat_split(d, 0);
    assert(d.skip(0) =~= d);
    lemma_undashed_marked(l);
}

// ---------------------------------------------------------------------------
// Lists in frontmatter
// ---------------------------------------------------------------------------

/// A quoted list holds each item in quotes.
proof fn lemma_quoted_list_holds(key: Seq<char>, items: Seq<Seq<char>>, k: int)
    requires
        0 <= k < items.len(),
    ensures
        contains(quoted_list(key, items), "\""@ + items[k] + "\""@),
{
    let q = Seq::new(items.len(), |i: int| "\""@ + items[i] + "\""@);
    lemma_join_contains(q, ", "@, k);
    lemma_contains_within(key + ": ["@, join(q, ", "@), "]\n"@, q[k]);
}

/// An answer page lists every cite: each cite appears, in quotes, in the
/// page's text.
pub proof fn lemma_answer_lists_cites(question: Seq<char>, body: Seq<char>, cites: Seq<Seq<char>>, now: Seq<char>, k: int)
    requires
        0 <= k < cites.len(),
    ensures
        contains(answer_text(question, body, cites, now), "\""@ + cites[k] + "\""@),
{
    lemma_quoted_list_holds("cites"@, cites, k);
    let pre = "---\nsumma: answer\nquestion: \""@ + crate::text::replace(question, seq!['"'], seq!['\\', '"']) + "\"\nasked: "@ + now + "\n"@;
    let post = "---\n\n"@ + crate::text::trim(body) + "\n"@;
    lemma_contains_within(pre, quoted_list("cites"@, cites), post, "\""@ + cites[k] + "\""@);
    assert(pre + quoted_list("cites"@, cites) + post =~= answer_text(question, body, cites, now));
}

/// An answer page's frontmatter has the cites line: `cites: [` and the
/// cites, each in quotes, in their order, separated by `, `, then `]` (or
/// `cites: []` when there are none).
pub proof fn lemma_answer_cites_line(question: Seq<char>, body: Seq<char>, cites: Seq<Seq<char>>, now: Seq<char>)
    ensures
        cites.len() > 0 ==> contains(answer_text(question, body, cites, now),
            "\ncites: ["@ + join(Seq::new(cites.len(), |i: int| "\""@ + cites[i] + "\""@), ", "@) + "]\n---\n"@),
        cites.len() == 0 ==> contains(answer_text(question, body, cites, now), "\ncites: []\n---\n"@),
{
    let pre = "---\nsumma: answer\nquestion: \""@ + crate::text::replace(question, seq!['"'], seq!['\\', '"']) + "\"\nasked: "@ + now;
    reveal_strlit("---\n\n");
    reveal_strlit("---\n");
    reveal_strlit("\n");
    reveal_strlit("\ncites: [");
    reveal_strlit("cites");
    reveal_strlit(": [");
    reveal_strlit("]\n");
    reveal_strlit("]\n---\n");
    reveal_strlit(": []\n");
    reveal_strlit("\ncites: []\n---\n");
    let line = "\n"@ + quoted_list("cites"@, cites) + "---\n"@;
    let post = "\n"@ + crate::text::trim(body) + "\n"@;
    assert("---\n\n"@ =~= "---\n"@ + "\n"@);
    assert("\ncites: ["@ =~= "\n"@ + "cites"@ + ": ["@);
    assert("]\n---\n"@ =~= "]\n"@ + "---\n"@);
    assert("\ncites: []\n---\n"@ =~= "\n"@ + "cites"@ + ": []\n"@ + "---\n"@);
    assert(pre + line + post =~= answer_text(question, body, cites, now));
    lemma_contains_self(line);
    lemma_contains_within(pre, line, post, line);
    if cites.len() > 0 {
        assert(line =~= "\ncites: ["@ + join(Seq::new(cites.len(), |i: int| "\""@ + cites[i] + "\""@), ", "@) + "]\n---\n"@);
    } else {
        assert(line =~= "\ncites: []\n---\n"@);
    }
}

/// A source-summary page lists every entity: each appears, in quotes, in
/// the page's text.
pub proof fn lemma_summary_lists_entities(source: Seq<char>, title: Seq<char>, tldr: Seq<char>, entities: Seq<Seq<char>>, now: Seq<char>, k: int)
    requires
        0 <= k < entities.len(),
    ensures
        contains(summary_text(source, title, tldr, entities, now), "\""@ + entities[k] + "\""@),
{
    lemma_quoted_list_holds("entities"@, entities, k);
    let pre = "---\nsumma: source-summary\nsource: "@ + source + "\ningested: "@ + now + "\ntitle: "@ + title + "\n"@;
    let post = "---\n\n"@ + crate::text::trim(tldr) + "\n"@;
    lemma_contains_within(pre, quoted_list("entities"@, entities), post, "\""@ + entities[k] + "\""@);
    assert(pre + quoted_list("entities"@, entities) + post =~= summary_text(source, title, tldr, entities, now));
}

// ---------------------------------------------------------------------------
// Decisions with a mention
// ---------------------------------------------------------------------------

/// A decision call that files no new log entry (no entry, or one already in
/// the log) and carries a mention files the mention on the page as it
/// stands: what it writes for an existing page is exactly what `entity`
/// writes for that mention on that page, so the page's log and other lines
/// are kept as `entity` keeps them.
pub proof fn lemma_decision_mention_on_existing(
    existing: Seq<char>,
    title: Seq<char>,
    entry: Option<Seq<char>>,
    mention: Seq<char>,
    date: Seq<char>,
    now: Seq<char>,
)
    requires
        entry matches Some(t) ==> log_has_entry(existing, folded_entry(t)),
    ensures
        !decision_step(Some(existing), title, entry, date, now).1,
        decision_write(Some(existing), title, entry, Some(mention), date, now)
            == entity_write(Some(existing), title, None, Some(mention), now),
{
}

/// Filing a decision with a mention is filing it without one, then filing
/// the mention as `entity` does on the page that results (the page as it
/// stood when nothing was written); the decision's page is written even
/// when the mention changes nothing.
pub proof fn lemma_decision_then_mention(
    existing: Option<Seq<char>>,
    title: Seq<char>,
    entry: Option<Seq<char>>,
    mention: Seq<char>,
    date: Seq<char>,
    now: Seq<char>,
)
    ensures
        ({
            let alone = decision_write(existing, title, entry, None, date, now);
            let page = match alone {
                Some(c) => Some(c),
                None => existing,
            };
            decision_write(existing, title, entry, Some(mention), date, now) == match entity_write(page, title, None, Some(mention), now) {
                Some(w) => Some(w),
                None => alone,
            }
        }),
{
}

// ---------------------------------------------------------------------------
// The shape of a slug
// ---------------------------------------------------------------------------

/// Pieces with characters and no `-` in them.
pub open spec fn dashless_words(ps: Seq<Seq<char>>) -> bool {
    forall|k: int| #![trigger ps[k]] 0 <= k < ps.len() ==> ps[k].len() > 0 && forall|i: int| 0 <= i < ps[k].len() ==> ps[k][i] != '-'
}

/// Single `-` between characters: a `-` is never first, last, or next to
/// another `-`.
pub open spec fn single_dashes(s: Seq<char>) -> bool {
    forall|i: int| 0 <= i < s.len() && #[trigger] s[i] == '-' ==> 0 < i < s.len() - 1 && s[i + 1] != '-' && s[i - 1] != '-'
}

proof fn lemma_join_single_dashes(ps: Seq<Seq<char>>)
    requires
        dashless_words(ps),
    ensures
        single_dashes(join(ps, seq!['-'])),
        ps.len() > 0 ==> join(ps, seq!['-']).len() > 0 && join(ps, seq!['-'])[0] != '-'
            && join(ps, seq!['-']).last() != '-',
    decreases ps.len(),
{
    if ps.len() == 1 {
        assert(ps[0].len() > 0);
    } else if ps.len() > 1 {
        let pre = ps.drop_last();
        assert(dashless_words(pre)) by {
            assert forall|k: int| #![trigger pre[k]] 0 <= k < pre.len() implies pre[k].len() > 0 && forall|i: int| 0 <= i < pre[k].len() ==> pre[k][i] != '-' by {
                assert(pre[k] == ps[k]);
            }
        }
        lemma_join_single_dashes(pre);
        let a = join(pre, seq!['-']);
        let w = ps.last();
        assert(w == ps[ps.len() - 1]);
        let s = join(ps, seq!['-']);
        assert(s =~= a + seq!['-'] + w);
        let n = a.len() as int;
        assert forall|i: int| 0 <= i < s.len() && #[trigger] s[i] == '-' implies 0 < i < s.len() - 1 && s[i + 1] != '-' && s[i - 1] != '-' by {
            if i < n {
                assert(s[i] == a[i]);
                if i + 1 < n {
                    assert(s[i + 1] == a[i + 1]);
                } else {
                    assert(a.last() == a[n - 1]);
                }
                assert(s[i - 1] == a[i - 1]);
            } else if i == n {
                assert(s[n - 1] == a.last());
                assert(s[n + 1] == w[0]);
            } else {
                assert(s[i] == w[i - n - 1]);
            }
        }
        assert(s[0] == a[0]);
        assert(s.last() == w.last());
    }
}

proof fn lemma_split_pieces_dashless(s: Seq<char>, pos: int)
    requires
        0 <= pos,
    ensures
        forall|k: int| 0 <= k < split_char_from(s, '-', pos).len() ==> forall|i: int| 0 <= i < #[trigger] split_char_from(s, '-', pos)[k].len() ==> split_char_from(s, '-', pos)[k][i] != '-',
    decreases s.len() + 1 - pos,
{
    if pos <= s.len() {
        lemma_find_char_from(s, '-', pos);
        match find_char_from(s, '-', pos) {
            None => {},
            Some(i) => {
                lemma_split_pieces_dashless(s, i + 1);
                let rest = split_char_from(s, '-', i + 1);
                let all = split_char_from(s, '-', pos);
                assert(all == seq![s.subrange(pos, i)] + rest);
                assert forall|k: int| 0 <= k < all.len() implies forall|j: int| 0 <= j < #[trigger] all[k].len() ==> all[k][j] != '-' by {
                    if k > 0 {
                        assert(all[k] == rest[k - 1]);
                    }
                }
            },
        }
    }
}

proof fn lemma_nonempty_dashless(ps: Seq<Seq<char>>)
    requires
        forall|k: int| 0 <= k < ps.len() ==> forall|i: int| 0 <= i < #[trigger] ps[k].len() ==> ps[k][i] != '-',
    ensures
        dashless_words(nonempty_pieces(ps)),
        forall|k: int| 0 <= k < nonempty_pieces(ps).len() ==> ps.contains(#[trigger] nonempty_pieces(ps)[k]),
    decreases ps.len(),
{
    if ps.len() > 0 {
        let pre = ps.drop_last();
        assert forall|k: int| 0 <= k < pre.len() implies forall|i: int| 0 <= i < #[trigger] pre[k].len() ==> pre[k][i] != '-' by {
            assert(pre[k] == ps[k]);
        }
        lemma_nonempty_dashless(pre);
        let r = nonempty_pieces(pre);
        let out = nonempty_pieces(ps);
        assert forall|k: int| 0 <= k < out.len() implies ps.contains(#[trigger] out[k]) by {
            if k < r.len() {
                assert(out[k] == r[k]);
                let m = choose|m: int| 0 <= m < pre.len() && pre[m] == r[k];
                assert(ps[m] == pre[m]);
            } else {
                assert(out[k] == ps[ps.len() - 1]);
            }
        }
        assert forall|k: int| #![trigger out[k]] 0 <= k < out.len() implies out[k].len() > 0 && forall|i: int| 0 <= i < out[k].len() ==> out[k][i] != '-' by {
            if k < r.len() {
                assert(out[k] == r[k]);
            } else {
                assert(out[k] == ps[ps.len() - 1]);
            }
        }
    }
}

/// A slug has single dashes only between words: it never starts or ends
/// with `-` and never holds `--`.
pub proof fn lemma_slug_single_dashes(title: Seq<char>)
    ensures
        single_dashes(slug_of(title)),
        slug_of(title).len() > 0 ==> slug_of(title)[0] != '-' && slug_of(title).last() != '-',
{
    let l = lowercase(title);
    let d = Seq::new(l.len(), |i: int| if char_is_alphanumeric(l[i]) { l[i] } else { '-' });
    lemma_split_pieces_dashless(d, 0);
    lemma_nonempty_dashless(split_char(d, '-'));
    lemma_join_single_dashes(nonempty_pieces(split_char(d, '-')));
}

} // verus!
