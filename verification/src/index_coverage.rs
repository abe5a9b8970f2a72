//! What regenerating the index does for the missing-index check: every
//! owned entity, source summary and answer is listed in the new section, so
//! afterwards only owned pages of other kinds can be reported missing.

use vstd::prelude::*;
use crate::index::{
    entry_line, index_end, index_lines, index_section, index_start, lemma_anchors_of_result,
    owned_of_kind, page_title, replaced_index, section, source_date, source_line, sources_of,
    titles_of_kind, IndexPageView,
};
use crate::lint::{anchors_crossed, between_anchors, missing_of};
use crate::order::{keys, lemma_insert_pos, sorted_by_key, sorted_seq};
use crate::text::{contains, find, join, lemma_contains_at, lemma_contains_within, lemma_find_from, matches_at};

verus! {

/// A page the index lists by title: an owned entity, source summary or
/// answer.
pub open spec fn listed(p: IndexPageView) -> bool {
    owned_of_kind(p, "entity"@) || owned_of_kind(p, "source-summary"@) || owned_of_kind(p, "answer"@)
}

// ---------------------------------------------------------------------------
// Containment
// ---------------------------------------------------------------------------

pub(crate) proof fn lemma_contains_self(s: Seq<char>)
    ensures
        contains(s, s),
{
    assert(s.subrange(0, s.len() as int) =~= s);
    lemma_contains_at(s, s, 0);
}

proof fn lemma_contains_trans(a: Seq<char>, b: Seq<char>, c: Seq<char>)
    requires
        contains(a, b),
        contains(b, c),
    ensures
        contains(a, c),
{
    lemma_find_from(a, b, 0);
    lemma_find_from(b, c, 0);
    let i = find(a, b)->0;
    let j = find(b, c)->0;
    assert(a.subrange(i, i + b.len()) == b);
    let x = a.subrange(i + j, i + j + c.len());
    let y = b.subrange(j, j + c.len());
    assert(x =~= y) by {
        assert forall|k: int| 0 <= k < c.len() implies #[trigger] x[k] == y[k] by {
            assert(a.subrange(i, i + b.len())[j + k] == a[i + j + k]);
        }
    }
    lemma_contains_at(a, c, i + j);
}

/// A joined text holds each of its parts.
pub(crate) proof fn lemma_join_contains(parts: Seq<Seq<char>>, sep: Seq<char>, k: int)
    requires
        0 <= k < parts.len(),
    ensures
        contains(join(parts, sep), parts[k]),
    decreases parts.len(),
{
    if parts.len() == 1 {
        lemma_contains_self(parts[0]);
    } else {
        let init = parts.drop_last();
        if k == parts.len() - 1 {
            lemma_contains_self(parts.last());
            lemma_contains_within(join(init, sep) + sep, parts.last(), seq![], parts.last());
            assert(join(init, sep) + sep + parts.last() + Seq::<char>::empty() =~= join(parts, sep));
        } else {
            lemma_join_contains(init, sep, k);
            assert(init[k] == parts[k]);
            lemma_contains_within(seq![], join(init, sep), sep + parts.last(), parts[k]);
            assert(Seq::<char>::empty() + join(init, sep) + (sep + parts.last()) =~= join(parts, sep));
        }
    }
}

// ---------------------------------------------------------------------------
// Sorting keeps the elements
// ---------------------------------------------------------------------------

pub(crate) proof fn lemma_sorted_seq_contains(s: Seq<Seq<char>>, x: Seq<char>)
    requires
        s.contains(x),
    ensures
        sorted_seq(s).contains(x),
    decreases s.len(),
{
    let t = sorted_seq(s.drop_last());
    lemma_insert_pos(t, s.last(), 0);
    let p = crate::order::insert_pos(t, s.last(), 0);
    let r = t.insert(p, s.last());
    if x == s.last() {
        assert(r[p] == x);
    } else {
        let k = choose|k: int| 0 <= k < s.len() && s[k] == x;
        assert(s.drop_last()[k] == x);
        lemma_sorted_seq_contains(s.drop_last(), x);
        let m = choose|m: int| 0 <= m < t.len() && t[m] == x;
        if m < p {
            assert(r[m] == x);
        } else {
            assert(r[m + 1] == x);
        }
    }
}

proof fn lemma_sorted_by_key_contains(s: Seq<(Seq<char>, Seq<char>)>, x: (Seq<char>, Seq<char>))
    requires
        s.contains(x),
    ensures
        sorted_by_key(s).contains(x),
    decreases s.len(),
{
    let t = sorted_by_key(s.drop_last());
    lemma_insert_pos(keys(t), s.last().0, 0);
    let p = crate::order::insert_pos(keys(t), s.last().0, 0);
    let r = t.insert(p, s.last());
    if x == s.last() {
        assert(r[p] == x);
    } else {
        let k = choose|k: int| 0 <= k < s.len() && s[k] == x;
        assert(s.drop_last()[k] == x);
        lemma_sorted_by_key_contains(s.drop_last(), x);
        let m = choose|m: int| 0 <= m < t.len() && t[m] == x;
        if m < p {
            assert(r[m] == x);
        } else {
            assert(r[m + 1] == x);
        }
    }
}

// ---------------------------------------------------------------------------
// The section lists the pages
// ---------------------------------------------------------------------------

proof fn lemma_titles_contains(ps: Seq<IndexPageView>, kind: Seq<char>, i: int)
    requires
        0 <= i < ps.len(),
        owned_of_kind(ps[i], kind),
    ensures
        titles_of_kind(ps, kind).contains(page_title(ps[i])),
    decreases ps.len(),
{
    let r = titles_of_kind(ps.drop_last(), kind);
    if i == ps.len() - 1 {
        assert(titles_of_kind(ps, kind).last() == page_title(ps[i]));
    } else {
        assert(ps.drop_last()[i] == ps[i]);
        lemma_titles_contains(ps.drop_last(), kind, i);
        let m = choose|m: int| 0 <= m < r.len() && r[m] == page_title(ps[i]);
        if owned_of_kind(ps.last(), kind) {
            assert(r.push(page_title(ps.last()))[m] == r[m]);
        }
    }
}

proof fn lemma_sources_contains(ps: Seq<IndexPageView>, i: int)
    requires
        0 <= i < ps.len(),
        owned_of_kind(ps[i], "source-summary"@),
    ensures
        sources_of(ps).contains((page_title(ps[i]), source_date(ps[i]))),
    decreases ps.len(),
{
    let r = sources_of(ps.drop_last());
    if i == ps.len() - 1 {
        assert(sources_of(ps).last() == (page_title(ps[i]), source_date(ps[i])));
    } else {
        assert(ps.drop_last()[i] == ps[i]);
        lemma_sources_contains(ps.drop_last(), i);
        let m = choose|m: int| 0 <= m < r.len() && r[m] == (page_title(ps[i]), source_date(ps[i]));
        if owned_of_kind(ps.last(), "source-summary"@) {
            assert(r.push((page_title(ps.last()), source_date(ps.last())))[m] == r[m]);
        }
    }
}

/// An index line holds the title it lists.
proof fn lemma_line_holds_title(t: Seq<char>, d: Seq<char>)
    ensures
        contains(entry_line(t), t),
        contains(source_line(t, d), t),
{
    lemma_contains_self(t);
    lemma_contains_within("- [["@, t, "]]"@, t);
    if d.len() == 0 {
        lemma_contains_within("- [["@, t, "]]"@, t);
    } else {
        lemma_contains_within("- [["@, t, "]] \u{2014} "@ + d, t);
        assert("- [["@ + t + ("]] \u{2014} "@ + d) =~= source_line(t, d));
    }
}

/// The section built from the pages holds the title of every page it lists.
proof fn lemma_section_holds_title(ps: Seq<IndexPageView>, i: int)
    requires
        0 <= i < ps.len(),
        listed(ps[i]),
    ensures
        contains(index_section(ps), page_title(ps[i])),
{
    let t = page_title(ps[i]);
    let ents = sorted_seq(titles_of_kind(ps, "entity"@));
    let srcs = sorted_by_key(sources_of(ps));
    let answers = sorted_seq(titles_of_kind(ps, "answer"@));
    let e_items = Seq::new(ents.len(), |k: int| entry_line(ents[k]));
    let s_items = Seq::new(srcs.len(), |k: int| source_line(srcs[k].0, srcs[k].1));
    let a_items = Seq::new(answers.len(), |k: int| entry_line(answers[k]));
    let s1 = section("## Entities"@, e_items);
    let s2 = section("## Sources"@, s_items);
    let s3 = section("## Answers"@, a_items);
    let lines = index_lines(ps);
    let rest = lines.skip((s1.len() + s2.len() + s3.len()) as int);
    assert(lines =~= s1 + s2 + s3 + rest);
    let d = source_date(ps[i]);
    lemma_line_holds_title(t, d);
    if owned_of_kind(ps[i], "entity"@) {
        lemma_titles_contains(ps, "entity"@, i);
        lemma_sorted_seq_contains(titles_of_kind(ps, "entity"@), t);
        let k = choose|k: int| 0 <= k < ents.len() && ents[k] == t;
        assert(s1[1 + k] == entry_line(t));
        assert(lines[1 + k] == entry_line(t));
        lemma_join_contains(lines, "\n"@, 1 + k);
        lemma_contains_trans(index_section(ps), entry_line(t), t);
    } else if owned_of_kind(ps[i], "source-summary"@) {
        lemma_sources_contains(ps, i);
        lemma_sorted_by_key_contains(sources_of(ps), (t, d));
        let k = choose|k: int| 0 <= k < srcs.len() && srcs[k] == (t, d);
        assert(s2[1 + k] == source_line(t, d));
        assert(lines[s1.len() + 1 + k] == source_line(t, d));
        lemma_join_contains(lines, "\n"@, s1.len() + 1 + k);
        lemma_contains_trans(index_section(ps), source_line(t, d), t);
    } else {
        lemma_titles_contains(ps, "answer"@, i);
        lemma_sorted_seq_contains(titles_of_kind(ps, "answer"@), t);
        let k = choose|k: int| 0 <= k < answers.len() && answers[k] == t;
        assert(s3[1 + k] == entry_line(t));
        assert(lines[s1.len() + s2.len() + 1 + k] == entry_line(t));
        lemma_join_contains(lines, "\n"@, s1.len() + s2.len() + 1 + k);
        lemma_contains_trans(index_section(ps), entry_line(t), t);
    }
}

// ---------------------------------------------------------------------------
// The law
// ---------------------------------------------------------------------------

/// Regenerating the index clears the missing-index findings of every page
/// the index lists: once `index.md` holds the section built from the
/// vault's pages, its anchors are in order, and every page the missing-index
/// check reports is an owned page that the index does not list (not an
/// entity, source summary or answer). This needs the section free of the end
/// anchor and the old file without its first end anchor before its first
/// start anchor.
pub proof fn lemma_regenerated_index_lists_pages(existing: Seq<char>, ps: Seq<IndexPageView>)
    requires
        !contains(index_section(ps), index_end()),
        !(find(existing, index_start()) is Some && find(existing, index_end()) is Some
            && find(existing, index_end())->0 < find(existing, index_start())->0),
    ensures
        !anchors_crossed(replaced_index(existing, index_section(ps))),
        forall|k: int| 0 <= k < missing_of(ps, between_anchors(replaced_index(existing, index_section(ps)))).len()
            ==> exists|j: int| 0 <= j < ps.len() && !listed(ps[j])
                && ps[j].path == #[trigger] missing_of(ps, between_anchors(replaced_index(existing, index_section(ps))))[k],
{
    let new = index_section(ps);
    let r = replaced_index(existing, new);
    lemma_anchors_of_result(existing, new);
    let a = between_anchors(r);
    let pre_len: int = match (find(existing, index_start()), find(existing, index_end())) {
        (Some(s), Some(e)) => s + index_start().len(),
        _ => 35int,
    };
    reveal_strlit("<!-- summa:index-start -->");
    reveal_strlit("# Index\n\n");
    lemma_find_from(existing, index_start(), 0);
    let pre = match (find(existing, index_start()), find(existing, index_end())) {
        (Some(s), Some(e)) => existing.take(s + index_start().len()),
        _ => "# Index\n\n"@ + index_start(),
    };
    assert(pre.len() == pre_len);
    assert(find(r, index_start()) == Some(pre_len - 26));
    assert(find(r, index_end()) == Some(pre_len + 1 + new.len() + 1));
    assert(a =~= r.subrange(pre_len, pre_len + 1 + new.len() + 1));
    lemma_contains_self(new);
    lemma_contains_within(seq!['\n'], new, seq!['\n'], new);
    assert(seq!['\n'] + new + seq!['\n'] =~= r.subrange(pre_len, pre_len + 1 + new.len() + 1)) by {
        reveal_strlit("\n");
    }
    assert(contains(a, new));
    assert forall|i: int| 0 <= i < ps.len() && listed(ps[i]) implies contains(a, page_title(ps[i])) by {
        lemma_section_holds_title(ps, i);
        lemma_contains_trans(a, new, page_title(ps[i]));
    }
    lemma_missing_unlisted(ps, a);
}

/// With every listed page's title in `a`, every page `missing_of` reports
/// is unlisted.
proof fn lemma_missing_unlisted(ps: Seq<IndexPageView>, a: Seq<char>)
    requires
        forall|i: int| 0 <= i < ps.len() && listed(ps[i]) ==> contains(a, page_title(#[trigger] ps[i])),
    ensures
        forall|k: int| 0 <= k < missing_of(ps, a).len()
            ==> exists|j: int| 0 <= j < ps.len() && !listed(ps[j]) && ps[j].path == #[trigger] missing_of(ps, a)[k],
    decreases ps.len(),
{
    if ps.len() > 0 {
        let init = ps.drop_last();
        assert forall|i: int| 0 <= i < init.len() && listed(init[i]) implies contains(a, page_title(#[trigger] init[i])) by {
            assert(init[i] == ps[i]);
        }
        lemma_missing_unlisted(init, a);
        let m0 = missing_of(init, a);
        let m = missing_of(ps, a);
        assert forall|k: int| 0 <= k < m.len() implies exists|j: int| 0 <= j < ps.len() && !listed(ps[j]) && ps[j].path == #[trigger] m[k] by {
            if k < m0.len() {
                assert(m[k] == m0[k]);
                let j = choose|j: int| 0 <= j < init.len() && !listed(init[j]) && init[j].path == #[trigger] m0[k];
                assert(ps[j] == init[j]);
            } else {
                let j = ps.len() - 1;
                assert(m[k] == ps[j].path);
                assert(!contains(a, page_title(ps[j])));
            }
        }
    }
}

} // verus!
