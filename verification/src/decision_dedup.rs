//! The decision log under filing: a filed entry becomes the newest entry
//! and the entries before it stay as they were; once an entry has been
//! filed, filing it again appends nothing.

use vstd::prelude::*;
use crate::log::one_line;
use crate::page::{
    dash_items, decision_step, folded_entry, has_date_prefix, log_bullets, log_has_entry,
    nonempty_trimmed, without_date,
};
use crate::text::{
    starts_with, char_is_whitespace, join, lemma_find_char_from, lemma_rskip_ws, lemma_skip_ws, lines,
    lines_from, rskip_ws, skip_ws, strip_cr, trim, trim_start_ws, find_char_from,
};

verus! {

/// `d` is a date of the form `YYYY-MM-DD`: ten characters, digits but for
/// `-` at positions 4 and 7.
pub open spec fn date_shaped(d: Seq<char>) -> bool {
    &&& d.len() == 10
    &&& forall|i: int| 0 <= i < 10 ==> if i == 4 || i == 7 { d[i] == '-' } else { crate::text::is_ascii_digit(#[trigger] d[i]) }
}

/// An entry as it is filed: one line, not empty, not ending in whitespace.
pub open spec fn entry_shaped(e: Seq<char>) -> bool {
    e.len() > 0 && one_line(e) && !char_is_whitespace(e.last())
}

// ---------------------------------------------------------------------------
// Lines
// ---------------------------------------------------------------------------

proof fn lemma_lines_from_one_line(s: Seq<char>, pos: int)
    ensures
        forall|k: int| 0 <= k < lines_from(s, pos).len() ==> one_line(#[trigger] lines_from(s, pos)[k]),
    decreases s.len() - pos,
{
    if pos < 0 || pos >= s.len() {
    } else {
        lemma_find_char_from(s, '\n', pos);
        match find_char_from(s, '\n', pos) {
            None => {
                let x = s.subrange(pos, s.len() as int);
                assert(lines_from(s, pos) == seq![x]);
                assert(one_line(x));
            },
            Some(i) => {
                lemma_lines_from_one_line(s, i + 1);
                let x = strip_cr(s.subrange(pos, i));
                assert(one_line(s.subrange(pos, i)));
                assert(one_line(x));
                let l = lines_from(s, pos);
                assert(l == seq![x] + lines_from(s, i + 1));
                assert forall|k: int| 0 <= k < l.len() implies one_line(#[trigger] l[k]) by {
                    if k > 0 {
                        assert(l[k] == lines_from(s, i + 1)[k - 1]);
                    }
                }
            },
        }
    }
}

/// A trimmed non-empty text is a piece of the text and ends in a character
/// that is not whitespace.
proof fn lemma_trim(x: Seq<char>)
    ensures
        one_line(x) ==> one_line(trim(x)),
        trim(x).len() > 0 ==> !char_is_whitespace(trim(x).last()),
        trim(x).len() > 0 ==> !char_is_whitespace(trim(x)[0]),
{
    lemma_skip_ws(x, 0);
    let a = trim_start_ws(x);
    lemma_rskip_ws(a, a.len() as int);
    let t = trim(x);
    assert(t == a.take(rskip_ws(a, a.len() as int)));
    assert forall|i: int| 0 <= i < t.len() implies t[i] == x[skip_ws(x, 0) + i] by {}
}

proof fn lemma_nonempty_trimmed(ls: Seq<Seq<char>>)
    requires
        forall|k: int| 0 <= k < ls.len() ==> one_line(#[trigger] ls[k]),
    ensures
        forall|k: int| 0 <= k < nonempty_trimmed(ls).len() ==> entry_shaped(#[trigger] nonempty_trimmed(ls)[k]),
    decreases ls.len(),
{
    if ls.len() > 0 {
        lemma_nonempty_trimmed(ls.drop_last());
        lemma_trim(ls.last());
        let r = nonempty_trimmed(ls.drop_last());
        if trim(ls.last()).len() > 0 {
            assert forall|k: int| 0 <= k < r.push(trim(ls.last())).len() implies entry_shaped(#[trigger] r.push(trim(ls.last()))[k]) by {
                if k < r.len() {
                    assert(r.push(trim(ls.last()))[k] == r[k]);
                }
            }
        }
    }
}

proof fn lemma_join_shaped(parts: Seq<Seq<char>>)
    requires
        parts.len() > 0,
        forall|k: int| 0 <= k < parts.len() ==> entry_shaped(#[trigger] parts[k]),
    ensures
        entry_shaped(join(parts, " "@)),
    decreases parts.len(),
{
    reveal_strlit(" ");
    if parts.len() > 1 {
        let init = parts.drop_last();
        assert forall|k: int| 0 <= k < init.len() implies entry_shaped(#[trigger] init[k]) by {
            assert(init[k] == parts[k]);
        }
        lemma_join_shaped(init);
        let j = join(init, " "@) + " "@ + parts.last();
        assert(join(parts, " "@) == j);
        assert(entry_shaped(parts[parts.len() - 1]));
        assert(j.last() == parts.last().last());
        assert forall|i: int| 0 <= i < j.len() implies j[i] != '\n' by {
            let a = join(init, " "@);
            if i < a.len() {
                assert(j[i] == a[i]);
            } else if i == a.len() {
                assert(j[i] == ' ');
            } else {
                assert(j[i] == parts.last()[i - a.len() - 1]);
            }
        }
    } else {
        assert(join(parts, " "@) == parts[0]);
    }
}

/// A folded entry that is not empty is entry-shaped.
pub proof fn lemma_folded_shaped(t: Seq<char>)
    requires
        folded_entry(t).len() > 0,
    ensures
        entry_shaped(folded_entry(t)),
{
    lemma_lines_from_one_line(t, 0);
    lemma_nonempty_trimmed(lines(t));
    let parts = nonempty_trimmed(lines(t));
    if parts.len() == 0 {
        assert(join(parts, " "@) =~= Seq::<char>::empty());
    } else {
        lemma_join_shaped(parts);
    }
}

/// The bullet a decision is filed as.
pub open spec fn dated_bullet(d: Seq<char>, e: Seq<char>) -> Seq<char> {
    "- "@ + d + ": "@ + e
}

/// From a line start `i` up to a later line start `k` the lines run on to
/// the same last line.
proof fn lemma_lines_tail(s: Seq<char>, i: int, k: int)
    requires
        0 <= i <= k < s.len(),
        i == k || s[k - 1] == '\n',
    ensures
        lines_from(s, i).len() > 0,
        lines_from(s, i).last() == lines_from(s, k).last(),
    decreases k - i,
{
    lemma_find_char_from(s, '\n', i);
    if i < k {
        let j = find_char_from(s, '\n', i)->0;
        assert(j <= k - 1);
        lemma_lines_tail(s, j + 1, k);
        assert(lines_from(s, i) == seq![strip_cr(s.subrange(i, j))] + lines_from(s, j + 1));
    } else {
        match find_char_from(s, '\n', i) {
            None => {},
            Some(j) => {
                assert(lines_from(s, i) == seq![strip_cr(s.subrange(i, j))] + lines_from(s, j + 1));
            },
        }
    }
}

/// A text ending in one line and a newline has that line last.
proof fn lemma_last_line(s: Seq<char>, k: int, b: Seq<char>)
    requires
        0 <= k <= s.len(),
        s.skip(k) == b + "\n"@,
        one_line(b),
    ensures
        lines_from(s, k) == seq![strip_cr(b)],
{
    reveal_strlit("\n");
    lemma_find_char_from(s, '\n', k);
    let e = k + b.len();
    assert(s.skip(k).len() == b.len() + 1);
    assert(s.len() == e + 1);
    assert(s[e] == s.skip(k)[b.len() as int]);
    assert forall|j: int| k <= j < e implies s[j] != '\n' by {
        assert(s[j] == s.skip(k)[j - k]);
        assert(s.skip(k)[j - k] == b[j - k]);
    }
    assert(find_char_from(s, '\n', k) == Some(e));
    assert(s.subrange(k, e) =~= b);
    assert(lines_from(s, e + 1) == Seq::<Seq<char>>::empty());
    assert(lines_from(s, k) =~= seq![strip_cr(b)]);
}

/// A decision section ending in a dated bullet and a newline lists the
/// entry last.
proof fn lemma_section_entry(y: Seq<char>, d: Seq<char>, e: Seq<char>)
    requires
        date_shaped(d),
        entry_shaped(e),
        y.len() == 0 || y.last() == '\n',
    ensures
        dash_items(lines(y + dated_bullet(d, e) + "\n"@)).len() > 0,
        without_date(dash_items(lines(y + dated_bullet(d, e) + "\n"@)).last()) == e,
        dash_items(lines(y + dated_bullet(d, e) + "\n"@)).last() == d + ": "@ + e,
        dash_items(lines(y + dated_bullet(d, e) + "\n"@)) == dash_items(lines(y)).push(d + ": "@ + e),
{
    reveal_strlit("- ");
    reveal_strlit(": ");
    reveal_strlit("\n");
    let b = dated_bullet(d, e);
    let s = y + b + "\n"@;
    let k = y.len() as int;
    assert(b.len() == e.len() + 14);
    assert forall|i: int| 0 <= i < b.len() implies b[i] != '\n' by {
        if i >= 14 {
            assert(b[i] == e[i - 14]);
        } else if i >= 2 && i < 12 {
            assert(b[i] == d[i - 2]);
            if i - 2 == 4 || i - 2 == 7 {
            } else {
                assert(crate::text::is_ascii_digit(d[i - 2]));
            }
        }
    }
    assert(b.last() == e.last());
    assert(s.skip(k) =~= b + "\n"@);
    if k > 0 {
        assert(s[k - 1] == y.last());
    }
    lemma_lines_tail(s, 0, k);
    lemma_last_line(s, k, b);
    assert(strip_cr(b) == b);
    let ls = lines(s);
    assert(ls.last() == b);
    lemma_skip_ws(b, 0);
    lemma_rskip_ws(b, b.len() as int);
    assert(skip_ws(b, 0) == 0);
    assert(rskip_ws(b, b.len() as int) == b.len());
    assert(trim_start_ws(b) =~= b);
    assert(trim(b) =~= b);
    assert(b.take(2) =~= "- "@);
    let item = b.skip(2);
    assert(item =~= d + ": "@ + e);
    assert(dash_items(ls) == dash_items(ls.drop_last()).push(item));
    assert forall|i: int| 0 <= i < 10 implies (if i == 4 || i == 7 { item[i] == '-' } else { crate::text::is_ascii_digit(#[trigger] item[i]) }) by {
        assert(item[i] == d[i]);
    }
    assert(has_date_prefix(item));
    assert(item.skip(12) =~= e);
    lemma_lines_concat(y, b + "\n"@, 0);
    lemma_lines_shift(y, b + "\n"@, 0);
    assert(s =~= y + (b + "\n"@));
    assert(lines(b + "\n"@) == seq![b]);
    assert(ls.drop_last() =~= lines(y));
}

// ---------------------------------------------------------------------------
// Lines of joined texts
// ---------------------------------------------------------------------------

/// The first `c` from `from` is at `k` when `k` holds one and nothing
/// between does.
proof fn lemma_find_char_is(s: Seq<char>, c: char, from: int, k: int)
    requires
        0 <= from <= k < s.len(),
        s[k] == c,
        forall|j: int| from <= j < k ==> s[j] != c,
    ensures
        find_char_from(s, c, from) == Some(k),
    decreases k - from,
{
    if from < k {
        lemma_find_char_is(s, c, from + 1, k);
    }
}

/// No `c` from `from` on: none is found.
proof fn lemma_find_char_none(s: Seq<char>, c: char, from: int)
    requires
        0 <= from,
        forall|j: int| from <= j < s.len() ==> s[j] != c,
    ensures
        find_char_from(s, c, from) is None,
    decreases s.len() - from,
{
    if from < s.len() {
        lemma_find_char_none(s, c, from + 1);
    }
}

/// The lines of `t` from `k` are those of `s + t` from `s.len() + k`.
proof fn lemma_lines_shift(s: Seq<char>, t: Seq<char>, k: int)
    requires
        0 <= k,
    ensures
        lines_from(s + t, s.len() + k) == lines_from(t, k),
    decreases t.len() - k,
{
    let st = s + t;
    let n = s.len() as int;
    if k < t.len() {
        lemma_find_char_from(t, '\n', k);
        match find_char_from(t, '\n', k) {
            Some(i) => {
                assert(st[n + i] == t[i]);
                assert forall|j: int| n + k <= j < n + i implies st[j] != '\n' by {
                    assert(st[j] == t[j - n]);
                }
                lemma_find_char_is(st, '\n', n + k, n + i);
                assert(st.subrange(n + k, n + i) =~= t.subrange(k, i));
                lemma_lines_shift(s, t, i + 1);
            },
            None => {
                assert forall|j: int| n + k <= j < st.len() implies st[j] != '\n' by {
                    assert(st[j] == t[j - n]);
                }
                lemma_find_char_none(st, '\n', n + k);
                assert(st.subrange(n + k, st.len() as int) =~= t.subrange(k, t.len() as int));
            },
        }
    }
}

/// A text ending in a newline (or empty) followed by another: the lines are
/// those of the first, then those of the second.
proof fn lemma_lines_concat(s: Seq<char>, t: Seq<char>, pos: int)
    requires
        0 <= pos <= s.len(),
        s.len() == 0 || s.last() == '\n',
    ensures
        lines_from(s + t, pos) == lines_from(s, pos) + lines(t),
    decreases s.len() - pos,
{
    let st = s + t;
    if pos == s.len() {
        lemma_lines_shift(s, t, 0);
        assert(lines_from(s, pos) =~= Seq::<Seq<char>>::empty());
        assert(lines_from(s, pos) + lines(t) =~= lines(t));
    } else {
        lemma_find_char_from(s, '\n', pos);
        let i = find_char_from(s, '\n', pos)->0;
        assert(s[s.len() - 1] == '\n');
        assert forall|j: int| pos <= j < i implies st[j] != '\n' by {
            assert(st[j] == s[j]);
        }
        assert(st[i] == s[i]);
        lemma_find_char_is(st, '\n', pos, i);
        assert(st.subrange(pos, i) =~= s.subrange(pos, i));
        lemma_lines_concat(s, t, i + 1);
        assert(lines_from(st, pos) =~= seq![strip_cr(s.subrange(pos, i))] + (lines_from(s, i + 1) + lines(t)));
    }
}

/// The items of joined lines are the items of each part, joined.
proof fn lemma_dash_concat(a: Seq<Seq<char>>, b: Seq<Seq<char>>)
    ensures
        dash_items(a + b) == dash_items(a) + dash_items(b),
    decreases b.len(),
{
    if b.len() == 0 {
        assert(a + b =~= a);
        assert(dash_items(a) + dash_items(b) =~= dash_items(a));
    } else {
        assert((a + b).drop_last() =~= a + b.drop_last());
        assert((a + b).last() == b.last());
        lemma_dash_concat(a, b.drop_last());
        if starts_with(trim(b.last()), "- "@) {
            assert(dash_items(a) + dash_items(b) =~= (dash_items(a) + dash_items(b.drop_last())).push(trim(b.last()).skip(2)));
        } else {
            assert(dash_items(a) + dash_items(b) =~= dash_items(a) + dash_items(b.drop_last()));
        }
    }
}

/// Newlines alone hold no items.
proof fn lemma_newlines_no_items(t: Seq<char>, k: int)
    requires
        0 <= k,
        forall|j: int| 0 <= j < t.len() ==> t[j] == '\n',
    ensures
        dash_items(lines_from(t, k)) == Seq::<Seq<char>>::empty(),
    decreases t.len() - k,
{
    reveal_strlit("- ");
    if k < t.len() {
        lemma_find_char_is(t, '\n', k, k);
        assert(t.subrange(k, k) =~= Seq::<char>::empty());
        let e = Seq::<char>::empty();
        lemma_newlines_no_items(t, k + 1);
        lemma_dash_concat(seq![strip_cr(e)], lines_from(t, k + 1));
        assert(strip_cr(e) == e);
        lemma_skip_ws(e, 0);
        assert(trim(e) =~= e);
        assert(!starts_with(e, "- "@));
        assert(seq![e].drop_last() =~= Seq::<Seq<char>>::empty());
        assert(seq![e].last() == e);
        assert(dash_items(Seq::<Seq<char>>::empty()) =~= Seq::<Seq<char>>::empty());
        assert(dash_items(seq![e]) =~= Seq::<Seq<char>>::empty());
    }
}

/// Trimming does not see a final carriage return.
proof fn lemma_trim_strip_cr(x: Seq<char>)
    ensures
        trim(strip_cr(x)) == trim(x),
{
    if x.len() > 0 && x.last() == '\r' {
        let y = x.drop_last();
        assert(char_is_whitespace('\r'));
        lemma_skip_ws(x, 0);
        lemma_skip_ws(y, 0);
        let i = skip_ws(x, 0);
        let iy = skip_ws(y, 0);
        // The same leading whitespace is skipped, up to the end of `y`.
        assert forall|j: int| 0 <= j < y.len() implies x[j] == y[j] by {}
        if iy < y.len() {
            lemma_skip_ws_same(x, y, 0);
            assert(i == iy);
            let a = x.skip(i);
            let b = y.skip(i);
            assert(a =~= b.push('\r'));
            lemma_rskip_ws(a, a.len() as int);
            lemma_rskip_ws(b, b.len() as int);
            lemma_rskip_ws_prefix(a, b, b.len() as int);
            assert(rskip_ws(a, a.len() as int) == rskip_ws(a, b.len() as int));
            assert(a.take(rskip_ws(a, a.len() as int)) =~= b.take(rskip_ws(b, b.len() as int)));
        } else {
            assert(iy == y.len());
            assert(forall|j: int| 0 <= j < x.len() ==> char_is_whitespace(#[trigger] x[j])) by {
                assert forall|j: int| 0 <= j < x.len() implies char_is_whitespace(#[trigger] x[j]) by {
                    if j < y.len() {
                        assert(x[j] == y[j]);
                    }
                }
            }
            lemma_skip_ws_all(x, 0);
            assert(trim_start_ws(x) =~= Seq::<char>::empty());
            assert(trim_start_ws(y) =~= Seq::<char>::empty());
            lemma_rskip_ws(Seq::<char>::empty(), 0);
        }
    }
}

proof fn lemma_skip_ws_all(s: Seq<char>, i: int)
    requires
        0 <= i <= s.len(),
        forall|j: int| 0 <= j < s.len() ==> char_is_whitespace(#[trigger] s[j]),
    ensures
        skip_ws(s, i) == s.len(),
    decreases s.len() - i,
{
    if i < s.len() {
        lemma_skip_ws_all(s, i + 1);
    }
}

/// Skipping leading whitespace in a text and in a prefix that has a
/// non-whitespace character from `i` on stops at the same place.
proof fn lemma_skip_ws_same(x: Seq<char>, y: Seq<char>, i: int)
    requires
        0 <= i <= y.len() <= x.len(),
        forall|j: int| 0 <= j < y.len() ==> x[j] == y[j],
        skip_ws(y, i) < y.len(),
    ensures
        skip_ws(x, i) == skip_ws(y, i),
    decreases y.len() - i,
{
    if i < y.len() && char_is_whitespace(y[i]) {
        lemma_skip_ws_same(x, y, i + 1);
    }
}

/// Skipping trailing whitespace back from `j` reads nothing past `j`.
proof fn lemma_rskip_ws_prefix(a: Seq<char>, b: Seq<char>, j: int)
    requires
        0 <= j <= b.len() <= a.len(),
        forall|k: int| 0 <= k < b.len() ==> a[k] == b[k],
    ensures
        rskip_ws(a, j) == rskip_ws(b, j),
    decreases j,
{
    if 0 < j && char_is_whitespace(b[j - 1]) {
        lemma_rskip_ws_prefix(a, b, j - 1);
    }
}

/// A final newline adds no item: the lines of `u` and of `u` with a newline
/// differ only in a carriage return at the end of the last line.
proof fn lemma_final_newline(u: Seq<char>, pos: int)
    requires
        0 <= pos < u.len(),
        u.last() != '\n',
    ensures
        lines_from(u, pos).len() > 0,
        lines_from(u + "\n"@, pos) == lines_from(u, pos).drop_last().push(strip_cr(lines_from(u, pos).last())),
    decreases u.len() - pos,
{
    reveal_strlit("\n");
    let un = u + "\n"@;
    assert(un.len() == u.len() + 1);
    assert(un[u.len() as int] == '\n');
    lemma_find_char_from(u, '\n', pos);
    match find_char_from(u, '\n', pos) {
        None => {
            assert forall|j: int| pos <= j < u.len() implies un[j] != '\n' by {
                assert(un[j] == u[j]);
            }
            lemma_find_char_is(un, '\n', pos, u.len() as int);
            assert(un.subrange(pos, u.len() as int) =~= u.subrange(pos, u.len() as int));
            assert(lines_from(un, u.len() + 1int) =~= Seq::<Seq<char>>::empty());
            assert(lines_from(un, pos) =~= seq![strip_cr(u.subrange(pos, u.len() as int))]);
            assert(lines_from(u, pos) =~= seq![u.subrange(pos, u.len() as int)]);
            assert(lines_from(u, pos).drop_last() =~= Seq::<Seq<char>>::empty());
        },
        Some(i) => {
            assert(i != u.len() - 1);
            assert forall|j: int| pos <= j < i implies un[j] != '\n' by {
                assert(un[j] == u[j]);
            }
            assert(un[i] == u[i]);
            lemma_find_char_is(un, '\n', pos, i);
            assert(un.subrange(pos, i) =~= u.subrange(pos, i));
            lemma_final_newline(u, i + 1);
            let first = strip_cr(u.subrange(pos, i));
            let rest = lines_from(u, i + 1);
            assert(lines_from(u, pos) =~= seq![first] + rest);
            assert(lines_from(un, pos) =~= seq![first] + rest.drop_last().push(strip_cr(rest.last())));
            assert((seq![first] + rest).drop_last() =~= seq![first] + rest.drop_last());
        },
    }
}

/// The items of `u` with a final newline are those of `u`.
proof fn lemma_items_final_newline(u: Seq<char>)
    ensures
        dash_items(lines(u + "\n"@)) == dash_items(lines(u)),
{
    reveal_strlit("\n");
    if u.len() == 0 {
        assert(u + "\n"@ =~= "\n"@);
        lemma_newlines_no_items("\n"@, 0);
        assert(lines(u) =~= Seq::<Seq<char>>::empty());
    } else if u.last() == '\n' {
        lemma_lines_concat(u, "\n"@, 0);
        lemma_dash_concat(lines(u), lines("\n"@));
        lemma_newlines_no_items("\n"@, 0);
        assert(dash_items(lines(u)) + Seq::<Seq<char>>::empty() =~= dash_items(lines(u)));
    } else {
        lemma_final_newline(u, 0);
        let l = lines(u);
        lemma_trim_strip_cr(l.last());
        assert(l.drop_last().push(strip_cr(l.last())).drop_last() =~= l.drop_last());
    }
}

/// Newlines after a text add no items.
proof fn lemma_items_trailing_newlines(u: Seq<char>, t: Seq<char>)
    requires
        forall|j: int| 0 <= j < t.len() ==> t[j] == '\n',
    ensures
        dash_items(lines(u + t)) == dash_items(lines(u)),
{
    reveal_strlit("\n");
    if t.len() > 0 {
        let u1 = u + "\n"@;
        assert(u + t =~= u1 + t.skip(1));
        assert(u1.last() == '\n');
        lemma_lines_concat(u1, t.skip(1), 0);
        lemma_dash_concat(lines(u1), lines(t.skip(1)));
        lemma_newlines_no_items(t.skip(1), 0);
        lemma_items_final_newline(u);
        assert(dash_items(lines(u1)) + Seq::<Seq<char>>::empty() =~= dash_items(lines(u1)));
    } else {
        assert(u + t =~= u);
    }
}

// ---------------------------------------------------------------------------
// Where the section after a filed bullet ends
// ---------------------------------------------------------------------------

/// The start of the next heading: a newline followed by `## `.
pub open spec fn next_heading() -> Seq<char> {
    "\n## "@
}

/// The text before a bullet: empty or ending in a newline, with no heading
/// start before that newline.
pub open spec fn lead_in(y: Seq<char>) -> bool {
    &&& y.len() == 0 || y.last() == '\n'
    &&& y.len() > 0 ==> forall|i: int| !crate::text::matches_at(y.drop_last(), next_heading(), i)
}

/// No heading starts before the newline that ends a bullet.
proof fn lemma_no_heading_before(y: Seq<char>, b: Seq<char>, rest: Seq<char>, j: int)
    requires
        lead_in(y),
        one_line(b),
        b.len() > 0,
        b[0] == '-',
        rest.len() >= y.len() + b.len() + 1,
        rest.take(y.len() + b.len() + 1int) == y + b + "\n"@,
        j < y.len() + b.len(),
    ensures
        !crate::text::matches_at(rest, next_heading(), j),
{
    reveal_strlit("\n## ");
    reveal_strlit("\n");
    let n = next_heading();
    let p = y + b + "\n"@;
    let yl = y.len() as int;
    let bl = b.len() as int;
    if crate::text::matches_at(rest, n, j) {
        let w = rest.subrange(j, j + 4);
        assert(w == n);
        assert(w[0] == '\n' && w[1] == '#' && w[2] == '#' && w[3] == ' ');
        assert forall|m: int| 0 <= m < 4 implies #[trigger] rest[j + m] == w[m] by {}
        assert forall|i: int| 0 <= i < yl + bl + 1 implies #[trigger] rest[i] == p[i] by {
            assert(rest.take(yl + bl + 1)[i] == rest[i]);
        }
        if j + 4 <= yl - 1 {
            let yd = y.drop_last();
            assert(yd.subrange(j, j + 4) =~= w);
            assert(crate::text::matches_at(yd, n, j));
        } else if j < yl {
            assert(p[yl - 1] == '\n');
            if j == yl - 1 {
                assert(p[yl] == b[0]);
                assert(rest[j + 1] == '#');
            } else {
                let m = yl - 1 - j;
                assert(1 <= m < 4);
                assert(rest[j + m] == '\n');
            }
        } else {
            assert(p[j] == b[j - yl]);
        }
    }
}

/// After a bullet and a blank line, the next heading starts where the
/// following text begins with `## `; after a bullet at the very end there is
/// none.
proof fn lemma_find_after_bullet(y: Seq<char>, b: Seq<char>, w: Seq<char>)
    requires
        lead_in(y),
        one_line(b),
        b.len() > 0,
        b[0] == '-',
    ensures
        crate::text::starts_with(w, "## "@) ==> crate::text::find(y + b + "\n\n"@ + w, next_heading()) == Some((y.len() + b.len() + 1) as int),
        crate::text::find(y + b + "\n"@, next_heading()) is None,
{
    reveal_strlit("\n## ");
    reveal_strlit("\n\n");
    reveal_strlit("\n");
    reveal_strlit("## ");
    let n = next_heading();
    let k: int = (y.len() + b.len() + 1) as int;
    let r1 = y + b + "\n\n"@ + w;
    if crate::text::starts_with(w, "## "@) {
        assert(r1.take(k) =~= y + b + "\n"@);
        assert forall|j: int| 0 <= j < k implies !crate::text::matches_at(r1, n, j) by {
            if j < k - 1 {
                lemma_no_heading_before(y, b, r1, j);
            } else if crate::text::matches_at(r1, n, j) {
                assert(r1[j + 1] == '\n');
                assert(r1.subrange(j, j + 4)[1] == r1[j + 1]);
            }
        }
        assert(r1.subrange(k, k + 4) =~= n) by {
            assert(w.take(3) == "## "@);
            assert forall|m: int| 0 <= m < 4 implies r1.subrange(k, k + 4)[m] == n[m] by {
                if m == 0 {
                    assert(r1[k] == '\n');
                } else {
                    assert(r1[k + m] == w[m - 1]);
                    assert(w[m - 1] == w.take(3)[m - 1]);
                }
            }
        }
        crate::text::lemma_find_from_is(r1, n, 0, k);
    }
    let r2 = y + b + "\n"@;
    crate::text::lemma_find_from(r2, n, 0);
    assert(r2.take(k) =~= r2);
    if crate::text::find(r2, n) is Some {
        let j = crate::text::find(r2, n)->0;
        assert(n.len() == 4);
        lemma_no_heading_before(y, b, r2, j);
    }
}

// ---------------------------------------------------------------------------
// Where a heading is first found
// ---------------------------------------------------------------------------

/// The decision log heading.
pub open spec fn log_heading() -> Seq<char> {
    "## Decision log"@
}

/// The first match in `t + z` is the first match in `z`, moved by `t`, when
/// no match can start in `t`: either `t` never holds the pattern's first
/// character, or `t` holds no match, the pattern is one line, and `z`
/// starts with a newline.
proof fn lemma_find_shift(t: Seq<char>, z: Seq<char>, pat: Seq<char>)
    requires
        pat.len() > 0,
        (forall|i: int| 0 <= i < t.len() ==> t[i] != pat[0])
            || (!crate::text::contains(t, pat) && one_line(pat) && z.len() > 0 && z[0] == '\n'),
    ensures
        crate::text::find(t + z, pat) == (match crate::text::find(z, pat) {
            Some(k) => Some(t.len() + k),
            None => None,
        }),
{
    let s = t + z;
    let tl = t.len() as int;
    crate::text::lemma_find_from(t, pat, 0);
    assert forall|j: int| 0 <= j < tl implies !crate::text::matches_at(s, pat, j) by {
        if crate::text::matches_at(s, pat, j) {
            assert(s.subrange(j, j + pat.len())[0] == s[j]);
            assert(s[j] == t[j]);
            if forall|i: int| 0 <= i < t.len() ==> t[i] != pat[0] {
                assert(t[j] != pat[0]);
            } else if j + pat.len() <= tl {
                assert(t.subrange(j, j + pat.len()) =~= s.subrange(j, j + pat.len()));
                assert(crate::text::matches_at(t, pat, j));
            } else {
                assert(s.subrange(j, j + pat.len())[tl - j] == s[tl]);
                assert(s[tl] == z[0]);
            }
        }
    }
    assert forall|j: int| tl <= j implies crate::text::matches_at(s, pat, j) == crate::text::matches_at(z, pat, j - tl) by {
        if j + pat.len() <= s.len() {
            assert(s.subrange(j, j + pat.len()) =~= z.subrange(j - tl, j - tl + pat.len()));
        }
    }
    crate::text::lemma_find_from(z, pat, 0);
    crate::text::lemma_find_from(s, pat, 0);
    match crate::text::find(z, pat) {
        Some(k) => {
            assert(crate::text::matches_at(s, pat, tl + k));
            crate::text::lemma_find_from_is(s, pat, 0, tl + k);
        },
        None => {
            if crate::text::find(s, pat) is Some {
                let j = crate::text::find(s, pat)->0;
                assert(crate::text::matches_at(s, pat, j));
                assert(!crate::text::matches_at(z, pat, j - tl));
            }
        },
    }
}

/// A text made of the heading, a newline and more: the heading is found at
/// its start and its section starts after that newline.
proof fn lemma_heading_start(r: Seq<char>)
    ensures
        crate::text::find(log_heading() + "\n"@ + r, log_heading()) == Some(0int),
        crate::page::section_start(log_heading() + "\n"@ + r, 0) == 16,
        crate::text::find_char(log_heading() + "\n"@ + r, '\n') == Some(15int),
{
    reveal_strlit("## Decision log");
    reveal_strlit("\n");
    let s = log_heading() + "\n"@ + r;
    assert(s.subrange(0, 15) =~= log_heading());
    crate::text::lemma_find_from_is(s, log_heading(), 0, 0);
    assert(s.skip(0) =~= s);
    lemma_find_char_from(s, '\n', 0);
    assert forall|j: int| 0 <= j < 15 implies s[j] != '\n' by {
        assert(s[j] == log_heading()[j]);
    }
    assert(s[15] == '\n');
    assert(crate::text::find_char(s, '\n') == Some(15int));
}

/// A page whose decision log heading is at `pos`, followed by a newline and
/// `y`, a bullet, and a closing text, has the bullet last in its log.
proof fn lemma_log_from_heading(c: Seq<char>, pos: int, y: Seq<char>, d: Seq<char>, e: Seq<char>, z: Seq<char>)
    requires
        0 <= pos,
        crate::text::find(c, log_heading()) == Some(pos),
        crate::page::section_start(c, pos) <= c.len(),
        c.skip(crate::page::section_start(c, pos)) == y + dated_bullet(d, e) + z,
        lead_in(y),
        date_shaped(d),
        entry_shaped(e),
        z == "\n"@ || (exists|w: Seq<char>| crate::text::starts_with(w, "## "@) && z == "\n\n"@ + w),
    ensures
        log_has_entry(c, e),
        log_bullets(c).len() > 0,
        log_bullets(c).last() == d + ": "@ + e,
        log_bullets(c) == dash_items(lines(y)).push(d + ": "@ + e),
{
    reveal_strlit("- ");
    reveal_strlit(": ");
    reveal_strlit("\n");
    reveal_strlit("\n\n");
    let b = dated_bullet(d, e);
    assert(b[0] == '-');
    assert forall|i: int| 0 <= i < b.len() implies b[i] != '\n' by {
        if i >= 14 {
            assert(b[i] == e[i - 14]);
        } else if i >= 2 && i < 12 {
            assert(b[i] == d[i - 2]);
            if i - 2 == 4 || i - 2 == 7 {
            } else {
                assert(crate::text::is_ascii_digit(d[i - 2]));
            }
        }
    }
    let rest = c.skip(crate::page::section_start(c, pos));
    let sect = y + b + "\n"@;
    if z == "\n"@ {
        lemma_find_after_bullet(y, b, seq![]);
        assert(rest == sect);
        assert(rest.take(rest.len() as int) =~= sect);
    } else {
        let w = choose|w: Seq<char>| crate::text::starts_with(w, "## "@) && z == "\n\n"@ + w;
        lemma_find_after_bullet(y, b, w);
        assert(rest =~= y + b + "\n\n"@ + w);
        assert(rest.take(y.len() + b.len() + 1int) =~= sect);
    }
    assert(log_bullets(c) == dash_items(lines(sect)));
    lemma_section_entry(y, d, e);
    let items = log_bullets(c);
    assert(without_date(items[items.len() - 1]) == e);
}

/// A text that holds no decision log heading, followed by a blank line, the
/// heading, a blank line and a filed bullet, has the bullet in its log.
proof fn lemma_log_after_splice(t: Seq<char>, d: Seq<char>, e: Seq<char>, z: Seq<char>)
    requires
        !crate::text::contains(t, log_heading()),
        date_shaped(d),
        entry_shaped(e),
        z == "\n"@ || (exists|w: Seq<char>| crate::text::starts_with(w, "## "@) && z == "\n\n"@ + w),
    ensures
        log_has_entry(t + "\n\n"@ + log_heading() + "\n"@ + "\n"@ + dated_bullet(d, e) + z, e),
        log_bullets(t + "\n\n"@ + log_heading() + "\n"@ + "\n"@ + dated_bullet(d, e) + z).len() > 0,
        log_bullets(t + "\n\n"@ + log_heading() + "\n"@ + "\n"@ + dated_bullet(d, e) + z).last() == d + ": "@ + e,
        log_bullets(t + "\n\n"@ + log_heading() + "\n"@ + "\n"@ + dated_bullet(d, e) + z) == seq![d + ": "@ + e],
{
    reveal_strlit("## Decision log");
    reveal_strlit("\n");
    reveal_strlit("\n\n");
    let h = log_heading();
    let r = "\n"@ + dated_bullet(d, e) + z;
    let c = t + "\n\n"@ + h + "\n"@ + "\n"@ + dated_bullet(d, e) + z;
    let tail = h + "\n"@ + r;
    assert(c =~= t + ("\n\n"@ + tail));
    lemma_heading_start(r);
    lemma_find_shift(seq!['\n', '\n'], tail, h);
    assert(seq!['\n', '\n'] =~= "\n\n"@);
    assert(h[0] == '#');
    assert forall|i: int| 0 <= i < h.len() implies h[i] != '\n' by {}
    lemma_find_shift(t, "\n\n"@ + tail, h);
    let pos: int = t.len() + 2int;
    assert(crate::text::find(c, h) == Some(pos));
    assert(c.skip(pos) =~= tail);
    assert(crate::page::section_start(c, pos) == pos + 16);
    assert(c.skip(pos + 16) =~= "\n"@ + dated_bullet(d, e) + z);
    assert(lead_in("\n"@)) by {
        reveal_strlit("\n## ");
        assert("\n"@.drop_last() =~= Seq::<char>::empty());
        assert(next_heading().len() == 4);
    }
    lemma_log_from_heading(c, pos, "\n"@, d, e, z);
    lemma_newlines_no_items("\n"@, 0);
    assert(Seq::<Seq<char>>::empty().push(d + ": "@ + e) =~= seq![d + ": "@ + e]);
}

/// A prefix of a text without a match holds none either.
proof fn lemma_prefix_no_match(c: Seq<char>, q: int, pat: Seq<char>)
    requires
        0 <= q <= c.len(),
        !crate::text::contains(c, pat),
    ensures
        !crate::text::contains(c.take(q), pat),
{
    if crate::text::contains(c.take(q), pat) {
        crate::text::lemma_contains_within(seq![], c.take(q), c.skip(q), pat);
        assert(Seq::<char>::empty() + c.take(q) + c.skip(q) =~= c);
    }
}

/// A page that has a decision log, with a bullet filed at the end of that
/// section, has the bullet in its log.
#[verifier::rlimit(100)]
#[verifier::spinoff_prover]
proof fn lemma_log_after_append(c: Seq<char>, d: Seq<char>, e: Seq<char>)
    requires
        crate::text::contains(c, log_heading()),
        date_shaped(d),
        entry_shaped(e),
    ensures
        log_has_entry(crate::page::bullet_at_section_end(c, log_heading(), dated_bullet(d, e)), e),
        log_bullets(crate::page::bullet_at_section_end(c, log_heading(), dated_bullet(d, e))).len() > 0,
        log_bullets(crate::page::bullet_at_section_end(c, log_heading(), dated_bullet(d, e))).last() == d + ": "@ + e,
        log_bullets(crate::page::bullet_at_section_end(c, log_heading(), dated_bullet(d, e))) == log_bullets(c).push(d + ": "@ + e),
{
    reveal_strlit("## Decision log");
    reveal_strlit("\n## ");
    reveal_strlit("\n");
    reveal_strlit("\n\n");
    reveal_strlit("## ");
    let h = log_heading();
    let n = next_heading();
    let b = dated_bullet(d, e);
    crate::text::lemma_find_from(c, h, 0);
    let pos = crate::text::find(c, h)->0;
    assert(c.subrange(pos, pos + 15) == h);
    assert forall|i: int| pos <= i < pos + 15 implies c[i] != '\n' by {
        assert(c[i] == c.subrange(pos, pos + 15)[i - pos]);
    }
    let cp = c.skip(pos);
    lemma_find_char_from(cp, '\n', 0);
    let ss = crate::page::section_start(c, pos);
    let nl = crate::text::find_char(cp, '\n');
    assert forall|i: int| pos <= i < c.len() && (nl is None || i < pos + nl->0) implies c[i] != '\n' by {
        assert(cp[i - pos] == c[i]);
    }
    if nl is Some {
        assert(cp[nl->0] == c[pos + nl->0]);
        assert(nl->0 >= 15);
    }
    let rest = c.skip(ss);
    crate::text::lemma_find_from(rest, n, 0);
    let found = crate::text::find(rest, n);
    let x = match found {
        Some(p) => c.take(ss + p + 1),
        None => c,
    };
    if found is Some {
        let p = found->0;
        assert(rest.subrange(p, p + 4) == n);
        assert(rest.subrange(p, p + 4)[0] == c[ss + p]);
        assert(x[ss + p] == '\n');
        assert(ss + p + 1 <= c.len());
    }
    crate::text::lemma_rskip_char(x, '\n', x.len() as int);
    let q = crate::text::rskip_char(x, '\n', x.len() as int);
    // The trimmed text keeps the heading's line.
    if nl is Some {
        let k = ss - 2;
        assert(pos <= k < pos + nl->0);
        assert(x[k] == c[k]);
        assert(q >= ss - 1);
    } else {
        assert(ss == c.len());
        assert(found is None);
        assert(c.len() >= pos + 15);
        assert(x[x.len() - 1] == c[c.len() - 1]);
        assert(q == c.len());
    }
    assert(q >= pos + 15);
    let t = x.take(q);
    let z = match found {
        Some(p) => "\n\n"@ + c.skip(ss + p + 1),
        None => "\n"@,
    };
    let c2 = crate::page::bullet_at_section_end(c, h, b);
    assert(c2 =~= t + "\n"@ + b + z);
    assert forall|i: int| 0 <= i < q implies c2[i] == #[trigger] c[i] by {
        assert(c2[i] == t[i]);
        assert(t[i] == x[i]);
    }
    assert(c2[q] == '\n');
    // The heading is found where it was.
    crate::text::lemma_find_from(c2, h, 0);
    assert(c2.subrange(pos, pos + 15) =~= c.subrange(pos, pos + 15));
    assert forall|j: int| 0 <= j < pos implies !crate::text::matches_at(c2, h, j) by {
        if crate::text::matches_at(c2, h, j) {
            assert(c2.subrange(j, j + 15) =~= c.subrange(j, j + 15));
            assert(crate::text::matches_at(c, h, j));
        }
    }
    crate::text::lemma_find_from_is(c2, h, 0, pos);
    // The section starts after the first newline past the heading.
    let f = if nl is Some && ss - 1 < q { ss - 1 } else { q };
    assert(c2[f] == '\n');
    let cp2 = c2.skip(pos);
    assert forall|j: int| 0 <= j < f - pos implies cp2[j] != '\n' by {
        assert(cp2[j] == c2[pos + j]);
        assert(c2[pos + j] == c[pos + j]);
    }
    assert(cp2[f - pos] == c2[f]);
    lemma_find_char_from(cp2, '\n', 0);
    assert(crate::text::find_char(cp2, '\n') == Some(f - pos));
    assert(crate::page::section_start(c2, pos) == f + 1);
    let y = c2.subrange(f + 1, q + 1);
    assert(c2.skip(f + 1) =~= y + b + z);
    assert(lead_in(y)) by {
        if y.len() > 0 {
            assert(y.last() == c2[q]);
            let yd = y.drop_last();
            assert(yd =~= c.subrange(ss, q));
            assert forall|i: int| !crate::text::matches_at(yd, n, i) by {
                if crate::text::matches_at(yd, n, i) {
                    assert(yd.subrange(i, i + 4) =~= rest.subrange(i, i + 4));
                    assert(crate::text::matches_at(rest, n, i));
                    if found is Some {
                        assert(q <= ss + found->0);
                        assert(i < found->0);
                    }
                }
            }
        }
    }
    if found is Some {
        let p = found->0;
        let w = c.skip(ss + p + 1);
        assert(crate::text::starts_with(w, "## "@)) by {
            assert forall|m: int| 0 <= m < 3 implies w.take(3)[m] == "## "@[m] by {
                assert(w[m] == c[ss + p + 1 + m]);
                assert(rest.subrange(p, p + 4)[m + 1] == c[ss + p + 1 + m]);
            }
            assert(w.take(3) =~= "## "@);
        }
        assert(z == "\n\n"@ + w);
    }
    lemma_log_from_heading(c2, pos, y, d, e, z);
    lemma_log_before(c, c2, pos, x, q, f);
}

/// The log a page had is what stands before the bullet filed at the end of
/// its section: `x` is the page up to the next heading's line (all of it
/// when there is none), `q` where its trailing newlines begin.
proof fn lemma_log_before(c: Seq<char>, c2: Seq<char>, pos: int, x: Seq<char>, q: int, f: int)
    requires
        0 <= pos,
        crate::text::find(c, log_heading()) == Some(pos),
        pos <= crate::page::section_start(c, pos) <= c.len(),
        x == (match crate::text::find(c.skip(crate::page::section_start(c, pos)), next_heading()) {
            Some(p) => c.take(crate::page::section_start(c, pos) + p + 1),
            None => c,
        }),
        q == crate::text::rskip_char(x, '\n', x.len() as int),
        0 <= q < c2.len(),
        forall|i: int| 0 <= i < q ==> c2[i] == c[i],
        c2[q] == '\n',
        (f == crate::page::section_start(c, pos) - 1 && crate::page::section_start(c, pos) <= q)
            || (f == q && (q <= crate::page::section_start(c, pos) || crate::page::section_start(c, pos) == c.len())),
    ensures
        log_bullets(c) == dash_items(lines(c2.subrange(f + 1, q + 1))),
{
    reveal_strlit("\n");
    reveal_strlit("\n## ");
    reveal_strlit("## Decision log");
    let ss = crate::page::section_start(c, pos);
    let rest = c.skip(ss);
    crate::text::lemma_find_from(rest, next_heading(), 0);
    let end = match crate::text::find(rest, "\n## "@) {
        Some(p) => p,
        None => rest.len() as int,
    };
    assert(log_bullets(c) == dash_items(lines(rest.take(end))));
    assert(rest.take(end) =~= c.subrange(ss, ss + end));
    crate::text::lemma_rskip_char(x, '\n', x.len() as int);
    if crate::text::find(rest, "\n## "@) is Some {
        assert(rest.subrange(end, end + 4) == next_heading());
        assert(rest.subrange(end, end + 4)[0] == c[ss + end]);
        assert(x.len() == ss + end + 1);
        assert(x[ss + end] == '\n');
    }
    assert(q <= ss + end || ss + end == x.len() - 1 || ss + end == x.len());
    assert forall|k: int| q <= k < ss + end implies c[k] == '\n' by {
        assert(x[k] == c[k]);
    }
    let y = c2.subrange(f + 1, q + 1);
    if f == ss - 1 && ss <= q {
        assert(q <= ss + end);
        assert(y =~= c.subrange(ss, q) + "\n"@) by {
            assert forall|k: int| 0 <= k < q - ss implies y[k] == c[ss + k] by {
                assert(y[k] == c2[ss + k]);
            }
        }
        lemma_old_log(c, ss, end, q, y);
    } else {
        assert(y.len() == 0);
        lemma_old_log(c, ss, end, q, y);
    }
}

/// The items of the old section are those before the filed bullet: the
/// section's text up to `q` and then only newlines.
proof fn lemma_old_log(c: Seq<char>, ss: int, end: int, q: int, y: Seq<char>)
    requires
        0 <= ss,
        0 <= end,
        ss + end <= c.len(),
        forall|k: int| q <= k < ss + end ==> c[k] == '\n',
        (ss <= q <= ss + end && y == c.subrange(ss, q) + "\n"@) || (y.len() == 0 && (q <= ss || end == 0)),
    ensures
        dash_items(lines(y)) == dash_items(lines(c.subrange(ss, ss + end))),
{
    if ss <= q <= ss + end && y == c.subrange(ss, q) + "\n"@ {
        let u = c.subrange(ss, q);
        let t = c.subrange(q, ss + end);
        assert(c.subrange(ss, ss + end) =~= u + t);
        lemma_items_trailing_newlines(u, t);
        lemma_items_final_newline(u);
    } else {
        let t = c.subrange(ss, ss + end);
        assert forall|j: int| 0 <= j < t.len() implies t[j] == '\n' by {
            assert(t[j] == c[ss + j]);
        }
        let u = Seq::<char>::empty();
        assert(u + t =~= t);
        lemma_items_trailing_newlines(u, t);
        assert(y =~= u);
    }
}

/// The front of a new decision page, up to the blank line before its log.
proof fn lemma_new_page_front(title: Seq<char>, now: Seq<char>)
    requires
        !crate::text::contains(title, log_heading()),
        !crate::text::contains(now, log_heading()),
    ensures
        !crate::text::contains(
            "---\nsumma: entity\ntitle: "@ + title + "\ncreated: "@ + now + "\nupdated: "@ + now + "\n---\n\n"@
                + crate::page::lede_placeholder(),
            log_heading(),
        ),
{
    reveal_strlit("## Decision log");
    reveal_strlit("---\nsumma: entity\ntitle: ");
    reveal_strlit("\ncreated: ");
    reveal_strlit("\nupdated: ");
    reveal_strlit("\n---\n\n");
    reveal_strlit("_Lede: what this is, in a line or two._");
    let h = log_heading();
    assert(h[0] == '#');
    assert forall|i: int| 0 <= i < h.len() implies h[i] != '\n' by {}
    let l1 = "---\nsumma: entity\ntitle: "@;
    let l2 = "\ncreated: "@;
    let l3 = "\nupdated: "@;
    let l4 = "\n---\n\n"@ + crate::page::lede_placeholder();
    assert forall|i: int| 0 <= i < l1.len() implies l1[i] != h[0] by {}
    assert forall|i: int| 0 <= i < l2.len() implies l2[i] != h[0] by {}
    assert forall|i: int| 0 <= i < l3.len() implies l3[i] != h[0] by {}
    assert forall|i: int| 0 <= i < l4.len() implies l4[i] != h[0] by {}
    crate::text::lemma_find_from(l4, h, 0);
    if crate::text::find(l4, h) is Some {
        let k = crate::text::find(l4, h)->0;
        assert(l4.subrange(k, k + h.len())[0] == l4[k]);
    }
    assert(crate::text::find(l4, h) is None);
    let a4 = now + l4;
    lemma_find_shift(now, l4, h);
    let a3 = l3 + a4;
    lemma_find_shift(l3, a4, h);
    let a2 = now + a3;
    lemma_find_shift(now, a3, h);
    let a1 = l2 + a2;
    lemma_find_shift(l2, a2, h);
    let a0 = title + a1;
    lemma_find_shift(title, a1, h);
    lemma_find_shift(l1, a0, h);
    assert(l1 + a0 =~= l1 + title + l2 + now + l3 + now + "\n---\n\n"@ + crate::page::lede_placeholder());
}

/// The page after a decision entry was filed (as it was when nothing was
/// written).
pub open spec fn after_decision(existing: Option<Seq<char>>, title: Seq<char>, entry: Seq<char>, date: Seq<char>, now: Seq<char>) -> Option<Seq<char>> {
    match decision_step(existing, title, Some(entry), date, now).0 {
        Some(c) => Some(c),
        None => existing,
    }
}

// ---------------------------------------------------------------------------
// The log does not see the frontmatter
// ---------------------------------------------------------------------------

/// The part of a page before its body: its frontmatter block, or nothing
/// when it has none.
pub open spec fn front(x: Seq<char>) -> Seq<char> {
    x.take(x.len() - crate::frontmatter::split_fm(x).1.len())
}

/// The frontmatter block that setting `updated:` to `now` writes.
pub open spec fn stamped_front(x: Seq<char>, now: Seq<char>) -> Seq<char> {
    let ls = lines(crate::frontmatter::split_fm(x).0->0);
    "---\n"@ + join(Seq::new(ls.len(), |i: int| crate::page::set_field_line(ls[i], "updated"@, now)), "\n"@)
        + "\n---\n\n"@
}

/// A page is its front followed by its body; a frontmatter block ends in
/// `-` or a newline.
proof fn lemma_front(x: Seq<char>)
    ensures
        crate::frontmatter::split_fm(x).1.len() <= x.len(),
        x == front(x) + crate::frontmatter::split_fm(x).1,
        front(x).len() == 0 || front(x).last() == '-' || front(x).last() == '\n',
        crate::frontmatter::split_fm(x).0 is None ==> front(x).len() == 0,
{
    reveal_strlit("---");
    reveal_strlit("\n---");
    let body = crate::frontmatter::split_fm(x).1;
    if starts_with(x, "---"@) {
        let x3 = x.skip(3);
        crate::text::lemma_skip_char(x3, '\n', 0);
        let k1 = crate::text::skip_char(x3, '\n', 0);
        let a = x3.skip(k1);
        crate::text::lemma_find_from(a, "\n---"@, 0);
        match crate::text::find(a, "\n---"@) {
            Some(p) => {
                let a4 = a.skip(p + 4);
                crate::text::lemma_skip_char(a4, '\n', 0);
                let k2 = crate::text::skip_char(a4, '\n', 0);
                let n = 3 + k1 + p + 4 + k2;
                assert(body =~= x.skip(n));
                assert(x =~= x.take(n) + x.skip(n));
                if k2 > 0 {
                    assert(x[n - 1] == a4[k2 - 1]);
                } else {
                    assert(a.subrange(p, p + 4)[3] == '-');
                    assert(x[n - 1] == a[p + 3]);
                }
            },
            None => {
                assert(x.take(0) =~= Seq::<char>::empty());
                assert(x =~= Seq::<char>::empty() + x);
            },
        }
    } else {
        assert(x =~= Seq::<char>::empty() + x);
    }
}

/// A text with no heading, ending in `-` or a newline, in front of another
/// leaves the log of the other as it is.
proof fn lemma_log_behind(p: Seq<char>, z: Seq<char>)
    requires
        !crate::text::contains(p, log_heading()),
        p.len() == 0 || p.last() == '-' || p.last() == '\n',
    ensures
        log_bullets(p + z) == log_bullets(z),
{
    reveal_strlit("## Decision log");
    let h = log_heading();
    let c = p + z;
    let n = p.len() as int;
    assert forall|j: int| 0 <= j < n implies !crate::text::matches_at(c, h, j) by {
        if crate::text::matches_at(c, h, j) {
            if j + 15 <= n {
                assert(p.subrange(j, j + 15) =~= c.subrange(j, j + 15));
                crate::text::lemma_contains_at(p, h, j);
            } else {
                assert(c.subrange(j, j + 15)[n - 1 - j] == c[n - 1]);
                assert(c[n - 1] == p.last());
                assert(h[n - 1 - j] == p.last());
            }
        }
    }
    assert forall|j: int| n <= j implies crate::text::matches_at(c, h, j) == crate::text::matches_at(z, h, j - n) by {
        if j + 15 <= c.len() {
            assert(c.subrange(j, j + 15) =~= z.subrange(j - n, j - n + 15));
        }
    }
    crate::text::lemma_find_from(z, h, 0);
    crate::text::lemma_find_from(c, h, 0);
    match crate::text::find(z, h) {
        Some(pos) => {
            crate::text::lemma_find_from_is(c, h, 0, pos + n);
            assert(c.skip(pos + n) =~= z.skip(pos));
            lemma_find_char_from(z.skip(pos), '\n', 0);
            assert(pos <= crate::page::section_start(z, pos) <= z.len());
            assert(crate::page::section_start(c, pos + n) == crate::page::section_start(z, pos) + n);
            assert(c.skip(crate::page::section_start(c, pos + n)) =~= z.skip(crate::page::section_start(z, pos)));
        },
        None => {
            if crate::text::find(c, h) is Some {
                let k = crate::text::find(c, h)->0;
                assert(crate::text::matches_at(z, h, k - n));
            }
        },
    }
}

/// Setting `updated:` leaves the log as it was when neither the
/// frontmatter block before nor the one after holds the log heading.
proof fn lemma_stamp_keeps_log(e: Seq<char>, now: Seq<char>)
    requires
        !crate::text::contains(front(e), log_heading()),
        crate::frontmatter::split_fm(e).0 is Some ==> !crate::text::contains(stamped_front(e, now), log_heading()),
    ensures
        log_bullets(crate::page::with_field(e, "updated"@, now)) == log_bullets(e),
{
    reveal_strlit("\n---\n\n");
    lemma_front(e);
    let body = crate::frontmatter::split_fm(e).1;
    lemma_log_behind(front(e), body);
    if crate::frontmatter::split_fm(e).0 is Some {
        let sf = stamped_front(e, now);
        assert(crate::page::with_field(e, "updated"@, now) =~= sf + body);
        assert(sf.last() == '\n');
        lemma_log_behind(sf, body);
    }
}

/// The log of the page a decision is filed on, once its `updated:` stamp is
/// set to `now`: empty when there is no page yet.
pub open spec fn stamped_log(existing: Option<Seq<char>>, now: Seq<char>) -> Seq<Seq<char>> {
    match existing {
        None => seq![],
        Some(e) => log_bullets(crate::page::with_field(e, "updated"@, now)),
    }
}

/// Filing an entry that is not in the log yet: a page is written, and its
/// log holds the entry, last.
#[verifier::rlimit(60)]
#[verifier::spinoff_prover]
proof fn lemma_filed(
    existing: Option<Seq<char>>,
    title: Seq<char>,
    entry: Seq<char>,
    date: Seq<char>,
    now: Seq<char>,
)
    requires
        date_shaped(date),
        folded_entry(entry).len() > 0,
        existing is None ==> !crate::text::contains(title, log_heading()) && !crate::text::contains(now, log_heading()),
    ensures
        after_decision(existing, title, entry, date, now) is Some,
        log_has_entry(after_decision(existing, title, entry, date, now)->0, folded_entry(entry)),
        decision_step(existing, title, Some(entry), date, now).1 ==> log_bullets(after_decision(existing, title, entry, date, now)->0)
            == stamped_log(existing, now).push(date + ": "@ + folded_entry(entry)),
{
    reveal_strlit("## Decision log");
    reveal_strlit("\n\n## Decision log\n\n");
    reveal_strlit("\n\n");
    reveal_strlit("\n");
    reveal_strlit("## ");
    reveal_strlit("## Mentions");
    let ne = folded_entry(entry);
    lemma_folded_shaped(entry);
    let h = log_heading();
    let b = dated_bullet(date, ne);
    match existing {
        None => {
            lemma_new_page_front(title, now);
            let p0 = "---\nsumma: entity\ntitle: "@ + title + "\ncreated: "@ + now + "\nupdated: "@ + now + "\n---\n\n"@
                + crate::page::lede_placeholder();
            let w = "## Mentions\n\n"@;
            reveal_strlit("## Mentions\n\n");
            assert(w.take(3) =~= "## "@);
            let z = "\n\n"@ + w;
            lemma_log_after_splice(p0, date, ne, z);
            reveal_strlit("---\nsumma: entity\ntitle: ");
            reveal_strlit("\ncreated: ");
            reveal_strlit("\nupdated: ");
            reveal_strlit("\n---\n\n");
            reveal_strlit("\n\n## Decision log\n\n- ");
            reveal_strlit(": ");
            reveal_strlit("- ");
            reveal_strlit("\n\n## Mentions\n\n");
            assert(crate::page::new_decision_page(title, date, ne, now) =~= p0 + "\n\n"@ + h + "\n"@ + "\n"@ + b + z);
        },
        Some(e) => {
            if !crate::page::log_has_entry(e, ne) {
                let c = crate::page::with_field(e, "updated"@, now);
                if crate::text::contains(c, h) {
                    lemma_log_after_append(c, date, ne);
                    assert(crate::page::with_decision(e, date, ne, now) == crate::page::bullet_at_section_end(c, h, b));
                } else {
                    crate::text::lemma_find_from(c, h, 0);
                    assert(log_bullets(c) =~= Seq::<Seq<char>>::empty());
                    match crate::text::find(c, "## Mentions"@) {
                        Some(mp) => {
                            crate::text::lemma_find_from(c, "## Mentions"@, 0);
                            let w = c.skip(mp);
                            assert(w.take(3) =~= "## "@) by {
                                assert forall|m: int| 0 <= m < 3 implies w.take(3)[m] == "## "@[m] by {
                                    assert(c.subrange(mp, mp + 11)[m] == w[m]);
                                }
                            }
                            let cm = c.take(mp);
                            lemma_prefix_no_match(c, mp, h);
                            crate::text::lemma_rskip_char(cm, '\n', cm.len() as int);
                            let t = crate::text::trim_end_char(cm, '\n');
                            lemma_prefix_no_match(cm, crate::text::rskip_char(cm, '\n', cm.len() as int), h);
                            lemma_log_after_splice(t, date, ne, "\n\n"@ + w);
                            assert(crate::page::with_decision(e, date, ne, now) =~= t + "\n\n"@ + h + "\n"@ + "\n"@ + b + ("\n\n"@ + w));
                        },
                        None => {
                            crate::text::lemma_rskip_char(c, '\n', c.len() as int);
                            let t = crate::text::trim_end_char(c, '\n');
                            lemma_prefix_no_match(c, crate::text::rskip_char(c, '\n', c.len() as int), h);
                            lemma_log_after_splice(t, date, ne, "\n"@);
                            assert(crate::page::with_decision(e, date, ne, now) =~= t + "\n\n"@ + h + "\n"@ + "\n"@ + b + "\n"@);
                        },
                    }
                }
            }
        },
    }
}


/// Filing a decision entry is idempotent: once an entry has been filed on
/// an entity page, new or existing, under a `YYYY-MM-DD` date, filing the
/// same entry again, at any later time and under any date, appends nothing.
/// The entry must not be blank, and a new page's title and time stamp must
/// not themselves hold the `## Decision log` heading.
pub proof fn lemma_decision_dedup(
    existing: Option<Seq<char>>,
    title: Seq<char>,
    entry: Seq<char>,
    date: Seq<char>,
    now: Seq<char>,
    date2: Seq<char>,
    later: Seq<char>,
)
    requires
        date_shaped(date),
        folded_entry(entry).len() > 0,
        existing is None ==> !crate::text::contains(title, log_heading()) && !crate::text::contains(now, log_heading()),
    ensures
        after_decision(existing, title, entry, date, now) is Some,
        !decision_step(after_decision(existing, title, entry, date, now), title, Some(entry), date2, later).1,
{
    lemma_filed(existing, title, entry, date, now);
}

/// The log of a page before a decision is filed on it: empty when there is
/// no page yet.
pub open spec fn log_of(existing: Option<Seq<char>>) -> Seq<Seq<char>> {
    match existing {
        None => seq![],
        Some(e) => log_bullets(e),
    }
}

/// Filing a decision makes it the newest entry and keeps the rest: when an
/// entry that is not yet in the log is filed on an entity page, new or
/// existing, under a `YYYY-MM-DD` date, a line is appended, and the page's
/// log, newest first (as `decision_log` lists it), is `date: entry` (the
/// entry folded onto one line) followed by the log the page had, in its
/// order. The entry must not be blank; a new page's title and time stamp,
/// and an existing page's frontmatter block before and after its `updated:`
/// stamp is set, must not themselves hold the `## Decision log` heading.
pub proof fn lemma_decision_log_grows(
    existing: Option<Seq<char>>,
    title: Seq<char>,
    entry: Seq<char>,
    date: Seq<char>,
    now: Seq<char>,
)
    requires
        date_shaped(date),
        folded_entry(entry).len() > 0,
        existing is None ==> !crate::text::contains(title, log_heading()) && !crate::text::contains(now, log_heading()),
        existing matches Some(e) ==> {
            &&& !log_has_entry(e, folded_entry(entry))
            &&& !crate::text::contains(front(e), log_heading())
            &&& crate::frontmatter::split_fm(e).0 is Some ==> !crate::text::contains(stamped_front(e, now), log_heading())
        },
    ensures
        decision_step(existing, title, Some(entry), date, now).1,
        decision_step(existing, title, Some(entry), date, now).0 matches Some(after)
            && log_bullets(after).reverse() == seq![date + ": "@ + folded_entry(entry)] + log_of(existing).reverse(),
{
    lemma_filed(existing, title, entry, date, now);
    if let Some(e) = existing {
        lemma_stamp_keeps_log(e, now);
    }
    let item = date + ": "@ + folded_entry(entry);
    let before = log_of(existing);
    assert(stamped_log(existing, now) == before);
    assert(before.push(item).reverse() =~= seq![item] + before.reverse());
}

} // verus!
