//! Repeating a repair: once a file's malformed links have been rewritten,
//! or its links to a repairable target pointed at the page's title,
//! repairing the file again with the same repairs changes nothing.

use vstd::prelude::*;
use crate::lint::{apply_fixes, repair_changes, repaired_text, retarget};
use crate::text::{find_from, lemma_find_from, matches_at, replace_all, replace_from};

verus! {

/// No `[`, `]`, `|` or `#`: a link target that needs no escaping.
pub open spec fn plain(u: Seq<char>) -> bool {
    forall|i: int| 0 <= i < u.len() ==> u[i] != '[' && u[i] != ']' && u[i] != '|' && u[i] != '#'
}

/// What follows a link target in the forms a repair rewrites.
pub open spec fn link_tail(x: Seq<char>) -> bool {
    x == "]]"@ || x == "|"@ || x == "#"@
}

/// The start of a link to `u` in one of the rewritten forms.
pub open spec fn link_form(u: Seq<char>, x: Seq<char>) -> Seq<char> {
    "[["@ + u + x
}

/// `q` occurs nowhere in `s`.
pub open spec fn absent(s: Seq<char>, q: Seq<char>) -> bool {
    forall|j: int| !matches_at(s, q, j)
}

proof fn lemma_tail_chars(x: Seq<char>)
    requires
        link_tail(x),
    ensures
        x.len() > 0,
        x[0] == ']' || x[0] == '|' || x[0] == '#',
        forall|i: int| 0 <= i < x.len() ==> x[i] != '[',
{
    reveal_strlit("]]");
    reveal_strlit("|");
    reveal_strlit("#");
}

/// A link form never occurs across an inserted link form of another target
/// (or of another tail): each occurrence in `a + r + b` lies in `a` or in
/// `b`.
proof fn lemma_no_cross(a: Seq<char>, k: Seq<char>, x: Seq<char>, b: Seq<char>, u: Seq<char>, y: Seq<char>, j: int)
    requires
        plain(k),
        plain(u),
        link_tail(x),
        link_tail(y),
        !(u == k && x == y),
        matches_at(a + link_form(k, x) + b, link_form(u, y), j),
    ensures
        j + link_form(u, y).len() <= a.len() || j >= a.len() + link_form(k, x).len(),
{
    reveal_strlit("[[");
    lemma_tail_chars(x);
    lemma_tail_chars(y);
    let r = link_form(k, x);
    let q = link_form(u, y);
    let s = a + r + b;
    let m = a.len() as int;
    assert forall|i: int| 0 <= i < q.len() implies s[j + i] == q[i] by {
        assert(s.subrange(j, j + q.len())[i] == s[j + i]);
    }
    assert forall|i: int| 0 <= i < r.len() implies s[m + i] == r[i] by {}
    assert(q[0] == '[' && q[1] == '[');
    assert(r[0] == '[' && r[1] == '[');
    assert forall|i: int| 2 <= i < q.len() implies q[i] != '[' by {
        if i < 2 + u.len() {
            assert(q[i] == u[i - 2]);
        } else {
            assert(q[i] == y[i - 2 - u.len()]);
        }
    }
    assert forall|i: int| 2 <= i < r.len() implies r[i] != '[' by {
        if i < 2 + k.len() {
            assert(r[i] == k[i - 2]);
        } else {
            assert(r[i] == x[i - 2 - k.len()]);
        }
    }
    if j < m && j + q.len() > m {
        // The occurrence runs into the inserted form: the form's first `[`
        // is at position `m - j` of the occurrence.
        let d = m - j;
        assert(q[d] == r[0]);
        assert(d == 1);
        assert(q[2] == s[j + 2]);
        assert(s[m + 1] == r[1]);
    } else if m <= j < m + r.len() {
        let d = j - m;
        if d >= 1 {
            assert(s[j] == q[0]);
            assert(r[d] == '[');
            assert(d == 1);
            assert(s[j + 1] == q[1]);
            assert(s[m + 2] == r[2]);
        } else {
            // Both start with `[[`: the targets and tails must agree.
            let lu = u.len() as int;
            let lk = k.len() as int;
            if lu < lk {
                assert(q[2 + lu] == y[0]);
                assert(r[2 + lu] == k[lu]);
                assert(s[j + 2 + lu] == q[2 + lu]);
                assert(s[m + 2 + lu] == r[2 + lu]);
            } else if lu > lk {
                assert(q[2 + lk] == u[lk]);
                assert(r[2 + lk] == x[0]);
                assert(s[j + 2 + lk] == q[2 + lk]);
                assert(s[m + 2 + lk] == r[2 + lk]);
            } else if u != k {
                assert(u.len() == k.len());
                if forall|i: int| 0 <= i < lu ==> u[i] == k[i] {
                    assert(u =~= k);
                }
                let i = choose|i: int| 0 <= i < lu && u[i] != k[i];
                assert(q[2 + i] == u[i]);
                assert(r[2 + i] == k[i]);
                assert(s[j + 2 + i] == q[2 + i]);
                assert(s[m + 2 + i] == r[2 + i]);
            } else {
                assert(x != y);
                assert(x[0] != y[0]) by {
                    reveal_strlit("]]");
                    reveal_strlit("|");
                    reveal_strlit("#");
                }
                assert(q[2 + lu] == y[0]);
                assert(r[2 + lk] == x[0]);
                assert(s[j + 2 + lu] == q[2 + lu]);
                assert(s[m + 2 + lk] == r[2 + lk]);
            }
        }
    }
}

/// Rewriting the links to `t` as links to `k` leaves no link form `q`
/// behind: neither one that was absent before, nor the form rewritten.
proof fn lemma_replace_clean(s: Seq<char>, t: Seq<char>, k: Seq<char>, x: Seq<char>, u: Seq<char>, y: Seq<char>, pos: int)
    requires
        plain(t),
        plain(k),
        plain(u),
        link_tail(x),
        link_tail(y),
        t != k,
        !(u == k && x == y),
        0 <= pos <= s.len(),
        (u == t && y == x) || forall|j: int| j >= pos ==> !matches_at(s, link_form(u, y), j),
    ensures
        absent(replace_from(s, link_form(t, x), link_form(k, x), pos), link_form(u, y)),
    decreases s.len() - pos,
{
    reveal_strlit("[[");
    lemma_tail_chars(x);
    let p = link_form(t, x);
    let r = link_form(k, x);
    let q = link_form(u, y);
    lemma_find_from(s, p, pos);
    let out = replace_from(s, p, r, pos);
    match find_from(s, p, pos) {
        None => {
            assert(out == s.subrange(pos, s.len() as int));
            assert forall|j: int| !matches_at(out, q, j) by {
                if matches_at(out, q, j) {
                    assert(out.subrange(j, j + q.len()) =~= s.subrange(pos + j, pos + j + q.len()));
                    assert(matches_at(s, q, pos + j));
                }
            }
        },
        Some(i) => {
            let a = s.subrange(pos, i);
            let b = replace_from(s, p, r, i + p.len());
            lemma_replace_clean(s, t, k, x, u, y, i + p.len());
            assert(out == a + r + b);
            assert forall|j: int| !matches_at(out, q, j) by {
                if matches_at(out, q, j) {
                    lemma_no_cross(a, k, x, b, u, y, j);
                    if j + q.len() <= a.len() {
                        assert(out.subrange(j, j + q.len()) =~= s.subrange(pos + j, pos + j + q.len()));
                        assert(matches_at(s, q, pos + j));
                    } else {
                        let j2 = j - a.len() - r.len();
                        assert(out.subrange(j, j + q.len()) =~= b.subrange(j2, j2 + q.len()));
                        assert(matches_at(b, q, j2));
                    }
                }
            }
        },
    }
}

/// Rewriting a form that does not occur changes nothing.
proof fn lemma_replace_nothing(s: Seq<char>, p: Seq<char>, r: Seq<char>)
    requires
        p.len() > 0,
        absent(s, p),
    ensures
        replace_all(s, p, r) == s,
{
    lemma_find_from(s, p, 0);
    assert(find_from(s, p, 0) is None);
    assert(s.subrange(0, s.len() as int) =~= s);
}

proof fn lemma_replace_all_is_from(s: Seq<char>, t: Seq<char>, k: Seq<char>, x: Seq<char>)
    requires
        link_tail(x),
    ensures
        replace_all(s, link_form(t, x), link_form(k, x)) == replace_from(s, link_form(t, x), link_form(k, x), 0),
{
    reveal_strlit("[[");
}

/// Pointing the links to `t` at `k` leaves no link form of `t` behind, and
/// brings back none of another target that was gone.
proof fn lemma_retarget_clean(c: Seq<char>, t: Seq<char>, k: Seq<char>, u: Seq<char>, y: Seq<char>)
    requires
        plain(t),
        plain(k),
        plain(u),
        link_tail(y),
        t != k,
        u != k,
        u == t || absent(c, link_form(u, y)),
    ensures
        absent(retarget(c, t, k), link_form(u, y)),
{
    reveal_strlit("]]");
    reveal_strlit("|");
    reveal_strlit("#");
    let x1 = "]]"@;
    let x2 = "|"@;
    let x3 = "#"@;
    let s1 = replace_all(c, link_form(t, x1), link_form(k, x1));
    let s2 = replace_all(s1, link_form(t, x2), link_form(k, x2));
    let s3 = replace_all(s2, link_form(t, x3), link_form(k, x3));
    assert(retarget(c, t, k) == s3);
    lemma_replace_all_is_from(c, t, k, x1);
    lemma_replace_all_is_from(s1, t, k, x2);
    lemma_replace_all_is_from(s2, t, k, x3);
    if (u == t && y == x1) || absent(c, link_form(u, y)) {
        lemma_replace_clean(c, t, k, x1, u, y, 0);
    }
    if (u == t && y == x2) || absent(s1, link_form(u, y)) {
        lemma_replace_clean(s1, t, k, x2, u, y, 0);
    }
    if (u == t && y == x3) || absent(s2, link_form(u, y)) {
        lemma_replace_clean(s2, t, k, x3, u, y, 0);
    }
}

/// Every target and page title of the repair needs no escaping.
pub open spec fn all_plain(rs: Seq<(Seq<char>, Seq<char>, Seq<Seq<char>>)>) -> bool {
    forall|j: int| #![trigger rs[j]] 0 <= j < rs.len() ==> plain(rs[j].0) && plain(rs[j].1)
}

/// No page title of the repair is itself one of its targets.
pub open spec fn titles_apart(rs: Seq<(Seq<char>, Seq<char>, Seq<Seq<char>>)>) -> bool {
    forall|i: int, j: int| 0 <= i < rs.len() && 0 <= j < rs.len() ==> #[trigger] rs[i].1 != #[trigger] rs[j].0
}

/// No link form of a target that the file at `path` links to is left.
pub open spec fn targets_gone(f: Seq<char>, rs: Seq<(Seq<char>, Seq<char>, Seq<Seq<char>>)>, path: Seq<char>) -> bool {
    forall|j: int, y: Seq<char>| 0 <= j < rs.len() && rs[j].2.contains(path) && link_tail(y)
        ==> absent(f, #[trigger] link_form(rs[j].0, y))
}

proof fn lemma_repaired_clean(c: Seq<char>, rs: Seq<(Seq<char>, Seq<char>, Seq<Seq<char>>)>, path: Seq<char>)
    requires
        all_plain(rs),
        titles_apart(rs),
    ensures
        targets_gone(repaired_text(c, rs, path), rs, path),
    decreases rs.len(),
{
    if rs.len() > 0 {
        let pre = rs.drop_last();
        assert(all_plain(pre)) by {
            assert forall|j: int| #![trigger pre[j]] 0 <= j < pre.len() implies plain(pre[j].0) && plain(pre[j].1) by {
                assert(pre[j] == rs[j]);
            }
        }
        assert(titles_apart(pre)) by {
            assert forall|i: int, j: int| 0 <= i < pre.len() && 0 <= j < pre.len() implies #[trigger] pre[i].1 != #[trigger] pre[j].0 by {
                assert(pre[i] == rs[i]);
                assert(pre[j] == rs[j]);
            }
        }
        lemma_repaired_clean(c, pre, path);
        let prev = repaired_text(c, pre, path);
        let n = rs.len() - 1;
        let last = rs[n];
        assert(rs.last() == last);
        assert forall|j: int, y: Seq<char>| 0 <= j < rs.len() && rs[j].2.contains(path) && link_tail(y)
            implies absent(repaired_text(c, rs, path), #[trigger] link_form(rs[j].0, y)) by {
            assert(plain(rs[j].0) && plain(rs[j].1));
            assert(plain(rs[n].0) && plain(rs[n].1));
            assert(rs[j].0 != rs[n].1);
            assert(rs[n].0 != rs[n].1);
            if last.2.contains(path) {
                if j < n {
                    assert(pre[j] == rs[j]);
                }
                lemma_retarget_clean(prev, last.0, last.1, rs[j].0, y);
            } else {
                assert(j < n);
                assert(pre[j] == rs[j]);
            }
        }
    }
}

proof fn lemma_repaired_fixed(f: Seq<char>, rs: Seq<(Seq<char>, Seq<char>, Seq<Seq<char>>)>, path: Seq<char>)
    requires
        targets_gone(f, rs, path),
    ensures
        repaired_text(f, rs, path) == f,
        repair_changes(f, rs, path) == Seq::<Seq<char>>::empty(),
    decreases rs.len(),
{
    reveal_strlit("]]");
    reveal_strlit("|");
    reveal_strlit("#");
    reveal_strlit("[[");
    if rs.len() > 0 {
        let pre = rs.drop_last();
        let n = rs.len() - 1;
        assert(targets_gone(f, pre, path)) by {
            assert forall|j: int, y: Seq<char>| 0 <= j < pre.len() && pre[j].2.contains(path) && link_tail(y)
                implies absent(f, #[trigger] link_form(pre[j].0, y)) by {
                assert(pre[j] == rs[j]);
            }
        }
        lemma_repaired_fixed(f, pre, path);
        let last = rs[n];
        assert(rs.last() == last);
        if last.2.contains(path) {
            let t = last.0;
            let k = last.1;
            assert(link_tail("]]"@) && link_tail("|"@) && link_tail("#"@));
            assert(absent(f, link_form(rs[n].0, "]]"@)));
            assert(absent(f, link_form(rs[n].0, "|"@)));
            assert(absent(f, link_form(rs[n].0, "#"@)));
            lemma_replace_nothing(f, link_form(t, "]]"@), link_form(k, "]]"@));
            lemma_replace_nothing(f, link_form(t, "|"@), link_form(k, "|"@));
            lemma_replace_nothing(f, link_form(t, "#"@), link_form(k, "#"@));
            assert(retarget(f, t, k) == f);
        }
    }
}

/// Repairing the same links twice changes nothing the second time: once a
/// file's links to the repairable targets it links to have been pointed at
/// the pages' titles, repairing it again with the same targets gives the
/// same text and records no change. This holds when the targets and titles
/// hold no `[`, `]`, `|` or `#` and no title is itself one of the targets.
pub proof fn lemma_link_repair_twice(c: Seq<char>, rs: Seq<(Seq<char>, Seq<char>, Seq<Seq<char>>)>, path: Seq<char>)
    requires
        all_plain(rs),
        titles_apart(rs),
    ensures
        repaired_text(repaired_text(c, rs, path), rs, path) == repaired_text(c, rs, path),
        repair_changes(repaired_text(c, rs, path), rs, path) == Seq::<Seq<char>>::empty(),
{
    lemma_repaired_clean(c, rs, path);
    lemma_repaired_fixed(repaired_text(c, rs, path), rs, path);
}

// ---------------------------------------------------------------------------
// Malformed links
// ---------------------------------------------------------------------------

/// No `[` or `]`.
pub open spec fn bare(u: Seq<char>) -> bool {
    forall|i: int| 0 <= i < u.len() ==> u[i] != '[' && u[i] != ']'
}

/// `o[[u]]`.
pub open spec fn link_text(o: Seq<char>, u: Seq<char>) -> Seq<char> {
    o + "[["@ + u + "]]"@
}

/// What opens a link: `!` for an embed, else nothing.
pub open spec fn opener(r: Seq<char>) -> Seq<char> {
    if r.len() > 0 && r[0] == '!' {
        seq!['!']
    } else {
        seq![]
    }
}

/// The text between a link's `[[` and `]]`.
pub open spec fn inner(r: Seq<char>) -> Seq<char> {
    r.subrange(opener(r).len() + 2int, r.len() - 2int)
}

/// A link `[[u]]` or `![[u]]` whose inside holds no bracket.
pub open spec fn simple_link(r: Seq<char>) -> bool {
    &&& r.len() >= opener(r).len() + 4
    &&& r == link_text(opener(r), inner(r))
    &&& bare(inner(r))
}

/// A link form `o[[u]]` never occurs across an inserted `[[v]]` with a
/// different inside.
proof fn lemma_no_cross_link(a: Seq<char>, v: Seq<char>, b: Seq<char>, o: Seq<char>, u: Seq<char>, j: int)
    requires
        bare(u),
        bare(v),
        o == Seq::<char>::empty() || o == seq!['!'],
        u != v,
        matches_at(a + link_text(seq![], v) + b, link_text(o, u), j),
    ensures
        j + link_text(o, u).len() <= a.len() || j >= a.len() + link_text(seq![], v).len(),
{
    reveal_strlit("[[");
    reveal_strlit("]]");
    let r = link_text(seq![], v);
    let q = link_text(o, u);
    let s = a + r + b;
    let m = a.len() as int;
    let ob = o.len() as int;
    let lu = u.len() as int;
    let lv = v.len() as int;
    assert(r.len() == lv + 4);
    assert(q.len() == ob + lu + 4);
    assert forall|i: int| 0 <= i < q.len() implies s[j + i] == q[i] by {
        assert(s.subrange(j, j + q.len())[i] == s[j + i]);
    }
    assert forall|i: int| 0 <= i < r.len() implies s[m + i] == r[i] by {}
    assert(r[0] == '[' && r[1] == '[' && r[lv + 2] == ']' && r[lv + 3] == ']');
    assert(q[ob] == '[' && q[ob + 1] == '[' && q[ob + lu + 2] == ']' && q[ob + lu + 3] == ']');
    assert(ob == 1 ==> q[0] == '!');
    assert forall|i: int| 2 <= i < lv + 2 implies r[i] == v[i - 2] && r[i] != '[' && r[i] != ']' by {}
    assert forall|i: int| ob + 2 <= i < ob + lu + 2 implies q[i] == u[i - ob - 2] && q[i] != '[' && q[i] != ']' by {}
    if j < m && j + q.len() > m {
        let d = m - j;
        assert(q[d] == r[0]);
        assert(d == ob || d == ob + 1);
        if d == ob + 1 {
            assert(q[ob + 2] == s[j + ob + 2]);
            assert(s[m + 1] == r[1]);
        } else {
            // An embed whose `[[` is the inserted link's: the insides differ.
            lemma_same_inside(s, j + ob, m, u, v, q, r, ob);
        }
    } else if m <= j < m + r.len() {
        let d = j - m;
        if ob == 0 {
            assert(r[d] == q[0]);
            assert(d == 0 || d == 1);
            if d == 1 {
                assert(s[j + 1] == q[1]);
                assert(s[m + 2] == r[2]);
            } else {
                lemma_same_inside(s, j, m, u, v, q, r, 0);
            }
        } else {
            assert(r[d] == q[0]);
            assert(2 <= d < lv + 2);
            assert(s[j + 1] == q[1]);
            assert(s[m + d + 1] == r[d + 1]);
        }
    }
}

/// Two links `[[u]]` and `[[v]]` laid over each other from the same `[[`
/// have the same inside.
proof fn lemma_same_inside(s: Seq<char>, at_q: int, at_r: int, u: Seq<char>, v: Seq<char>, q: Seq<char>, r: Seq<char>, ob: int)
    requires
        at_q == at_r,
        bare(u),
        bare(v),
        0 <= ob,
        r.len() == v.len() + 4,
        q.len() == ob + u.len() + 4,
        forall|i: int| 0 <= i < q.len() - ob ==> s[at_q + i] == #[trigger] q[ob + i],
        forall|i: int| 0 <= i < r.len() ==> s[at_r + i] == #[trigger] r[i],
        forall|i: int| 2 <= i < v.len() + 2 ==> #[trigger] r[i] == v[i - 2],
        r[v.len() + 2int] == ']',
        forall|i: int| ob + 2 <= i < ob + u.len() + 2 ==> #[trigger] q[i] == u[i - ob - 2],
        q[ob + u.len() + 2int] == ']',
    ensures
        u == v,
{
    let lu = u.len() as int;
    let lv = v.len() as int;
    if lu < lv {
        let i = lu + 2;
        assert(s[at_q + i] == q[ob + i]);
        assert(s[at_r + lu + 2] == r[lu + 2]);
        assert(r[lu + 2] == v[lu]);
    } else if lu > lv {
        let i = lv + 2;
        assert(s[at_q + i] == q[ob + i]);
        assert(q[ob + lv + 2] == u[lv]);
        assert(s[at_r + lv + 2] == r[lv + 2]);
    } else {
        assert forall|i: int| 0 <= i < lu implies u[i] == v[i] by {
            let i2 = i + 2;
            assert(s[at_q + i2] == q[ob + i2]);
            assert(q[ob + i + 2] == u[i]);
            assert(s[at_r + i + 2] == r[i + 2]);
            assert(r[i + 2] == v[i]);
        }
        assert(u =~= v);
    }
}

/// Rewriting one simple link as another leaves no simple link `q` behind
/// whose inside differs from the new one's: neither one that was absent
/// before, nor the link rewritten.
proof fn lemma_replace_clean_link(s: Seq<char>, p: Seq<char>, r: Seq<char>, q: Seq<char>, pos: int)
    requires
        simple_link(p),
        simple_link(r),
        opener(r).len() == 0,
        simple_link(q),
        inner(q) != inner(r),
        0 <= pos <= s.len(),
        q == p || forall|j: int| j >= pos ==> !matches_at(s, q, j),
    ensures
        absent(replace_from(s, p, r, pos), q),
    decreases s.len() - pos,
{
    lemma_find_from(s, p, pos);
    let out = replace_from(s, p, r, pos);
    assert(r == link_text(seq![], inner(r))) by {
        assert(opener(r) =~= Seq::<char>::empty());
    }
    match find_from(s, p, pos) {
        None => {
            assert forall|j: int| !matches_at(out, q, j) by {
                if matches_at(out, q, j) {
                    assert(out.subrange(j, j + q.len()) =~= s.subrange(pos + j, pos + j + q.len()));
                    assert(matches_at(s, q, pos + j));
                }
            }
        },
        Some(i) => {
            let a = s.subrange(pos, i);
            let b = replace_from(s, p, r, i + p.len());
            lemma_replace_clean_link(s, p, r, q, i + p.len());
            assert(out == a + r + b);
            assert forall|j: int| !matches_at(out, q, j) by {
                if matches_at(out, q, j) {
                    assert(opener(q) == Seq::<char>::empty() || opener(q) == seq!['!']);
                    lemma_no_cross_link(a, inner(r), b, opener(q), inner(q), j);
                    if j + q.len() <= a.len() {
                        assert(out.subrange(j, j + q.len()) =~= s.subrange(pos + j, pos + j + q.len()));
                        assert(matches_at(s, q, pos + j));
                    } else {
                        let j2 = j - a.len() - r.len();
                        assert(out.subrange(j, j + q.len()) =~= b.subrange(j2, j2 + q.len()));
                        assert(matches_at(b, q, j2));
                    }
                }
            }
        },
    }
}

/// Every malformed link and its repair is a simple link, the repair no
/// embed.
pub open spec fn fixes_shaped(items: Seq<(Seq<char>, Seq<char>)>) -> bool {
    forall|j: int| #![trigger items[j]] 0 <= j < items.len() ==> simple_link(items[j].0) && simple_link(items[j].1) && opener(items[j].1).len() == 0
}

/// No repair has the inside of a malformed link.
pub open spec fn fixes_apart(items: Seq<(Seq<char>, Seq<char>)>) -> bool {
    forall|i: int, j: int| 0 <= i < items.len() && 0 <= j < items.len() ==> inner(#[trigger] items[i].1) != inner(#[trigger] items[j].0)
}

proof fn lemma_fixes_clean(c: Seq<char>, items: Seq<(Seq<char>, Seq<char>)>)
    requires
        fixes_shaped(items),
        fixes_apart(items),
    ensures
        forall|j: int| 0 <= j < items.len() ==> absent(apply_fixes(c, items), #[trigger] items[j].0),
    decreases items.len(),
{
    if items.len() > 0 {
        let pre = items.drop_last();
        let n = items.len() - 1;
        assert(fixes_shaped(pre)) by {
            assert forall|j: int| #![trigger pre[j]] 0 <= j < pre.len() implies simple_link(pre[j].0) && simple_link(pre[j].1) && opener(pre[j].1).len() == 0 by {
                assert(pre[j] == items[j]);
            }
        }
        assert(fixes_apart(pre)) by {
            assert forall|i: int, j: int| 0 <= i < pre.len() && 0 <= j < pre.len() implies inner(#[trigger] pre[i].1) != inner(#[trigger] pre[j].0) by {
                assert(pre[i] == items[i]);
                assert(pre[j] == items[j]);
            }
        }
        lemma_fixes_clean(c, pre);
        let prev = apply_fixes(c, pre);
        let last = items[n];
        assert(items.last() == last);
        assert forall|j: int| 0 <= j < items.len() implies absent(apply_fixes(c, items), #[trigger] items[j].0) by {
            assert(simple_link(items[j].0));
            assert(simple_link(last.0) && simple_link(last.1) && opener(last.1).len() == 0);
            assert(inner(items[j].0) != inner(items[n].1));
            if j < n {
                assert(pre[j] == items[j]);
                assert(absent(prev, pre[j].0));
            }
            lemma_replace_clean_link(prev, last.0, last.1, items[j].0, 0);
        }
    }
}

proof fn lemma_fixes_fixed(f: Seq<char>, items: Seq<(Seq<char>, Seq<char>)>)
    requires
        forall|j: int| 0 <= j < items.len() ==> absent(f, #[trigger] items[j].0) && items[j].0.len() > 0,
    ensures
        apply_fixes(f, items) == f,
    decreases items.len(),
{
    if items.len() > 0 {
        let pre = items.drop_last();
        let n = items.len() - 1;
        assert forall|j: int| 0 <= j < pre.len() implies absent(f, #[trigger] pre[j].0) && pre[j].0.len() > 0 by {
            assert(pre[j] == items[j]);
        }
        lemma_fixes_fixed(f, pre);
        assert(items.last() == items[n]);
        assert(absent(f, items[n].0) && items[n].0.len() > 0);
        lemma_replace_nothing(f, items[n].0, items[n].1);
    }
}

/// Repairing malformed links twice changes nothing the second time: once
/// every malformed link of a file has been replaced by its repair, one after
/// the other, doing it again gives the same text. This holds when every
/// malformed link and every repair is `[[inside]]` (or, for a malformed
/// link, `![[inside]]`) with no bracket inside, and no repair has the inside
/// of a malformed link.
pub proof fn lemma_malformed_fix_twice(c: Seq<char>, items: Seq<(Seq<char>, Seq<char>)>)
    requires
        fixes_shaped(items),
        fixes_apart(items),
    ensures
        apply_fixes(apply_fixes(c, items), items) == apply_fixes(c, items),
{
    lemma_fixes_clean(c, items);
    let f = apply_fixes(c, items);
    assert forall|j: int| 0 <= j < items.len() implies absent(f, #[trigger] items[j].0) && items[j].0.len() > 0 by {
        assert(simple_link(items[j].0));
    }
    lemma_fixes_fixed(f, items);
}

} // verus!

