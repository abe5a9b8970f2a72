//! Lexicographic order on character sequences (the order of `String`'s
//! `Ord`, since UTF-8 byte order follows code point order) and sorted,
//! duplicate-free vectors of character sequences.

use vstd::prelude::*;
use crate::text::views;

verus! {

/// `a` sorts strictly before `b`.
pub open spec fn lex_lt(a: Seq<char>, b: Seq<char>) -> bool
    decreases a.len(),
{
    if a.len() == 0 {
        b.len() > 0
    } else if b.len() == 0 {
        false
    } else if a[0] != b[0] {
        a[0] < b[0]
    } else {
        lex_lt(a.drop_first(), b.drop_first())
    }
}

pub proof fn lemma_lex_irreflexive(a: Seq<char>)
    ensures
        !lex_lt(a, a),
    decreases a.len(),
{
    if a.len() > 0 {
        lemma_lex_irreflexive(a.drop_first());
    }
}

pub proof fn lemma_lex_transitive(a: Seq<char>, b: Seq<char>, c: Seq<char>)
    requires
        lex_lt(a, b),
        lex_lt(b, c),
    ensures
        lex_lt(a, c),
    decreases a.len(),
{
    if a.len() > 0 && b.len() > 0 && c.len() > 0 && a[0] == b[0] && b[0] == c[0] {
        lemma_lex_transitive(a.drop_first(), b.drop_first(), c.drop_first());
    }
}

pub proof fn lemma_lex_total(a: Seq<char>, b: Seq<char>)
    ensures
        a == b || lex_lt(a, b) || lex_lt(b, a),
    decreases a.len(),
{
    if a.len() > 0 && b.len() > 0 && a[0] == b[0] {
        lemma_lex_total(a.drop_first(), b.drop_first());
        if a.drop_first() == b.drop_first() {
            assert(a =~= seq![a[0]] + a.drop_first());
            assert(b =~= seq![b[0]] + b.drop_first());
        }
    }
}

/// Whether `a` sorts strictly before `b`.
pub fn lex_less(a: &[char], b: &[char]) -> (r: bool)
    ensures
        r == lex_lt(a@, b@),
{
    let mut i: usize = 0;
    proof {
        assert(a@.skip(0) =~= a@);
        assert(b@.skip(0) =~= b@);
    }
    while i < a.len() && i < b.len()
        invariant
            i <= a.len(),
            i <= b.len(),
            lex_lt(a@, b@) == lex_lt(a@.skip(i as int), b@.skip(i as int)),
        decreases a.len() - i,
    {
        if a[i] != b[i] {
            return a[i] < b[i];
        }
        proof {
            assert(a@.skip(i as int).drop_first() =~= a@.skip(i + 1));
            assert(b@.skip(i as int).drop_first() =~= b@.skip(i + 1));
        }
        i = i + 1;
    }
    i < b.len() && i == a.len()
}

/// `v` is sorted strictly ascending, hence free of duplicates.
pub open spec fn strictly_sorted(v: Seq<Seq<char>>) -> bool {
    forall|i: int, j: int| 0 <= i < j < v.len() ==> lex_lt(#[trigger] v[i], #[trigger] v[j])
}

/// Insert `x` into the strictly sorted `v`, unless it is already there.
pub fn insert_sorted(v: &mut Vec<Vec<char>>, x: Vec<char>)
    requires
        strictly_sorted(views(old(v)@)),
    ensures
        strictly_sorted(views(final(v)@)),
        forall|y: Seq<char>| #[trigger] views(final(v)@).contains(y) <==> (views(old(v)@).contains(y) || y == x@),
{
    let ghost old_v = views(v@);
    let mut i: usize = 0;
    while i < v.len() && lex_less(&v[i], &x)
        invariant
            i <= v.len(),
            views(v@) == old_v,
            strictly_sorted(old_v),
            forall|k: int| 0 <= k < i ==> lex_lt(#[trigger] old_v[k], x@),
        decreases v.len() - i,
    {
        i = i + 1;
    }
    if i < v.len() && crate::frontmatter::eq_chars(&v[i], &x) {
        proof {
            assert(old_v[i as int] == x@);
        }
        return;
    }
    proof {
        if i < v.len() {
            lemma_lex_total(old_v[i as int], x@);
            assert(lex_lt(x@, old_v[i as int]));
        }
    }
    v.insert(i, x);
    proof {
        let nv = views(v@);
        assert(nv =~= old_v.insert(i as int, x@));
        assert forall|a: int, b: int| 0 <= a < b < nv.len() implies lex_lt(#[trigger] nv[a], #[trigger] nv[b]) by {
            if b < i {
            } else if a < i && b == i {
            } else if a < i && b > i {
                lemma_lex_transitive(nv[a], x@, old_v[i as int]);
                if b - 1 > i {
                    lemma_lex_transitive(nv[a], old_v[i as int], old_v[b - 1]);
                }
            } else if a == i {
                if b - 1 > i {
                    lemma_lex_transitive(x@, old_v[i as int], old_v[b - 1]);
                }
            } else {
            }
        }
        assert forall|y: Seq<char>| #[trigger] nv.contains(y) <==> (old_v.contains(y) || y == x@) by {
            if nv.contains(y) {
                let k = choose|k: int| 0 <= k < nv.len() && nv[k] == y;
                if k < i {
                    assert(old_v[k] == y);
                } else if k > i {
                    assert(old_v[k - 1] == y);
                }
            }
            if old_v.contains(y) {
                let k = choose|k: int| 0 <= k < old_v.len() && old_v[k] == y;
                if k < i {
                    assert(nv[k] == y);
                } else {
                    assert(nv[k + 1] == y);
                }
            }
            if y == x@ {
                assert(nv[i as int] == y);
            }
        }
    }
}


/// Where a stable insertion puts `x` into `s`: before the first element that
/// sorts strictly after it.
pub open spec fn insert_pos(s: Seq<Seq<char>>, x: Seq<char>, from: int) -> int
    decreases s.len() - from,
{
    if from < 0 || from >= s.len() {
        s.len() as int
    } else if lex_lt(x, s[from]) {
        from
    } else {
        insert_pos(s, x, from + 1)
    }
}

/// `s` sorted ascending by a stable sort (`slice::sort`): equal elements
/// keep their order.
pub open spec fn sorted_seq(s: Seq<Seq<char>>) -> Seq<Seq<char>>
    decreases s.len(),
{
    if s.len() == 0 {
        seq![]
    } else {
        let t = sorted_seq(s.drop_last());
        t.insert(insert_pos(t, s.last(), 0), s.last())
    }
}

/// The keys of a sequence of pairs.
pub open spec fn keys(s: Seq<(Seq<char>, Seq<char>)>) -> Seq<Seq<char>> {
    Seq::new(s.len(), |i: int| s[i].0)
}

/// `s` sorted ascending by key with a stable sort (`sort_by` on the key):
/// pairs with equal keys keep their order.
pub open spec fn sorted_by_key(s: Seq<(Seq<char>, Seq<char>)>) -> Seq<(Seq<char>, Seq<char>)>
    decreases s.len(),
{
    if s.len() == 0 {
        seq![]
    } else {
        let t = sorted_by_key(s.drop_last());
        t.insert(insert_pos(keys(t), s.last().0, 0), s.last())
    }
}

pub proof fn lemma_insert_pos(s: Seq<Seq<char>>, x: Seq<char>, from: int)
    requires
        0 <= from <= s.len(),
    ensures
        from <= insert_pos(s, x, from) <= s.len(),
    decreases s.len() - from,
{
    if from < s.len() && !lex_lt(x, s[from]) {
        lemma_insert_pos(s, x, from + 1);
    }
}

/// Where a stable insertion puts `x` into `v`.
pub fn insert_pos_exec(v: &Vec<Vec<char>>, x: &[char]) -> (k: usize)
    ensures
        k as int == insert_pos(views(v@), x@, 0),
        k <= v.len(),
{
    proof { lemma_insert_pos(views(v@), x@, 0); }
    let mut k: usize = 0;
    while k < v.len() && !lex_less(x, &v[k])
        invariant
            k <= v.len(),
            insert_pos(views(v@), x@, 0) == insert_pos(views(v@), x@, k as int),
        decreases v.len() - k,
    {
        k = k + 1;
    }
    k
}

/// `v` sorted ascending, stably.
pub fn sort_chars(v: &Vec<Vec<char>>) -> (r: Vec<Vec<char>>)
    ensures
        views(r@) == sorted_seq(views(v@)),
{
    let mut r: Vec<Vec<char>> = Vec::new();
    let mut i: usize = 0;
    while i < v.len()
        invariant
            i <= v.len(),
            views(r@) == sorted_seq(views(v@).take(i as int)),
        decreases v.len() - i,
    {
        let x = vstd::slice::slice_to_vec(v[i].as_slice());
        let k = insert_pos_exec(&r, &x);
        let ghost old_r = r@;
        r.insert(k, x);
        proof {
            assert(views(v@).take(i + 1).drop_last() =~= views(v@).take(i as int));
            assert(views(v@).take(i + 1).last() == v@[i as int]@);
            assert(views(r@) =~= views(old_r).insert(k as int, v@[i as int]@));
        }
        i = i + 1;
    }
    proof { assert(views(v@).take(v.len() as int) =~= views(v@)); }
    r
}

pub open spec fn pair_chars_views(v: Seq<(Vec<char>, Vec<char>)>) -> Seq<(Seq<char>, Seq<char>)> {
    Seq::new(v.len(), |i: int| (v[i].0@, v[i].1@))
}

/// `v` sorted ascending by key, stably.
pub fn sort_pairs_by_key(v: &Vec<(Vec<char>, Vec<char>)>) -> (r: Vec<(Vec<char>, Vec<char>)>)
    ensures
        pair_chars_views(r@) == sorted_by_key(pair_chars_views(v@)),
{
    let mut r: Vec<(Vec<char>, Vec<char>)> = Vec::new();
    let mut ks: Vec<Vec<char>> = Vec::new();
    let mut i: usize = 0;
    while i < v.len()
        invariant
            i <= v.len(),
            pair_chars_views(r@) == sorted_by_key(pair_chars_views(v@).take(i as int)),
            views(ks@) == keys(pair_chars_views(r@)),
        decreases v.len() - i,
    {
        let a = vstd::slice::slice_to_vec(v[i].0.as_slice());
        let b = vstd::slice::slice_to_vec(v[i].1.as_slice());
        let k = insert_pos_exec(&ks, &a);
        let ghost old_r = r@;
        let ghost old_ks = ks@;
        r.insert(k, (a, b));
        ks.insert(k, vstd::slice::slice_to_vec(v[i].0.as_slice()));
        proof {
            assert(pair_chars_views(v@).take(i + 1).drop_last() =~= pair_chars_views(v@).take(i as int));
            assert(pair_chars_views(v@).take(i + 1).last() == (v@[i as int].0@, v@[i as int].1@));
            assert(pair_chars_views(r@) =~= pair_chars_views(old_r).insert(k as int, (v@[i as int].0@, v@[i as int].1@)));
            assert(views(ks@) =~= views(old_ks).insert(k as int, v@[i as int].0@));
            assert(views(ks@) =~= keys(pair_chars_views(r@)));
        }
        i = i + 1;
    }
    proof { assert(pair_chars_views(v@).take(v.len() as int) =~= pair_chars_views(v@)); }
    r
}

} // verus!
