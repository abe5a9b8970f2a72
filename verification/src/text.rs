//! Character-sequence model of strings and the verified string operations
//! the rest of the library is built from.

use vstd::prelude::*;

verus! {

/// Appends one character to a string.
#[verifier::external_body]
pub(crate) fn push_char(s: &mut String, c: char)
    ensures
        final(s)@ == old(s)@.push(c),
{
    s.push(c)
}

/// The characters of a string slice, in order.
pub fn to_chars(s: &str) -> (r: Vec<char>)
    ensures
        r@ == s@,
{
    let mut r: Vec<char> = Vec::new();
    for c in it: s.chars()
        invariant
            r@ == it.seq().take(it.index() as int),
            it.seq() == s@,
    {
        r.push(c);
    }
    r
}

/// A string holding exactly the given characters.
pub fn from_chars(v: &[char]) -> (r: String)
    ensures
        r@ == v@,
{
    let mut r = String::new();
    let mut i: usize = 0;
    while i < v.len()
        invariant
            i <= v.len(),
            r@ == v@.take(i as int),
        decreases v.len() - i,
    {
        push_char(&mut r, v[i]);
        proof {
            assert(v@.take(i + 1) == v@.take(i as int).push(v@[i as int]));
        }
        i = i + 1;
    }
    proof { assert(v@.take(v.len() as int) == v@); }
    r
}


// ---------------------------------------------------------------------------
// Searching
// ---------------------------------------------------------------------------

/// `pat` occurs in `s` starting at position `i`.
pub open spec fn matches_at(s: Seq<char>, pat: Seq<char>, i: int) -> bool {
    0 <= i && i + pat.len() <= s.len() && s.subrange(i, i + pat.len()) == pat
}

/// The first position at or after `from` where `pat` occurs in `s`.
pub open spec fn find_from(s: Seq<char>, pat: Seq<char>, from: int) -> Option<int>
    decreases s.len() + 1 - from,
{
    if from < 0 || from + pat.len() > s.len() {
        None
    } else if matches_at(s, pat, from) {
        Some(from)
    } else {
        find_from(s, pat, from + 1)
    }
}

/// The first position where `pat` occurs in `s`.
pub open spec fn find(s: Seq<char>, pat: Seq<char>) -> Option<int> {
    find_from(s, pat, 0)
}

/// `pat` occurs somewhere in `s`.
pub open spec fn contains(s: Seq<char>, pat: Seq<char>) -> bool {
    find(s, pat) is Some
}

/// `s` begins with `pat`.
pub open spec fn starts_with(s: Seq<char>, pat: Seq<char>) -> bool {
    pat.len() <= s.len() && s.take(pat.len() as int) == pat
}

/// What `find_from` returns: a match with no earlier match, or no match at all.
pub proof fn lemma_find_from(s: Seq<char>, pat: Seq<char>, from: int)
    requires
        0 <= from,
    ensures
        match find_from(s, pat, from) {
            Some(k) => from <= k && matches_at(s, pat, k) && forall|j: int|
                from <= j < k ==> !matches_at(s, pat, j),
            None => forall|j: int| from <= j ==> !matches_at(s, pat, j),
        },
    decreases s.len() + 1 - from,
{
    if from + pat.len() > s.len() {
    } else if matches_at(s, pat, from) {
    } else {
        lemma_find_from(s, pat, from + 1);
    }
}

/// A match at `k` with none in `[from, k)` is what `find_from` returns.
pub proof fn lemma_find_from_is(s: Seq<char>, pat: Seq<char>, from: int, k: int)
    requires
        0 <= from <= k,
        matches_at(s, pat, k),
        forall|j: int| from <= j < k ==> !matches_at(s, pat, j),
    ensures
        find_from(s, pat, from) == Some(k),
    decreases k - from,
{
    if from < k {
        lemma_find_from_is(s, pat, from + 1, k);
    }
}

/// A match anywhere means `s` contains `pat`.
pub proof fn lemma_contains_at(s: Seq<char>, pat: Seq<char>, i: int)
    requires
        matches_at(s, pat, i),
    ensures
        contains(s, pat),
{
    lemma_find_from(s, pat, 0);
}

/// What a piece contains, a text made of it contains too.
pub proof fn lemma_contains_within(a: Seq<char>, b: Seq<char>, c: Seq<char>, pat: Seq<char>)
    requires
        contains(b, pat),
    ensures
        contains(a + b + c, pat),
{
    lemma_find_from(b, pat, 0);
    let k = find(b, pat)->0;
    let s = a + b + c;
    assert(s.subrange(a.len() + k, a.len() + k + pat.len()) =~= b.subrange(k, k + pat.len()));
    lemma_contains_at(s, pat, a.len() + k);
}

pub open spec fn opt_int(r: Option<usize>) -> Option<int> {
    match r {
        Some(k) => Some(k as int),
        None => None,
    }
}

/// Whether `pat` occurs in `s` at position `i`.
pub fn matches_at_exec(s: &[char], pat: &[char], i: usize) -> (b: bool)
    ensures
        b == matches_at(s@, pat@, i as int),
{
    if i > s.len() || pat.len() > s.len() - i {
        return false;
    }
    let mut j: usize = 0;
    while j < pat.len()
        invariant
            j <= pat.len(),
            i + pat.len() <= s.len(),
            s@.subrange(i as int, i + j) == pat@.take(j as int),
        decreases pat.len() - j,
    {
        if s[i + j] != pat[j] {
            proof {
                assert(s@.subrange(i as int, i + pat.len())[j as int] != pat@[j as int]);
            }
            return false;
        }
        proof {
            assert(s@.subrange(i as int, i + j + 1) == s@.subrange(i as int, i + j).push(s@[i + j]));
            assert(pat@.take(j + 1) == pat@.take(j as int).push(pat@[j as int]));
        }
        j = j + 1;
    }
    proof { assert(pat@.take(pat.len() as int) == pat@); }
    true
}

/// The first position at or after `from` where `pat` occurs in `s`.
pub fn find_from_exec(s: &[char], pat: &[char], from: usize) -> (r: Option<usize>)
    ensures
        opt_int(r) == find_from(s@, pat@, from as int),
{
    let mut i = from;
    while i < s.len() && pat.len() <= s.len() - i
        invariant
            from <= i,
            find_from(s@, pat@, from as int) == find_from(s@, pat@, i as int),
        decreases s.len() - i,
    {
        if matches_at_exec(s, pat, i) {
            return Some(i);
        }
        i = i + 1;
    }
    if matches_at_exec(s, pat, i) {
        Some(i)
    } else {
        proof {
            if i < s.len() {
                assert(i + pat@.len() > s@.len());
            } else if i == s.len() {
                assert(find_from(s@, pat@, i + 1) is None);
            }
        }
        None
    }
}

/// The first position where `pat` occurs in `s`.
pub fn find_exec(s: &[char], pat: &[char]) -> (r: Option<usize>)
    ensures
        opt_int(r) == find(s@, pat@),
{
    find_from_exec(s, pat, 0)
}

/// Whether `s` begins with `pat`.
pub fn starts_with_exec(s: &[char], pat: &[char]) -> (b: bool)
    ensures
        b == starts_with(s@, pat@),
{
    let b = matches_at_exec(s, pat, 0);
    proof {
        if b {
            assert(s@.subrange(0, pat@.len() as int) == s@.take(pat@.len() as int));
        } else if pat@.len() <= s@.len() {
            assert(s@.subrange(0, pat@.len() as int) == s@.take(pat@.len() as int));
        }
    }
    b
}

/// Whether `pat` occurs in `s`.
pub fn contains_exec(s: &[char], pat: &[char]) -> (b: bool)
    ensures
        b == contains(s@, pat@),
{
    find_exec(s, pat).is_some()
}


/// The first position at or after `from` holding `c`.
pub open spec fn find_char_from(s: Seq<char>, c: char, from: int) -> Option<int>
    decreases s.len() - from,
{
    if from < 0 || from >= s.len() {
        None
    } else if s[from] == c {
        Some(from)
    } else {
        find_char_from(s, c, from + 1)
    }
}

/// The first position holding `c`.
pub open spec fn find_char(s: Seq<char>, c: char) -> Option<int> {
    find_char_from(s, c, 0)
}

pub proof fn lemma_find_char_from(s: Seq<char>, c: char, from: int)
    requires
        0 <= from,
    ensures
        match find_char_from(s, c, from) {
            Some(k) => from <= k < s.len() && s[k] == c && forall|j: int| from <= j < k ==> s[j] != c,
            None => forall|j: int| from <= j < s.len() ==> s[j] != c,
        },
    decreases s.len() - from,
{
    if from < s.len() && s[from] != c {
        lemma_find_char_from(s, c, from + 1);
    }
}

/// The first position at or after `from` holding `c`.
pub fn find_char_from_exec(s: &[char], c: char, from: usize) -> (r: Option<usize>)
    ensures
        opt_int(r) == find_char_from(s@, c, from as int),
{
    let mut i = from;
    while i < s.len()
        invariant
            from <= i,
            find_char_from(s@, c, from as int) == find_char_from(s@, c, i as int),
        decreases s.len() - i,
    {
        if s[i] == c {
            return Some(i);
        }
        i = i + 1;
    }
    None
}

/// The last position before `to` holding `c`.
pub open spec fn rfind_char_to(s: Seq<char>, c: char, to: int) -> Option<int>
    decreases to,
{
    if to <= 0 || to > s.len() {
        None
    } else if s[to - 1] == c {
        Some(to - 1)
    } else {
        rfind_char_to(s, c, to - 1)
    }
}

/// The last position holding `c`.
pub open spec fn rfind_char(s: Seq<char>, c: char) -> Option<int> {
    rfind_char_to(s, c, s.len() as int)
}

pub proof fn lemma_rfind_char_to(s: Seq<char>, c: char, to: int)
    requires
        0 <= to <= s.len(),
    ensures
        match rfind_char_to(s, c, to) {
            Some(k) => 0 <= k < to && s[k] == c && forall|j: int| k < j < to ==> s[j] != c,
            None => forall|j: int| 0 <= j < to ==> s[j] != c,
        },
    decreases to,
{
    if to > 0 && s[to - 1] != c {
        lemma_rfind_char_to(s, c, to - 1);
    }
}

/// The last position holding `c`.
pub fn rfind_char_exec(s: &[char], c: char) -> (r: Option<usize>)
    ensures
        opt_int(r) == rfind_char(s@, c),
{
    let mut j: usize = s.len();
    while j > 0
        invariant
            j <= s.len(),
            rfind_char(s@, c) == rfind_char_to(s@, c, j as int),
        decreases j,
    {
        if s[j - 1] == c {
            return Some(j - 1);
        }
        j = j - 1;
    }
    None
}

/// A match of a pattern without `c` cannot cover a position holding `c`.
pub proof fn lemma_no_match_over(s: Seq<char>, pat: Seq<char>, p: int, c: char, j: int)
    requires
        0 <= p < s.len(),
        s[p] == c,
        forall|k: int| 0 <= k < pat.len() ==> pat[k] != c,
        j <= p < j + pat.len(),
    ensures
        !matches_at(s, pat, j),
{
    if matches_at(s, pat, j) {
        assert(s.subrange(j, j + pat.len())[p - j] == s[p]);
    }
}

/// A match inside `s[a..b]` is a match in that piece, shifted.
pub proof fn lemma_match_in_piece(s: Seq<char>, pat: Seq<char>, a: int, b: int, j: int)
    requires
        0 <= a <= j,
        j + pat.len() <= b <= s.len(),
    ensures
        matches_at(s, pat, j) == matches_at(s.subrange(a, b), pat, j - a),
{
    assert(s.subrange(j, j + pat.len()) =~= s.subrange(a, b).subrange(j - a, j - a + pat.len()));
}

/// The first position holding `c`.
pub fn find_char_exec(s: &[char], c: char) -> (r: Option<usize>)
    ensures
        opt_int(r) == find_char(s@, c),
{
    find_char_from_exec(s, c, 0)
}

/// The part of `x` before the first `c` (all of `x` when there is none):
/// what `x.split(c).next()` yields.
pub open spec fn before_char(x: Seq<char>, c: char) -> Seq<char> {
    match find_char(x, c) {
        Some(p) => x.take(p),
        None => x,
    }
}

/// The part of `x` after the first `c`, if there is one.
pub open spec fn after_char(x: Seq<char>, c: char) -> Option<Seq<char>> {
    match find_char(x, c) {
        Some(p) => Some(x.skip(p + 1)),
        None => None,
    }
}

/// The part of `x` before the first occurrence of `pat` (all of `x` when
/// there is none): what `x.split(pat).next()` yields.
pub open spec fn before_pat(x: Seq<char>, pat: Seq<char>) -> Seq<char> {
    match find(x, pat) {
        Some(p) => x.take(p),
        None => x,
    }
}

/// The part of `x` after the first occurrence of `pat`, if there is one.
pub open spec fn after_pat(x: Seq<char>, pat: Seq<char>) -> Option<Seq<char>> {
    match find(x, pat) {
        Some(p) => Some(x.skip(p + pat.len())),
        None => None,
    }
}

// ---------------------------------------------------------------------------
// Building
// ---------------------------------------------------------------------------

/// Appends the characters of `s` to `v`.
pub fn append_chars(v: &mut Vec<char>, s: &[char])
    ensures
        final(v)@ == old(v)@ + s@,
{
    let mut i: usize = 0;
    while i < s.len()
        invariant
            i <= s.len(),
            v@ == old(v)@ + s@.take(i as int),
        decreases s.len() - i,
    {
        v.push(s[i]);
        proof {
            assert(s@.take(i + 1) == s@.take(i as int).push(s@[i as int]));
        }
        i = i + 1;
    }
    proof { assert(s@.take(s.len() as int) == s@); }
}

/// A copy of `s[from..to]`.
pub fn sub_chars(s: &[char], from: usize, to: usize) -> (r: Vec<char>)
    requires
        from <= to <= s@.len(),
    ensures
        r@ == s@.subrange(from as int, to as int),
{
    vstd::slice::slice_to_vec(vstd::slice::slice_subrange(s, from, to))
}

// ---------------------------------------------------------------------------
// Trimming
// ---------------------------------------------------------------------------

/// The first position at or after `i` not holding `c`.
pub open spec fn skip_char(s: Seq<char>, c: char, i: int) -> int
    decreases s.len() - i,
{
    if 0 <= i < s.len() && s[i] == c {
        skip_char(s, c, i + 1)
    } else {
        i
    }
}

/// The position just after the last character, at or before `j`, not holding `c`.
pub open spec fn rskip_char(s: Seq<char>, c: char, j: int) -> int
    decreases j,
{
    if 0 < j <= s.len() && s[j - 1] == c {
        rskip_char(s, c, j - 1)
    } else {
        j
    }
}

/// `s` without its leading run of `c` (`trim_start_matches(c)`).
pub open spec fn trim_start_char(s: Seq<char>, c: char) -> Seq<char> {
    s.skip(skip_char(s, c, 0))
}

/// `s` without its trailing run of `c` (`trim_end_matches(c)`).
pub open spec fn trim_end_char(s: Seq<char>, c: char) -> Seq<char> {
    s.take(rskip_char(s, c, s.len() as int))
}

/// `s` without leading and trailing runs of `c` (`trim_matches(c)`).
pub open spec fn trim_char(s: Seq<char>, c: char) -> Seq<char> {
    trim_end_char(trim_start_char(s, c), c)
}

pub proof fn lemma_skip_char(s: Seq<char>, c: char, i: int)
    requires
        0 <= i <= s.len(),
    ensures
        i <= skip_char(s, c, i) <= s.len(),
        forall|k: int| i <= k < skip_char(s, c, i) ==> s[k] == c,
        skip_char(s, c, i) < s.len() ==> s[skip_char(s, c, i)] != c,
    decreases s.len() - i,
{
    if i < s.len() && s[i] == c {
        lemma_skip_char(s, c, i + 1);
    }
}

pub proof fn lemma_rskip_char(s: Seq<char>, c: char, j: int)
    requires
        0 <= j <= s.len(),
    ensures
        0 <= rskip_char(s, c, j) <= j,
        forall|k: int| rskip_char(s, c, j) <= k < j ==> s[k] == c,
        rskip_char(s, c, j) > 0 ==> s[rskip_char(s, c, j) - 1] != c,
    decreases j,
{
    if 0 < j && s[j - 1] == c {
        lemma_rskip_char(s, c, j - 1);
    }
}

/// Position of the first character of `s` that is not `c`.
pub fn skip_char_exec(s: &[char], c: char) -> (r: usize)
    ensures
        r as int == skip_char(s@, c, 0),
        r <= s.len(),
{
    let mut i: usize = 0;
    while i < s.len() && s[i] == c
        invariant
            i <= s.len(),
            skip_char(s@, c, 0) == skip_char(s@, c, i as int),
        decreases s.len() - i,
    {
        i = i + 1;
    }
    i
}

/// Position just after the last character of `s` that is not `c`.
pub fn rskip_char_exec(s: &[char], c: char) -> (r: usize)
    ensures
        r as int == rskip_char(s@, c, s@.len() as int),
        r <= s.len(),
{
    let mut j: usize = s.len();
    while j > 0 && s[j - 1] == c
        invariant
            j <= s.len(),
            rskip_char(s@, c, s@.len() as int) == rskip_char(s@, c, j as int),
        decreases j,
    {
        j = j - 1;
    }
    j
}

/// `s` without its leading run of `c`.
pub fn trim_start_char_exec(s: &[char], c: char) -> (r: Vec<char>)
    ensures
        r@ == trim_start_char(s@, c),
{
    let i = skip_char_exec(s, c);
    sub_chars(s, i, s.len())
}

/// `s` without its trailing run of `c`.
pub fn trim_end_char_exec(s: &[char], c: char) -> (r: Vec<char>)
    ensures
        r@ == trim_end_char(s@, c),
{
    let j = rskip_char_exec(s, c);
    sub_chars(s, 0, j)
}

/// `s` without leading and trailing runs of `c`.
pub fn trim_char_exec(s: &[char], c: char) -> (r: Vec<char>)
    ensures
        r@ == trim_char(s@, c),
{
    let t = trim_start_char_exec(s, c);
    trim_end_char_exec(&t, c)
}


// ---------------------------------------------------------------------------
// Unicode character classes and case mapping (std)
// ---------------------------------------------------------------------------

/// Whether `c` has the Unicode `White_Space` property (what
/// `char::is_whitespace` tests): the controls U+0009 to U+000D, the space,
/// U+0085, U+00A0, U+1680, U+2000 to U+200A, U+2028, U+2029, U+202F, U+205F
/// and U+3000.
pub open spec fn char_is_whitespace(c: char) -> bool {
    let n = c as u32;
    (0x9 <= n <= 0xd) || n == 0x20 || n == 0x85 || n == 0xa0 || n == 0x1680
        || (0x2000 <= n <= 0x200a) || n == 0x2028 || n == 0x2029 || n == 0x202f
        || n == 0x205f || n == 0x3000
}

/// What `char::is_alphanumeric` returns: whether `c` is alphabetic or numeric
/// in the Unicode sense.
pub uninterp spec fn char_is_alphanumeric(c: char) -> bool;

/// What `str::to_lowercase` returns for a string with these characters.
pub uninterp spec fn lowercase(s: Seq<char>) -> Seq<char>;

/// The characters that `char::to_uppercase` yields for `c`.
pub uninterp spec fn uppercase_char(c: char) -> Seq<char>;

/// Whether `c` is whitespace in the Unicode sense.
pub fn is_whitespace(c: char) -> (b: bool)
    ensures
        b == char_is_whitespace(c),
{
    let n = c as u32;
    (0x9 <= n && n <= 0xd) || n == 0x20 || n == 0x85 || n == 0xa0 || n == 0x1680
        || (0x2000 <= n && n <= 0x200a) || n == 0x2028 || n == 0x2029 || n == 0x202f
        || n == 0x205f || n == 0x3000
}

/// Calls `char::is_alphanumeric`; the result is `char_is_alphanumeric(c)`.
#[verifier::external_body]
pub(crate) fn is_alphanumeric(c: char) -> (b: bool)
    ensures
        b == char_is_alphanumeric(c),
{
    c.is_alphanumeric()
}

/// Calls `str::to_lowercase`; the result is `lowercase(s@)`.
#[verifier::external_body]
pub(crate) fn to_lowercase(s: &str) -> (r: String)
    ensures
        r@ == lowercase(s@),
{
    s.to_lowercase()
}

/// Collects what `char::to_uppercase` yields for `c`; the result is
/// `uppercase_char(c)`.
#[verifier::external_body]
pub(crate) fn to_uppercase_char(c: char) -> (r: String)
    ensures
        r@ == uppercase_char(c),
{
    c.to_uppercase().collect::<String>()
}

/// The lowercase form of a character sequence.
pub fn lowercase_chars(s: &[char]) -> (r: Vec<char>)
    ensures
        r@ == lowercase(s@),
{
    let st = from_chars(s);
    let l = to_lowercase(st.as_str());
    to_chars(l.as_str())
}

/// `c` is an ASCII decimal digit.
pub open spec fn is_ascii_digit(c: char) -> bool {
    '0' <= c <= '9'
}

/// Every character of `s` is an ASCII decimal digit.
pub open spec fn all_ascii_digits(s: Seq<char>) -> bool {
    forall|i: int| 0 <= i < s.len() ==> is_ascii_digit(#[trigger] s[i])
}

/// Whether every character of `s` is an ASCII decimal digit.
pub fn all_ascii_digits_exec(s: &[char]) -> (b: bool)
    ensures
        b == all_ascii_digits(s@),
{
    let mut i: usize = 0;
    while i < s.len()
        invariant
            i <= s.len(),
            forall|k: int| 0 <= k < i ==> is_ascii_digit(#[trigger] s@[k]),
        decreases s.len() - i,
    {
        if !('0' <= s[i] && s[i] <= '9') {
            return false;
        }
        i = i + 1;
    }
    true
}

/// `s` without any number of leading copies of the non-empty `pat`
/// (`trim_start_matches(pat)`).
pub open spec fn trim_start_str(s: Seq<char>, pat: Seq<char>) -> Seq<char>
    decreases s.len(),
{
    if pat.len() > 0 && starts_with(s, pat) {
        trim_start_str(s.skip(pat.len() as int), pat)
    } else {
        s
    }
}

/// `s` without any number of leading copies of `pat`.
pub fn trim_start_str_exec(s: &[char], pat: &[char]) -> (r: Vec<char>)
    ensures
        r@ == trim_start_str(s@, pat@),
{
    let mut pos: usize = 0;
    proof { assert(s@.skip(0) =~= s@); }
    while pos < s.len() && pat.len() > 0 && matches_at_exec(s, pat, pos)
        invariant
            pos <= s.len(),
            trim_start_str(s@, pat@) == trim_start_str(s@.skip(pos as int), pat@),
        decreases s.len() - pos,
    {
        proof {
            assert(s@.skip(pos as int).take(pat@.len() as int) =~= s@.subrange(pos as int, pos + pat@.len()));
            assert(s@.skip(pos as int).skip(pat@.len() as int) =~= s@.skip(pos + pat@.len()));
        }
        pos = pos + pat.len();
    }
    proof {
        if pos < s.len() && pat.len() > 0 && pos + pat@.len() <= s@.len() {
            assert(s@.skip(pos as int).take(pat@.len() as int) =~= s@.subrange(pos as int, pos + pat@.len()));
        }
        if pos == s.len() && pat.len() > 0 {
            assert(s@.skip(pos as int).len() == 0);
        }
    }
    sub_chars(s, pos, s.len())
}

// ---------------------------------------------------------------------------
// Whitespace trimming
// ---------------------------------------------------------------------------

/// The first position at or after `i` not holding whitespace.
pub open spec fn skip_ws(s: Seq<char>, i: int) -> int
    decreases s.len() - i,
{
    if 0 <= i < s.len() && char_is_whitespace(s[i]) {
        skip_ws(s, i + 1)
    } else {
        i
    }
}

/// The position just after the last non-whitespace character at or before `j`.
pub open spec fn rskip_ws(s: Seq<char>, j: int) -> int
    decreases j,
{
    if 0 < j <= s.len() && char_is_whitespace(s[j - 1]) {
        rskip_ws(s, j - 1)
    } else {
        j
    }
}

/// `s` without leading whitespace (`trim_start`).
pub open spec fn trim_start_ws(s: Seq<char>) -> Seq<char> {
    s.skip(skip_ws(s, 0))
}

/// `s` without trailing whitespace (`trim_end`).
pub open spec fn trim_end_ws(s: Seq<char>) -> Seq<char> {
    s.take(rskip_ws(s, s.len() as int))
}

/// `s` without leading and trailing whitespace (`trim`).
pub open spec fn trim(s: Seq<char>) -> Seq<char> {
    trim_end_ws(trim_start_ws(s))
}

pub proof fn lemma_skip_ws(s: Seq<char>, i: int)
    requires
        0 <= i <= s.len(),
    ensures
        i <= skip_ws(s, i) <= s.len(),
        forall|k: int| i <= k < skip_ws(s, i) ==> char_is_whitespace(#[trigger] s[k]),
        skip_ws(s, i) < s.len() ==> !char_is_whitespace(s[skip_ws(s, i)]),
    decreases s.len() - i,
{
    if i < s.len() && char_is_whitespace(s[i]) {
        lemma_skip_ws(s, i + 1);
    }
}

pub proof fn lemma_rskip_ws(s: Seq<char>, j: int)
    requires
        0 <= j <= s.len(),
    ensures
        0 <= rskip_ws(s, j) <= j,
        forall|k: int| rskip_ws(s, j) <= k < j ==> char_is_whitespace(#[trigger] s[k]),
        rskip_ws(s, j) > 0 ==> !char_is_whitespace(s[rskip_ws(s, j) - 1]),
    decreases j,
{
    if 0 < j && char_is_whitespace(s[j - 1]) {
        lemma_rskip_ws(s, j - 1);
    }
}

/// Position of the first non-whitespace character at or after `from`.
pub fn skip_ws_exec(s: &[char], from: usize) -> (r: usize)
    requires
        from <= s.len(),
    ensures
        r as int == skip_ws(s@, from as int),
        from <= r <= s.len(),
{
    proof { lemma_skip_ws(s@, from as int); }
    let mut i: usize = from;
    while i < s.len() && is_whitespace(s[i])
        invariant
            from <= i <= s.len(),
            skip_ws(s@, from as int) == skip_ws(s@, i as int),
        decreases s.len() - i,
    {
        i = i + 1;
    }
    i
}

/// Position just after the last non-whitespace character before `to`.
pub fn rskip_ws_exec(s: &[char], to: usize) -> (r: usize)
    requires
        to <= s.len(),
    ensures
        r as int == rskip_ws(s@, to as int),
        r <= to,
{
    proof { lemma_rskip_ws(s@, to as int); }
    let mut j: usize = to;
    while j > 0 && is_whitespace(s[j - 1])
        invariant
            j <= to,
            to <= s.len(),
            rskip_ws(s@, to as int) == rskip_ws(s@, j as int),
        decreases j,
    {
        j = j - 1;
    }
    j
}

/// `s` without leading and trailing whitespace.
pub fn trim_exec(s: &[char]) -> (r: Vec<char>)
    ensures
        r@ == trim(s@),
{
    let i = skip_ws_exec(s, 0);
    let t = sub_chars(s, i, s.len());
    let j = rskip_ws_exec(&t, t.len());
    sub_chars(&t, 0, j)
}


// ---------------------------------------------------------------------------
// Splitting and joining
// ---------------------------------------------------------------------------

/// The views of a vector of character vectors.
pub open spec fn views(v: Seq<Vec<char>>) -> Seq<Seq<char>> {
    Seq::new(v.len(), |i: int| v[i]@)
}

pub proof fn lemma_views_push(v: Seq<Vec<char>>, x: Vec<char>)
    ensures
        views(v.push(x)) == views(v).push(x@),
{
    assert(views(v.push(x)) =~= views(v).push(x@));
}

/// `x` without one trailing carriage return.
pub open spec fn strip_cr(x: Seq<char>) -> Seq<char> {
    if x.len() > 0 && x.last() == '\r' {
        x.drop_last()
    } else {
        x
    }
}

/// The lines of `s[pos..]` as `str::lines` yields them: split at `\n`, a
/// `\r` just before the `\n` dropped, no empty line after a final `\n`.
pub open spec fn lines_from(s: Seq<char>, pos: int) -> Seq<Seq<char>>
    decreases s.len() - pos,
{
    if pos < 0 || pos >= s.len() {
        seq![]
    } else {
        match find_char_from(s, '\n', pos) {
            None => seq![s.subrange(pos, s.len() as int)],
            Some(i) => {
                proof {
                    lemma_find_char_from(s, '\n', pos);
                }
                seq![strip_cr(s.subrange(pos, i))] + lines_from(s, i + 1)
            },
        }
    }
}

/// The lines of `s` (`str::lines`).
pub open spec fn lines(s: Seq<char>) -> Seq<Seq<char>> {
    lines_from(s, 0)
}

/// The pieces of `s[pos..]` between occurrences of `c` (`str::split(c)`).
pub open spec fn split_char_from(s: Seq<char>, c: char, pos: int) -> Seq<Seq<char>>
    decreases s.len() + 1 - pos,
{
    if pos < 0 || pos > s.len() {
        seq![]
    } else {
        match find_char_from(s, c, pos) {
            None => seq![s.subrange(pos, s.len() as int)],
            Some(i) => {
                proof {
                    lemma_find_char_from(s, c, pos);
                }
                seq![s.subrange(pos, i)] + split_char_from(s, c, i + 1)
            },
        }
    }
}

/// The pieces of `s` between occurrences of `c` (`str::split(c)`).
pub open spec fn split_char(s: Seq<char>, c: char) -> Seq<Seq<char>> {
    split_char_from(s, c, 0)
}

/// The first whitespace position at or after `i`, or the length of `s`.
pub open spec fn word_end(s: Seq<char>, i: int) -> int
    decreases s.len() - i,
{
    if 0 <= i < s.len() && !char_is_whitespace(s[i]) {
        word_end(s, i + 1)
    } else {
        i
    }
}

pub proof fn lemma_word_end(s: Seq<char>, i: int)
    requires
        0 <= i <= s.len(),
    ensures
        i <= word_end(s, i) <= s.len(),
        forall|k: int| i <= k < word_end(s, i) ==> !char_is_whitespace(#[trigger] s[k]),
        word_end(s, i) < s.len() ==> char_is_whitespace(s[word_end(s, i)]),
    decreases s.len() - i,
{
    if i < s.len() && !char_is_whitespace(s[i]) {
        lemma_word_end(s, i + 1);
    }
}

pub proof fn lemma_split_char_nonempty(s: Seq<char>, c: char)
    ensures
        split_char(s, c).len() >= 1,
{
    lemma_find_char_from(s, c, 0);
}

/// The whitespace-separated words of `s[pos..]` (`str::split_whitespace`).
pub open spec fn words_from(s: Seq<char>, pos: int) -> Seq<Seq<char>>
    decreases s.len() - pos,
{
    if pos < 0 || pos >= s.len() {
        seq![]
    } else {
        let i = skip_ws(s, pos);
        if i >= s.len() {
            seq![]
        } else {
            proof {
                lemma_skip_ws(s, pos);
                lemma_word_end(s, i);
            }
            let j = word_end(s, i);
            seq![s.subrange(i, j)] + words_from(s, j)
        }
    }
}

/// The whitespace-separated words of `s` (`str::split_whitespace`).
pub open spec fn words(s: Seq<char>) -> Seq<Seq<char>> {
    words_from(s, 0)
}

/// `parts` joined with `sep` between consecutive parts (`join(sep)`).
pub open spec fn join(parts: Seq<Seq<char>>, sep: Seq<char>) -> Seq<char>
    decreases parts.len(),
{
    if parts.len() == 0 {
        seq![]
    } else if parts.len() == 1 {
        parts[0]
    } else {
        join(parts.drop_last(), sep) + sep + parts.last()
    }
}

/// The lines of `s`.
pub fn lines_exec(s: &[char]) -> (r: Vec<Vec<char>>)
    ensures
        views(r@) == lines(s@),
{
    let mut r: Vec<Vec<char>> = Vec::new();
    let mut pos: usize = 0;
    while pos < s.len()
        invariant
            pos <= s.len(),
            lines(s@) == views(r@) + lines_from(s@, pos as int),
        decreases s.len() - pos,
    {
        let ghost old_r = r@;
        match find_char_from_exec(s, '\n', pos) {
            None => {
                r.push(sub_chars(s, pos, s.len()));
                proof {
                    lemma_views_push(old_r, r@.last());
                    assert(lines_from(s@, s.len() as int) == Seq::<Seq<char>>::empty());
                }
                pos = s.len();
            },
            Some(i) => {
                proof { lemma_find_char_from(s@, '\n', pos as int); }
                let piece = sub_chars(s, pos, i);
                let line = if piece.len() > 0 && piece[piece.len() - 1] == '\r' {
                    sub_chars(&piece, 0, piece.len() - 1)
                } else {
                    piece
                };
                r.push(line);
                proof {
                    lemma_views_push(old_r, r@.last());
                }
                pos = i + 1;
            },
        }
    }
    proof { assert(views(r@) + Seq::<Seq<char>>::empty() == views(r@)); }
    r
}

/// The pieces of `s` between occurrences of `c`.
pub fn split_char_exec(s: &[char], c: char) -> (r: Vec<Vec<char>>)
    ensures
        views(r@) == split_char(s@, c),
{
    let mut r: Vec<Vec<char>> = Vec::new();
    let mut pos: usize = 0;
    loop
        invariant
            pos <= s.len(),
            split_char(s@, c) == views(r@) + split_char_from(s@, c, pos as int),
        decreases s.len() - pos,
    {
        let ghost old_r = r@;
        match find_char_from_exec(s, c, pos) {
            None => {
                r.push(sub_chars(s, pos, s.len()));
                proof {
                    lemma_views_push(old_r, r@.last());
                }
                return r;
            },
            Some(i) => {
                proof { lemma_find_char_from(s@, c, pos as int); }
                r.push(sub_chars(s, pos, i));
                proof {
                    lemma_views_push(old_r, r@.last());
                }
                pos = i + 1;
            },
        }
    }
}

/// The whitespace-separated words of `s`.
pub fn words_exec(s: &[char]) -> (r: Vec<Vec<char>>)
    ensures
        views(r@) == words(s@),
{
    let mut r: Vec<Vec<char>> = Vec::new();
    let mut pos: usize = 0;
    while pos < s.len()
        invariant
            pos <= s.len(),
            words(s@) == views(r@) + words_from(s@, pos as int),
        decreases s.len() - pos,
    {
        let ghost old_r = r@;
        let i = skip_ws_exec(s, pos);
        if i >= s.len() {
            pos = s.len();
            proof { assert(words_from(s@, s.len() as int) == Seq::<Seq<char>>::empty()); }
        } else {
            proof {
                lemma_skip_ws(s@, pos as int);
                lemma_word_end(s@, i as int);
            }
            let mut j = i;
            while j < s.len() && !is_whitespace(s[j])
                invariant
                    i <= j <= s.len(),
                    word_end(s@, i as int) == word_end(s@, j as int),
                decreases s.len() - j,
            {
                j = j + 1;
            }
            r.push(sub_chars(s, i, j));
            proof {
                lemma_views_push(old_r, r@.last());
            }
            pos = j;
        }
    }
    proof { assert(views(r@) + Seq::<Seq<char>>::empty() == views(r@)); }
    r
}

/// `parts` joined with `sep`.
pub fn join_exec(parts: &Vec<Vec<char>>, sep: &[char]) -> (r: Vec<char>)
    ensures
        r@ == join(views(parts@), sep@),
{
    let mut r: Vec<char> = Vec::new();
    let mut i: usize = 0;
    while i < parts.len()
        invariant
            i <= parts.len(),
            r@ == join(views(parts@).take(i as int), sep@),
        decreases parts.len() - i,
    {
        proof {
            assert(views(parts@).take(i + 1).drop_last() == views(parts@).take(i as int));
        }
        if i > 0 {
            append_chars(&mut r, sep);
        }
        append_chars(&mut r, &parts[i]);
        i = i + 1;
    }
    proof { assert(views(parts@).take(parts.len() as int) == views(parts@)); }
    r
}


// ---------------------------------------------------------------------------
// Replacing and counting
// ---------------------------------------------------------------------------

/// `s[pos..]` with every non-overlapping occurrence of `pat`, found left to
/// right, replaced by `rep` (`str::replace`); `pat` is not empty.
pub open spec fn replace_from(s: Seq<char>, pat: Seq<char>, rep: Seq<char>, pos: int) -> Seq<char>
    decreases s.len() + 1 - pos,
{
    if pos < 0 || pos > s.len() || pat.len() == 0 {
        seq![]
    } else {
        match find_from(s, pat, pos) {
            None => s.subrange(pos, s.len() as int),
            Some(i) => {
                proof {
                    lemma_find_from(s, pat, pos);
                }
                s.subrange(pos, i) + rep + replace_from(s, pat, rep, i + pat.len())
            },
        }
    }
}

/// `s` with every non-overlapping occurrence of the non-empty `pat` replaced
/// by `rep`.
pub open spec fn replace(s: Seq<char>, pat: Seq<char>, rep: Seq<char>) -> Seq<char> {
    replace_from(s, pat, rep, 0)
}

/// `s` with `rep` put before every character and at the end: what
/// `str::replace` does with an empty pattern.
pub open spec fn replace_empty(s: Seq<char>, rep: Seq<char>) -> Seq<char>
    decreases s.len(),
{
    if s.len() == 0 {
        rep
    } else {
        rep + seq![s[0]] + replace_empty(s.drop_first(), rep)
    }
}

/// `s` with every occurrence of `pat` replaced by `rep` (`str::replace`).
pub open spec fn replace_all(s: Seq<char>, pat: Seq<char>, rep: Seq<char>) -> Seq<char> {
    if pat.len() == 0 {
        replace_empty(s, rep)
    } else {
        replace(s, pat, rep)
    }
}

/// `s` with every occurrence of `pat` replaced by `rep`.
pub fn replace_all_exec(s: &[char], pat: &[char], rep: &[char]) -> (r: Vec<char>)
    ensures
        r@ == replace_all(s@, pat@, rep@),
{
    if pat.len() > 0 {
        return replace_exec(s, pat, rep);
    }
    let mut r: Vec<char> = Vec::new();
    let mut i: usize = 0;
    proof { assert(s@.skip(0) =~= s@); }
    while i < s.len()
        invariant
            i <= s.len(),
            replace_empty(s@, rep@) == r@ + replace_empty(s@.skip(i as int), rep@),
        decreases s.len() - i,
    {
        let ghost r0 = r@;
        append_chars(&mut r, rep);
        r.push(s[i]);
        proof {
            let t = s@.skip(i as int);
            assert(t.drop_first() =~= s@.skip(i + 1));
            assert(t[0] == s@[i as int]);
            assert(r0 + (rep@ + seq![t[0]] + replace_empty(t.drop_first(), rep@)) =~= r@ + replace_empty(s@.skip(i + 1), rep@));
        }
        i = i + 1;
    }
    proof { assert(s@.skip(s.len() as int).len() == 0); }
    append_chars(&mut r, rep);
    proof { assert(r@ =~= r@); }
    r
}

/// The number of non-overlapping occurrences of `pat` in `s[pos..]`, found
/// left to right (`str::matches(pat).count()`); `pat` is not empty.
pub open spec fn count_from(s: Seq<char>, pat: Seq<char>, pos: int) -> nat
    decreases s.len() + 1 - pos,
{
    if pos < 0 || pos > s.len() || pat.len() == 0 {
        0
    } else {
        match find_from(s, pat, pos) {
            None => 0,
            Some(i) => {
                proof {
                    lemma_find_from(s, pat, pos);
                }
                1 + count_from(s, pat, i + pat.len())
            },
        }
    }
}

/// The number of non-overlapping occurrences of the non-empty `pat` in `s`.
pub open spec fn count_matches(s: Seq<char>, pat: Seq<char>) -> nat {
    count_from(s, pat, 0)
}

/// `s` with every occurrence of `pat` replaced by `rep`.
pub fn replace_exec(s: &[char], pat: &[char], rep: &[char]) -> (r: Vec<char>)
    requires
        pat@.len() > 0,
    ensures
        r@ == replace(s@, pat@, rep@),
{
    let mut r: Vec<char> = Vec::new();
    let mut pos: usize = 0;
    loop
        invariant
            pos <= s.len(),
            pat@.len() > 0,
            replace(s@, pat@, rep@) == r@ + replace_from(s@, pat@, rep@, pos as int),
        decreases s.len() - pos,
    {
        match find_from_exec(s, pat, pos) {
            None => {
                let tail = sub_chars(s, pos, s.len());
                append_chars(&mut r, &tail);
                return r;
            },
            Some(i) => {
                proof { lemma_find_from(s@, pat@, pos as int); }
                let ghost r0 = r@;
                let piece = sub_chars(s, pos, i);
                append_chars(&mut r, &piece);
                append_chars(&mut r, rep);
                proof {
                    let rest = replace_from(s@, pat@, rep@, i + pat@.len());
                    assert(r0 + (piece@ + rep@ + rest) =~= r@ + rest);
                }
                pos = i + pat.len();
            },
        }
    }
}

/// The number of occurrences of `pat` in `s`.
pub fn count_matches_exec(s: &[char], pat: &[char]) -> (n: usize)
    requires
        pat@.len() > 0,
    ensures
        n == count_matches(s@, pat@),
{
    let mut n: usize = 0;
    let mut pos: usize = 0;
    loop
        invariant
            pos <= s.len(),
            pat@.len() > 0,
            n <= pos,
            count_matches(s@, pat@) == n + count_from(s@, pat@, pos as int),
        decreases s.len() - pos,
    {
        match find_from_exec(s, pat, pos) {
            None => {
                return n;
            },
            Some(i) => {
                proof { lemma_find_from(s@, pat@, pos as int); }
                n = n + 1;
                pos = i + pat.len();
            },
        }
    }
}


/// The part of `x` before the first `c`.
pub fn before_char_exec(x: &[char], c: char) -> (r: Vec<char>)
    ensures
        r@ == before_char(x@, c),
{
    match find_char_exec(x, c) {
        Some(p) => {
            proof { lemma_find_char_from(x@, c, 0); }
            sub_chars(x, 0, p)
        },
        None => vstd::slice::slice_to_vec(x),
    }
}

/// The part of `x` after the first `c`.
pub fn after_char_exec(x: &[char], c: char) -> (r: Option<Vec<char>>)
    ensures
        match r {
            Some(v) => after_char(x@, c) == Some(v@),
            None => after_char(x@, c) is None,
        },
{
    match find_char_exec(x, c) {
        Some(p) => {
            proof {
                lemma_find_char_from(x@, c, 0);
                assert(find_char_from(x@, c, 0) == Some(p as int));
            }
            let n = x.len();
            assert(p < n);
            Some(sub_chars(x, p + 1, n))
        },
        None => None,
    }
}

/// The part of `x` before the first occurrence of `pat`.
pub fn before_pat_exec(x: &[char], pat: &[char]) -> (r: Vec<char>)
    ensures
        r@ == before_pat(x@, pat@),
{
    match find_exec(x, pat) {
        Some(p) => {
            proof { lemma_find_from(x@, pat@, 0); }
            sub_chars(x, 0, p)
        },
        None => vstd::slice::slice_to_vec(x),
    }
}

/// The part of `x` after the first occurrence of `pat`.
pub fn after_pat_exec(x: &[char], pat: &[char]) -> (r: Option<Vec<char>>)
    ensures
        match r {
            Some(v) => after_pat(x@, pat@) == Some(v@),
            None => after_pat(x@, pat@) is None,
        },
{
    match find_exec(x, pat) {
        Some(p) => {
            proof {
                lemma_find_from(x@, pat@, 0);
                assert(find_from(x@, pat@, 0) == Some(p as int));
                assert(matches_at(x@, pat@, p as int));
            }
            let n = x.len();
            assert(p + pat.len() <= n);
            Some(sub_chars(x, p + pat.len(), n))
        },
        None => None,
    }
}


// ---------------------------------------------------------------------------
// Numbers and byte prefixes
// ---------------------------------------------------------------------------

/// The digit character for `d < 10`.
pub open spec fn digit_char(d: nat) -> char {
    if d == 0 { '0' } else if d == 1 { '1' } else if d == 2 { '2' } else if d == 3 { '3' }
    else if d == 4 { '4' } else if d == 5 { '5' } else if d == 6 { '6' } else if d == 7 { '7' }
    else if d == 8 { '8' } else { '9' }
}

/// The decimal representation of `n`, without leading zeros (`to_string`).
pub open spec fn decimal(n: nat) -> Seq<char>
    decreases n,
{
    if n < 10 {
        seq![digit_char(n)]
    } else {
        decimal(n / 10).push(digit_char(n % 10))
    }
}

fn digit_exec(d: usize) -> (c: char)
    requires
        d < 10,
    ensures
        c == digit_char(d as nat),
{
    if d == 0 { '0' } else if d == 1 { '1' } else if d == 2 { '2' } else if d == 3 { '3' }
    else if d == 4 { '4' } else if d == 5 { '5' } else if d == 6 { '6' } else if d == 7 { '7' }
    else if d == 8 { '8' } else { '9' }
}

/// The decimal representation of `n`.
pub fn decimal_exec(n: usize) -> (r: Vec<char>)
    ensures
        r@ == decimal(n as nat),
    decreases n,
{
    if n < 10 {
        let mut v: Vec<char> = Vec::new();
        v.push(digit_exec(n));
        proof { assert(v@ =~= seq![digit_char(n as nat)]); }
        v
    } else {
        let mut v = decimal_exec(n / 10);
        v.push(digit_exec(n % 10));
        v
    }
}

} // verus!
