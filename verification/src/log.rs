//! The vault timeline: `log.md`, one line per event, appended only.

use vstd::prelude::*;
use crate::text::{append_chars, from_chars, to_chars};

verus! {

/// The text a new `log.md` starts with.
pub fn log_header() -> (r: String)
    ensures
        r@ == "# Log\n\n"@,
{
    from_chars(&to_chars("# Log\n\n"))
}

/// One timeline line: time, kind, subject and note separated by two spaces,
/// ending the line.
pub open spec fn log_entry(now: Seq<char>, kind: Seq<char>, subject: Seq<char>, note: Seq<char>) -> Seq<char> {
    now + "  "@ + kind + "  "@ + subject + "  "@ + note + "\n"@
}

/// No character of `s` is a newline.
pub open spec fn one_line(s: Seq<char>) -> bool {
    forall|i: int| 0 <= i < s.len() ==> s[i] != '\n'
}

/// The line to append to `log.md` for an event at time `now`. When no field
/// holds a newline, the result is exactly one line: it ends with the only
/// newline it holds.
pub fn log_line(now: &str, kind: &str, subject: &str, note: &str) -> (r: String)
    ensures
        r@ == log_entry(now@, kind@, subject@, note@),
        one_line(now@) && one_line(kind@) && one_line(subject@) && one_line(note@) ==> {
            &&& r@.len() > 0
            &&& r@.last() == '\n'
            &&& one_line(r@.drop_last())
        },
{
    proof {
        reveal_strlit("  ");
        reveal_strlit("\n");
    }
    let mut r = to_chars(now);
    let sep = to_chars("  ");
    append_chars(&mut r, &sep);
    append_chars(&mut r, &to_chars(kind));
    append_chars(&mut r, &sep);
    append_chars(&mut r, &to_chars(subject));
    append_chars(&mut r, &sep);
    append_chars(&mut r, &to_chars(note));
    append_chars(&mut r, &to_chars("\n"));
    proof {
        let body = now@ + "  "@ + kind@ + "  "@ + subject@ + "  "@ + note@;
        assert(r@ == body + "\n"@);
        assert(r@.drop_last() =~= body);
        if one_line(now@) && one_line(kind@) && one_line(subject@) && one_line(note@) {
            assert forall|i: int| 0 <= i < body.len() implies body[i] != '\n' by {
                let a = now@.len() as int;
                let b = a + 2 + kind@.len();
                let c = b + 2 + subject@.len();
                if i < a {
                    assert(body[i] == now@[i]);
                } else if i < a + 2 {
                } else if i < b {
                    assert(body[i] == kind@[i - a - 2]);
                } else if i < b + 2 {
                } else if i < c {
                    assert(body[i] == subject@[i - b - 2]);
                } else if i < c + 2 {
                } else {
                    assert(body[i] == note@[i - c - 2]);
                }
            }
        }
    }
    from_chars(&r)
}

} // verus!
