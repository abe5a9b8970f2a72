//! Page editing: entity pages with their mentions and decision logs, source
//! summaries and answers. Everything here computes page text; reading and
//! writing the files is left to the caller.

use vstd::prelude::*;
use crate::frontmatter::{eq_chars, split_fm, split_frontmatter};
use crate::text::{
    lemma_contains_at, lemma_contains_within,
    append_chars, char_is_alphanumeric, contains, contains_exec, find, find_char,
    find_char_exec, find_exec, from_chars, is_alphanumeric, join, join_exec, lemma_find_char_from,
    lemma_find_from, lines, lines_exec, lowercase, lowercase_chars, split_char, split_char_exec,
    starts_with, starts_with_exec, sub_chars, to_chars, trim, trim_end_char, trim_end_char_exec,
    trim_exec, views, replace, replace_exec,
};
use crate::links::string_views;

verus! {

// ---------------------------------------------------------------------------
// Small text pieces
// ---------------------------------------------------------------------------

/// The source link a mention starts with: everything up to and including
/// the first `]]`, or nothing when it has none.
pub open spec fn source_link(mention: Seq<char>) -> Seq<char> {
    match find(mention, "]]"@) {
        Some(e) => mention.take(e + 2),
        None => seq![],
    }
}

/// The source link a mention such as `[[Source]] — claim` starts with.
pub fn extract_source_link(mention: &str) -> (r: String)
    ensures
        r@ == source_link(mention@),
{
    let m = to_chars(mention);
    let close = to_chars("]]");
    proof { reveal_strlit("]]"); }
    match find_exec(&m, &close) {
        Some(e) => {
            proof {
                lemma_find_from(m@, close@, 0);
            }
            let n = m.len();
            assert(e + 2 <= n);
            from_chars(&sub_chars(&m, 0, e + 2))
        },
        None => String::new(),
    }
}

/// A frontmatter line with `field:` set to `value` when it sets that field.
pub open spec fn set_field_line(line: Seq<char>, field: Seq<char>, value: Seq<char>) -> Seq<char> {
    if starts_with(line, field + ":"@) {
        field + ": "@ + value
    } else {
        line
    }
}

/// `content` with every frontmatter line that starts with `field:` replaced
/// by `field: value`; the frontmatter is rewritten as `---`, its lines,
/// `---`, an empty line, then the body. A page without frontmatter is left
/// as it is.
pub open spec fn with_field(content: Seq<char>, field: Seq<char>, value: Seq<char>) -> Seq<char> {
    match split_fm(content) {
        (Some(fm), body) => {
            let ls = lines(fm);
            "---\n"@ + join(Seq::new(ls.len(), |i: int| set_field_line(ls[i], field, value)), "\n"@)
                + "\n---\n\n"@ + body
        },
        (None, _) => content,
    }
}

/// Set a frontmatter field of a page.
pub fn update_frontmatter_field(content: &str, field: &str, value: &str) -> (r: String)
    ensures
        r@ == with_field(content@, field@, value@),
{
    let (fm, body) = split_frontmatter(content);
    match fm {
        Some(f) => {
            let fc = to_chars(f);
            let ls = lines_exec(&fc);
            let mut key = to_chars(field);
            let colon = to_chars(":");
            append_chars(&mut key, &colon);
            let mut repl = to_chars(field);
            let sep = to_chars(": ");
            append_chars(&mut repl, &sep);
            let v = to_chars(value);
            append_chars(&mut repl, &v);
            let mut out: Vec<Vec<char>> = Vec::new();
            let mut i: usize = 0;
            while i < ls.len()
                invariant
                    i <= ls.len(),
                    key@ == field@ + ":"@,
                    repl@ == field@ + ": "@ + value@,
                    views(out@) == Seq::new(i as nat, |k: int| set_field_line(views(ls@)[k], field@, value@)),
                decreases ls.len() - i,
            {
                let ghost o = out@;
                if starts_with_exec(&ls[i], &key) {
                    out.push(vstd::slice::slice_to_vec(repl.as_slice()));
                } else {
                    out.push(vstd::slice::slice_to_vec(ls[i].as_slice()));
                }
                proof {
                    crate::text::lemma_views_push(o, out@.last());
                    assert(views(out@) =~= Seq::new((i + 1) as nat, |k: int| set_field_line(views(ls@)[k], field@, value@)));
                }
                i = i + 1;
            }
            let nl = to_chars("\n");
            let joined = join_exec(&out, &nl);
            let mut r = to_chars("---\n");
            append_chars(&mut r, &joined);
            let mid = to_chars("\n---\n\n");
            append_chars(&mut r, &mid);
            let b = to_chars(body);
            append_chars(&mut r, &b);
            proof {
                assert(views(out@) =~= Seq::new(lines(f@).len(), |k: int| set_field_line(lines(f@)[k], field@, value@)));
            }
            from_chars(&r)
        },
        None => content.to_owned(),
    }
}

/// An entry folded onto one line: its lines trimmed, empty ones dropped, the
/// rest joined with single spaces.
pub open spec fn folded_entry(entry: Seq<char>) -> Seq<char> {
    join(nonempty_trimmed(lines(entry)), " "@)
}

/// The non-empty trimmed lines.
pub open spec fn nonempty_trimmed(ls: Seq<Seq<char>>) -> Seq<Seq<char>>
    decreases ls.len(),
{
    if ls.len() == 0 {
        seq![]
    } else {
        let r = nonempty_trimmed(ls.drop_last());
        if trim(ls.last()).len() > 0 {
            r.push(trim(ls.last()))
        } else {
            r
        }
    }
}

/// Fold an entry's lines into one line.
pub fn normalize_entry(entry: &str) -> (r: String)
    ensures
        r@ == folded_entry(entry@),
{
    let e = to_chars(entry);
    let ls = lines_exec(&e);
    let mut kept: Vec<Vec<char>> = Vec::new();
    let mut i: usize = 0;
    while i < ls.len()
        invariant
            i <= ls.len(),
            views(kept@) == nonempty_trimmed(views(ls@).take(i as int)),
        decreases ls.len() - i,
    {
        proof {
            assert(views(ls@).take(i + 1).drop_last() =~= views(ls@).take(i as int));
            assert(views(ls@).take(i + 1).last() == ls@[i as int]@);
        }
        let t = trim_exec(&ls[i]);
        if t.len() > 0 {
            let ghost o = kept@;
            kept.push(t);
            proof { crate::text::lemma_views_push(o, kept@.last()); }
        }
        i = i + 1;
    }
    proof { assert(views(ls@).take(ls.len() as int) =~= views(ls@)); }
    let sp = to_chars(" ");
    from_chars(&join_exec(&kept, &sp))
}

/// A title turned into a file slug: lowercased, every character that is not
/// alphanumeric made a `-`, then the non-empty `-`-separated pieces joined
/// with single `-`.
pub open spec fn slug_of(title: Seq<char>) -> Seq<char> {
    let l = lowercase(title);
    let d = Seq::new(l.len(), |i: int| if char_is_alphanumeric(l[i]) { l[i] } else { '-' });
    join(nonempty_pieces(split_char(d, '-')), seq!['-'])
}

/// The non-empty pieces.
pub open spec fn nonempty_pieces(ps: Seq<Seq<char>>) -> Seq<Seq<char>>
    decreases ps.len(),
{
    if ps.len() == 0 {
        seq![]
    } else {
        let r = nonempty_pieces(ps.drop_last());
        if ps.last().len() > 0 {
            r.push(ps.last())
        } else {
            r
        }
    }
}

pub(crate) fn nonempty_pieces_exec(ps: &Vec<Vec<char>>) -> (r: Vec<Vec<char>>)
    ensures
        views(r@) == nonempty_pieces(views(ps@)),
{
    let mut r: Vec<Vec<char>> = Vec::new();
    let mut i: usize = 0;
    while i < ps.len()
        invariant
            i <= ps.len(),
            views(r@) == nonempty_pieces(views(ps@).take(i as int)),
        decreases ps.len() - i,
    {
        proof {
            assert(views(ps@).take(i + 1).drop_last() =~= views(ps@).take(i as int));
            assert(views(ps@).take(i + 1).last() == ps@[i as int]@);
        }
        if ps[i].len() > 0 {
            let ghost o = r@;
            r.push(vstd::slice::slice_to_vec(ps[i].as_slice()));
            proof { crate::text::lemma_views_push(o, r@.last()); }
        }
        i = i + 1;
    }
    proof { assert(views(ps@).take(ps.len() as int) =~= views(ps@)); }
    r
}

/// Convert a title to a slug (lowercase, hyphenated).
pub fn title_to_slug(title: &str) -> (r: String)
    ensures
        r@ == slug_of(title@),
{
    let t = to_chars(title);
    let l = lowercase_chars(&t);
    let mut d: Vec<char> = Vec::new();
    let mut i: usize = 0;
    while i < l.len()
        invariant
            i <= l.len(),
            d@ == Seq::new(i as nat, |k: int| if char_is_alphanumeric(l@[k]) { l@[k] } else { '-' }),
        decreases l.len() - i,
    {
        let c = l[i];
        d.push(if is_alphanumeric(c) { c } else { '-' });
        proof {
            assert(d@ =~= Seq::new((i + 1) as nat, |k: int| if char_is_alphanumeric(l@[k]) { l@[k] } else { '-' }));
        }
        i = i + 1;
    }
    let pieces = split_char_exec(&d, '-');
    let kept = nonempty_pieces_exec(&pieces);
    let dash: [char; 1] = ['-'];
    proof { assert(dash@ =~= seq!['-']); }
    from_chars(&join_exec(&kept, dash.as_slice()))
}

/// `b` starts with a `YYYY-MM-DD: ` date: ten characters, digits but for
/// `-` at positions 4 and 7, then `: `.
pub open spec fn has_date_prefix(b: Seq<char>) -> bool {
    &&& b.len() >= 12
    &&& forall|i: int| 0 <= i < 10 ==> if i == 4 || i == 7 { b[i] == '-' } else { crate::text::is_ascii_digit(#[trigger] b[i]) }
    &&& b[10] == ':' && b[11] == ' '
}

/// A bullet without its leading date, if it has one.
pub open spec fn without_date(b: Seq<char>) -> Seq<char> {
    if has_date_prefix(b) {
        b.skip(12)
    } else {
        b
    }
}

/// Strip a leading `YYYY-MM-DD: ` date prefix from a bullet, if present.
pub fn strip_date_prefix(bullet: &[char]) -> (r: Vec<char>)
    ensures
        r@ == without_date(bullet@),
{
    if bullet.len() < 12 {
        return vstd::slice::slice_to_vec(bullet);
    }
    let mut i: usize = 0;
    while i < 10
        invariant
            i <= 10,
            bullet@.len() >= 12,
            forall|k: int| 0 <= k < i ==> if k == 4 || k == 7 { bullet@[k] == '-' } else { crate::text::is_ascii_digit(#[trigger] bullet@[k]) },
        decreases 10 - i,
    {
        let c = bullet[i];
        let ok = if i == 4 || i == 7 { c == '-' } else { '0' <= c && c <= '9' };
        if !ok {
            return vstd::slice::slice_to_vec(bullet);
        }
        i = i + 1;
    }
    if bullet[10] == ':' && bullet[11] == ' ' {
        sub_chars(bullet, 12, bullet.len())
    } else {
        vstd::slice::slice_to_vec(bullet)
    }
}


// ---------------------------------------------------------------------------
// Sections
// ---------------------------------------------------------------------------

/// Where the section whose heading is at `pos` begins: just after the end of
/// the heading's line (the end of the text when the line does not end).
pub open spec fn section_start(c: Seq<char>, pos: int) -> int {
    match find_char(c.skip(pos), '\n') {
        Some(p) => pos + p + 1,
        None => c.len() as int,
    }
}

/// `c` with `bullet` put at the end of the section under `header`: before
/// the next `## ` heading (trailing newlines before it folded into one, and
/// an empty line kept before that heading), or at the end of the text.
pub open spec fn bullet_at_section_end(c: Seq<char>, header: Seq<char>, bullet: Seq<char>) -> Seq<char> {
    let pos = find(c, header)->0;
    let ss = section_start(c, pos);
    match find(c.skip(ss), "\n## "@) {
        Some(p) => {
            let ns = ss + p + 1;
            trim_end_char(c.take(ns), '\n') + "\n"@ + bullet + "\n\n"@ + c.skip(ns)
        },
        None => trim_end_char(c, '\n') + "\n"@ + bullet + "\n"@,
    }
}

proof fn lemma_section_start(c: Seq<char>, pos: int)
    requires
        0 <= pos <= c.len(),
    ensures
        pos <= section_start(c, pos) <= c.len(),
{
    lemma_find_char_from(c.skip(pos), '\n', 0);
}

fn section_start_exec(c: &[char], pos: usize) -> (r: usize)
    requires
        pos <= c.len(),
    ensures
        r as int == section_start(c@, pos as int),
        pos <= r <= c.len(),
{
    proof { lemma_section_start(c@, pos as int); }
    let after = vstd::slice::slice_subrange(c, pos, c.len());
    proof { assert(after@ =~= c@.skip(pos as int)); }
    match find_char_exec(after, '\n') {
        Some(p) => {
            proof { lemma_find_char_from(after@, '\n', 0); }
            pos + p + 1
        },
        None => c.len(),
    }
}

/// Append a bullet at the end of a named section that `content` has.
pub fn append_bullet_to_section(content: &[char], section_header: &[char], bullet: &[char]) -> (r: Vec<char>)
    requires
        contains(content@, section_header@),
    ensures
        r@ == bullet_at_section_end(content@, section_header@, bullet@),
{
    proof { reveal_strlit("\n## "); reveal_strlit("\n"); reveal_strlit("\n\n"); }
    let pos = match find_exec(content, section_header) {
        Some(p) => p,
        None => 0,
    };
    proof {
        lemma_find_from(content@, section_header@, 0);
    }
    let ss = section_start_exec(content, pos);
    let rest = vstd::slice::slice_subrange(content, ss, content.len());
    proof { assert(rest@ =~= content@.skip(ss as int)); }
    let marker = to_chars("\n## ");
    let nl = to_chars("\n");
    let mut r: Vec<char>;
    match find_exec(rest, &marker) {
        Some(p) => {
            proof { lemma_find_from(rest@, marker@, 0); }
            let ns = ss + p + 1;
            let head = vstd::slice::slice_subrange(content, 0, ns);
            r = trim_end_char_exec(head, '\n');
            proof { assert(head@ =~= content@.take(ns as int)); }
            append_chars(&mut r, &nl);
            append_chars(&mut r, bullet);
            let nn = to_chars("\n\n");
            append_chars(&mut r, &nn);
            let tail = sub_chars(content, ns, content.len());
            proof { assert(tail@ =~= content@.skip(ns as int)); }
            append_chars(&mut r, &tail);
        },
        None => {
            r = trim_end_char_exec(content, '\n');
            append_chars(&mut r, &nl);
            append_chars(&mut r, bullet);
            append_chars(&mut r, &nl);
        },
    }
    r
}

/// A page with a mention bullet added under `## Mentions` (a `## Mentions`
/// section is added at the end when there is none) and `updated:` set to
/// `now`.
pub open spec fn mentioned(content: Seq<char>, mention: Seq<char>, now: Seq<char>) -> Seq<char> {
    let c = with_field(content, "updated"@, now);
    let b = "- "@ + mention;
    if contains(c, "## Mentions"@) {
        bullet_at_section_end(c, "## Mentions"@, b)
    } else {
        trim_end_char(c, '\n') + "\n\n## Mentions\n\n"@ + b + "\n"@
    }
}

/// Append a mention bullet under `## Mentions` and bump `updated:`.
pub fn append_mention(content: &str, mention: &str, now: &str) -> (r: String)
    ensures
        r@ == mentioned(content@, mention@, now@),
{
    let c = update_frontmatter_field(content, "updated", now);
    let cs = to_chars(c.as_str());
    let mut b = to_chars("- ");
    let m = to_chars(mention);
    append_chars(&mut b, &m);
    let header = to_chars("## Mentions");
    if contains_exec(&cs, &header) {
        from_chars(&append_bullet_to_section(&cs, &header, &b))
    } else {
        let mut r = trim_end_char_exec(&cs, '\n');
        let mid = to_chars("\n\n## Mentions\n\n");
        append_chars(&mut r, &mid);
        append_chars(&mut r, &b);
        let nl = to_chars("\n");
        append_chars(&mut r, &nl);
        from_chars(&r)
    }
}

/// A page with the dated bullet `- date: entry` added to its decision log and
/// `updated:` set to `now`: at the end of an existing `## Decision log`
/// section; else in a new section spliced in just before `## Mentions`; else
/// in a new section at the end.
pub open spec fn with_decision(content: Seq<char>, date: Seq<char>, entry: Seq<char>, now: Seq<char>) -> Seq<char> {
    let c = with_field(content, "updated"@, now);
    let b = "- "@ + date + ": "@ + entry;
    if contains(c, "## Decision log"@) {
        bullet_at_section_end(c, "## Decision log"@, b)
    } else {
        match find(c, "## Mentions"@) {
            Some(mp) => trim_end_char(c.take(mp), '\n') + "\n\n## Decision log\n\n"@ + b + "\n\n"@ + c.skip(mp),
            None => trim_end_char(c, '\n') + "\n\n## Decision log\n\n"@ + b + "\n"@,
        }
    }
}

/// Append a dated bullet to `## Decision log`, refreshing `updated:`.
pub fn append_decision_entry(content: &str, date: &str, entry: &str, now: &str) -> (r: String)
    ensures
        r@ == with_decision(content@, date@, entry@, now@),
{
    let c = update_frontmatter_field(content, "updated", now);
    let cs = to_chars(c.as_str());
    let mut b = to_chars("- ");
    let d = to_chars(date);
    append_chars(&mut b, &d);
    let sep = to_chars(": ");
    append_chars(&mut b, &sep);
    let e = to_chars(entry);
    append_chars(&mut b, &e);
    let header = to_chars("## Decision log");
    let mentions = to_chars("## Mentions");
    let mid = to_chars("\n\n## Decision log\n\n");
    if contains_exec(&cs, &header) {
        from_chars(&append_bullet_to_section(&cs, &header, &b))
    } else {
        match find_exec(&cs, &mentions) {
            Some(mp) => {
                proof { lemma_find_from(cs@, mentions@, 0); }
                let head = vstd::slice::slice_subrange(cs.as_slice(), 0, mp);
                proof { assert(head@ =~= cs@.take(mp as int)); }
                let mut r = trim_end_char_exec(head, '\n');
                append_chars(&mut r, &mid);
                append_chars(&mut r, &b);
                let nn = to_chars("\n\n");
                append_chars(&mut r, &nn);
                let tail = sub_chars(&cs, mp, cs.len());
                proof { assert(tail@ =~= cs@.skip(mp as int)); }
                append_chars(&mut r, &tail);
                from_chars(&r)
            },
            None => {
                let mut r = trim_end_char_exec(&cs, '\n');
                append_chars(&mut r, &mid);
                append_chars(&mut r, &b);
                let nl = to_chars("\n");
                append_chars(&mut r, &nl);
                from_chars(&r)
            },
        }
    }
}


// ---------------------------------------------------------------------------
// Reading the decision log
// ---------------------------------------------------------------------------

/// The bullet items among lines: each line trimmed, kept when it starts with
/// `- `, without that `- `.
pub open spec fn dash_items(ls: Seq<Seq<char>>) -> Seq<Seq<char>>
    decreases ls.len(),
{
    if ls.len() == 0 {
        seq![]
    } else {
        let r = dash_items(ls.drop_last());
        let t = trim(ls.last());
        if starts_with(t, "- "@) {
            r.push(t.skip(2))
        } else {
            r
        }
    }
}

/// The bullets of the first `## Decision log` section, in file order
/// (oldest first), without their `- `: the section runs from the line after
/// the heading to the next `## ` heading or the end of the text.
pub open spec fn log_bullets(c: Seq<char>) -> Seq<Seq<char>> {
    match find(c, "## Decision log"@) {
        None => seq![],
        Some(pos) => {
            let rest = c.skip(section_start(c, pos));
            let end = match find(rest, "\n## "@) {
                Some(e) => e,
                None => rest.len() as int,
            };
            dash_items(lines(rest.take(end)))
        },
    }
}

/// The bullets under `## Decision log`, oldest first.
pub fn decision_log_bullets(content: &[char]) -> (r: Vec<Vec<char>>)
    ensures
        views(r@) == log_bullets(content@),
{
    let header = to_chars("## Decision log");
    let pos = match find_exec(content, &header) {
        Some(p) => p,
        None => return Vec::new(),
    };
    proof { lemma_find_from(content@, header@, 0); }
    let ss = section_start_exec(content, pos);
    let rest = vstd::slice::slice_subrange(content, ss, content.len());
    proof { assert(rest@ =~= content@.skip(ss as int)); }
    let marker = to_chars("\n## ");
    let end = match find_exec(rest, &marker) {
        Some(e) => {
            proof { lemma_find_from(rest@, marker@, 0); }
            e
        },
        None => rest.len(),
    };
    let body = vstd::slice::slice_subrange(rest, 0, end);
    proof { assert(body@ =~= rest@.take(end as int)); }
    let ls = lines_exec(body);
    let dash = to_chars("- ");
    let mut r: Vec<Vec<char>> = Vec::new();
    let mut i: usize = 0;
    while i < ls.len()
        invariant
            i <= ls.len(),
            dash@ == "- "@,
            views(r@) == dash_items(views(ls@).take(i as int)),
        decreases ls.len() - i,
    {
        proof {
            assert(views(ls@).take(i + 1).drop_last() =~= views(ls@).take(i as int));
            assert(views(ls@).take(i + 1).last() == ls@[i as int]@);
        }
        let t = trim_exec(&ls[i]);
        if starts_with_exec(&t, &dash) {
            let ghost o = r@;
            proof { reveal_strlit("- "); }
            r.push(sub_chars(&t, 2, t.len()));
            proof {
                crate::text::lemma_views_push(o, r@.last());
                assert(t@.subrange(2, t@.len() as int) =~= t@.skip(2));
            }
        }
        i = i + 1;
    }
    proof { assert(views(ls@).take(ls.len() as int) =~= views(ls@)); }
    r
}

/// The decision log has an entry equal to `entry` once its date is removed.
pub open spec fn log_has_entry(c: Seq<char>, entry: Seq<char>) -> bool {
    exists|k: int| 0 <= k < log_bullets(c).len() && without_date(#[trigger] log_bullets(c)[k]) == entry
}

/// Does the decision log already contain this entry (compared after its
/// date prefix is stripped)?
pub fn decision_log_contains(content: &[char], entry: &[char]) -> (b: bool)
    ensures
        b == log_has_entry(content@, entry@),
{
    let bs = decision_log_bullets(content);
    let mut i: usize = 0;
    while i < bs.len()
        invariant
            i <= bs.len(),
            views(bs@) == log_bullets(content@),
            forall|k: int| 0 <= k < i ==> without_date(#[trigger] log_bullets(content@)[k]) != entry@,
        decreases bs.len() - i,
    {
        proof {
            assert(views(bs@)[i as int] == bs@[i as int]@);
        }
        let s = strip_date_prefix(&bs[i]);
        if eq_chars(&s, entry) {
            return true;
        }
        i = i + 1;
    }
    false
}

/// The decision log of a page, newest first, each entry without its `- `;
/// empty when there is no page or no log.
pub fn decision_log(content: Option<&str>) -> (r: Vec<String>)
    ensures
        match content {
            Some(c) => crate::links::string_views(r@) == log_bullets(c@).reverse(),
            None => r@.len() == 0,
        },
{
    match content {
        None => Vec::new(),
        Some(c) => {
            let cs = to_chars(c);
            let bs = decision_log_bullets(&cs);
            let mut r: Vec<String> = Vec::new();
            let mut i: usize = bs.len();
            while i > 0
                invariant
                    i <= bs.len(),
                    views(bs@) == log_bullets(c@),
                    crate::links::string_views(r@) == log_bullets(c@).reverse().take(bs.len() - i),
                decreases i,
            {
                let ghost o = r@;
                r.push(from_chars(&bs[i - 1]));
                proof {
                    assert(crate::links::string_views(r@) =~= crate::links::string_views(o).push(bs@[i - 1]@));
                    assert(log_bullets(c@).reverse().take(bs.len() - i + 1) =~= log_bullets(c@).reverse().take(bs.len() - i).push(log_bullets(c@)[i - 1]));
                }
                i = i - 1;
            }
            proof { assert(log_bullets(c@).reverse().take(bs.len() as int) =~= log_bullets(c@).reverse()); }
            r
        },
    }
}


// ---------------------------------------------------------------------------
// Whole pages
// ---------------------------------------------------------------------------

pub open spec fn opt_str(o: Option<&str>) -> Option<Seq<char>> {
    match o {
        Some(s) => Some(s@),
        None => None,
    }
}

pub open spec fn opt_string(o: Option<String>) -> Option<Seq<char>> {
    match o {
        Some(s) => Some(s@),
        None => None,
    }
}

/// A new entity page: entity frontmatter (with `aliases: [alias]` when an
/// alias is given), then `## Mentions` with the mention as its first bullet
/// when one is given.
pub open spec fn new_entity_page(title: Seq<char>, alias: Option<Seq<char>>, mention: Option<Seq<char>>, now: Seq<char>) -> Seq<char> {
    "---\nsumma: entity\ntitle: "@ + title + "\n"@ + match alias {
        Some(a) => "aliases: ["@ + a + "]\n"@,
        None => seq![],
    } + "created: "@ + now + "\nupdated: "@ + now + "\n---\n\n"@ + "## Mentions\n\n"@ + match mention {
        Some(m) => "- "@ + m + "\n"@,
        None => seq![],
    }
}

/// What `entity` writes: a new page when there is none; for an existing page
/// the mention appended (and `updated:` bumped) unless the page already
/// contains the mention's source link; nothing otherwise.
pub open spec fn entity_write(existing: Option<Seq<char>>, title: Seq<char>, alias: Option<Seq<char>>, mention: Option<Seq<char>>, now: Seq<char>) -> Option<Seq<char>> {
    match existing {
        None => Some(new_entity_page(title, alias, mention, now)),
        Some(e) => match mention {
            Some(m) => if source_link(m).len() == 0 || !contains(e, source_link(m)) {
                Some(mentioned(e, m, now))
            } else {
                None
            },
            None => None,
        },
    }
}

/// Create or update an entity page. `existing` is the page's current text
/// (none when there is no page yet); the result is the text to write, or
/// none when nothing changes.
/// - A missing page is created with its frontmatter and a `## Mentions`
///   section holding the mention, if given.
/// - On an existing page the mention is appended under `## Mentions` and
///   `updated:` bumped, unless its source link already appears (dedup).
pub fn entity(existing: Option<&str>, title: &str, alias: Option<&str>, mention: Option<&str>, now: &str) -> (r: Option<String>)
    ensures
        opt_string(r) == entity_write(opt_str(existing), title@, opt_str(alias), opt_str(mention), now@),
{
    match existing {
        None => {
            let mut c = to_chars("---\nsumma: entity\ntitle: ");
            append_chars(&mut c, &to_chars(title));
            append_chars(&mut c, &to_chars("\n"));
            match alias {
                Some(a) => {
                    append_chars(&mut c, &to_chars("aliases: ["));
                    append_chars(&mut c, &to_chars(a));
                    append_chars(&mut c, &to_chars("]\n"));
                },
                None => {},
            }
            append_chars(&mut c, &to_chars("created: "));
            append_chars(&mut c, &to_chars(now));
            append_chars(&mut c, &to_chars("\nupdated: "));
            append_chars(&mut c, &to_chars(now));
            append_chars(&mut c, &to_chars("\n---\n\n"));
            append_chars(&mut c, &to_chars("## Mentions\n\n"));
            match mention {
                Some(m) => {
                    append_chars(&mut c, &to_chars("- "));
                    append_chars(&mut c, &to_chars(m));
                    append_chars(&mut c, &to_chars("\n"));
                },
                None => {},
            }
            proof {
                assert(c@ =~= new_entity_page(title@, opt_str(alias), opt_str(mention), now@));
            }
            Some(from_chars(&c))
        },
        Some(e) => match mention {
            Some(m) => {
                let link = extract_source_link(m);
                let es = to_chars(e);
                let ls = to_chars(link.as_str());
                if ls.len() == 0 || !contains_exec(&es, &ls) {
                    Some(append_mention(e, m, now))
                } else {
                    None
                }
            },
            None => None,
        },
    }
}

/// The page after `entity` ran: what it wrote, or the page as it was.
pub open spec fn after_entity(existing: Option<Seq<char>>, title: Seq<char>, alias: Option<Seq<char>>, mention: Option<Seq<char>>, now: Seq<char>) -> Option<Seq<char>> {
    match entity_write(existing, title, alias, mention, now) {
        Some(c) => Some(c),
        None => existing,
    }
}

/// A mention bullet holds the mention's source link.
proof fn lemma_bullet_has_link(m: Seq<char>)
    requires
        source_link(m).len() > 0,
    ensures
        contains("- "@ + m, source_link(m)),
{
    reveal_strlit("- ");
    reveal_strlit("]]");
    lemma_find_from(m, "]]"@, 0);
    let b = "- "@ + m;
    let l = source_link(m);
    assert(l.len() <= m.len());
    assert(b.subrange(2, 2 + l.len() as int) =~= l);
    lemma_contains_at(b, l, 2);
}

/// Filing a mention with a source link is idempotent: once it has been
/// filed on a page (new or existing), filing the same mention again, at any
/// later time and with any alias, writes nothing.
pub proof fn lemma_mention_dedup(
    existing: Option<Seq<char>>,
    title: Seq<char>,
    alias: Option<Seq<char>>,
    m: Seq<char>,
    now: Seq<char>,
    alias2: Option<Seq<char>>,
    later: Seq<char>,
)
    requires
        source_link(m).len() > 0,
    ensures
        after_entity(existing, title, alias, Some(m), now) is Some,
        entity_write(after_entity(existing, title, alias, Some(m), now), title, alias2, Some(m), later) is None,
{
    let l = source_link(m);
    let b = "- "@ + m;
    lemma_bullet_has_link(m);
    match existing {
        None => {
            let pre = "---\nsumma: entity\ntitle: "@ + title + "\n"@ + match alias {
                Some(a) => "aliases: ["@ + a + "]\n"@,
                None => seq![],
            } + "created: "@ + now + "\nupdated: "@ + now + "\n---\n\n"@ + "## Mentions\n\n"@;
            assert(new_entity_page(title, alias, Some(m), now) =~= pre + b + "\n"@);
            lemma_contains_within(pre, b, "\n"@, l);
        },
        Some(e) => {
            if !contains(e, l) {
                let c = with_field(e, "updated"@, now);
                if contains(c, "## Mentions"@) {
                    let pos = find(c, "## Mentions"@)->0;
                    let ss = section_start(c, pos);
                    match find(c.skip(ss), "\n## "@) {
                        Some(p) => {
                            let ns = ss + p + 1;
                            let pre = trim_end_char(c.take(ns), '\n') + "\n"@;
                            let post = "\n\n"@ + c.skip(ns);
                            assert(mentioned(e, m, now) =~= pre + b + post);
                            lemma_contains_within(pre, b, post, l);
                        },
                        None => {
                            let pre = trim_end_char(c, '\n') + "\n"@;
                            assert(mentioned(e, m, now) =~= pre + b + "\n"@);
                            lemma_contains_within(pre, b, "\n"@, l);
                        },
                    }
                } else {
                    let pre = trim_end_char(c, '\n') + "\n\n## Mentions\n\n"@;
                    assert(mentioned(e, m, now) =~= pre + b + "\n"@);
                    lemma_contains_within(pre, b, "\n"@, l);
                }
            }
        },
    }
}

/// The placeholder a new decision page holds where its lede will go.
pub open spec fn lede_placeholder() -> Seq<char> {
    "_Lede: what this is, in a line or two._"@
}

/// A new entity page holding one decision: entity frontmatter, a lede
/// placeholder, a `## Decision log` with the dated entry, then `## Mentions`.
pub open spec fn new_decision_page(title: Seq<char>, date: Seq<char>, entry: Seq<char>, now: Seq<char>) -> Seq<char> {
    "---\nsumma: entity\ntitle: "@ + title + "\ncreated: "@ + now + "\nupdated: "@ + now
        + "\n---\n\n"@ + lede_placeholder() + "\n\n## Decision log\n\n- "@ + date + ": "@ + entry
        + "\n\n## Mentions\n\n"@
}

/// The decision part of `decision`: the page text after filing `entry`
/// (none when nothing is written), and whether a log line was appended. The
/// entry is folded onto one line; an entry already in the log (compared
/// without dates) is skipped.
pub open spec fn decision_step(existing: Option<Seq<char>>, title: Seq<char>, entry: Option<Seq<char>>, date: Seq<char>, now: Seq<char>) -> (Option<Seq<char>>, bool) {
    match entry {
        None => (None, false),
        Some(t) => {
            let ne = folded_entry(t);
            match existing {
                None => (Some(new_decision_page(title, date, ne, now)), true),
                Some(e) => if log_has_entry(e, ne) {
                    (None, false)
                } else {
                    (Some(with_decision(e, date, ne, now)), true)
                },
            }
        },
    }
}

/// What `decision` writes: the decision step, then, when a mention is
/// given, the mention filed on the resulting page as `entity` would.
pub open spec fn decision_write(existing: Option<Seq<char>>, title: Seq<char>, entry: Option<Seq<char>>, mention: Option<Seq<char>>, date: Seq<char>, now: Seq<char>) -> Option<Seq<char>> {
    let step = decision_step(existing, title, entry, date, now);
    let cur = match step.0 {
        Some(c) => Some(c),
        None => existing,
    };
    match mention {
        Some(m) => match entity_write(cur, title, None, Some(m), now) {
            Some(w) => Some(w),
            None => step.0,
        },
        None => step.0,
    }
}

/// The outcome of filing a decision: the page text to write (none when
/// nothing changes) and whether a new decision-log line was appended.
#[derive(Debug)]
pub struct DecisionOutcome {
    pub content: Option<String>,
    pub appended: bool,
}

/// File a decision entry (and optionally a mention) on an entity page.
/// `existing` is the page's text (none when there is no page); `date` is
/// the entry's date.
/// - A missing page is created with frontmatter, a lede placeholder,
///   `## Decision log` holding the dated entry, and `## Mentions`.
/// - On an existing page the entry goes at the end of `## Decision log`, or
///   into a new section spliced in before `## Mentions`, or at the end.
/// - An entry already in the log (ignoring dates) is not appended again.
/// - A mention is filed as `entity` files it.
pub fn decision(existing: Option<&str>, title: &str, entry: Option<&str>, mention: Option<&str>, date: &str, now: &str) -> (r: DecisionOutcome)
    ensures
        opt_string(r.content) == decision_write(opt_str(existing), title@, opt_str(entry), opt_str(mention), date@, now@),
        r.appended == decision_step(opt_str(existing), title@, opt_str(entry), date@, now@).1,
{
    let mut written: Option<String> = None;
    let mut appended = false;
    match entry {
        Some(t) => {
            let ne = normalize_entry(t);
            match existing {
                None => {
                    let mut c = to_chars("---\nsumma: entity\ntitle: ");
                    append_chars(&mut c, &to_chars(title));
                    append_chars(&mut c, &to_chars("\ncreated: "));
                    append_chars(&mut c, &to_chars(now));
                    append_chars(&mut c, &to_chars("\nupdated: "));
                    append_chars(&mut c, &to_chars(now));
                    append_chars(&mut c, &to_chars("\n---\n\n"));
                    append_chars(&mut c, &to_chars("_Lede: what this is, in a line or two._"));
                    append_chars(&mut c, &to_chars("\n\n## Decision log\n\n- "));
                    append_chars(&mut c, &to_chars(date));
                    append_chars(&mut c, &to_chars(": "));
                    append_chars(&mut c, &to_chars(ne.as_str()));
                    append_chars(&mut c, &to_chars("\n\n## Mentions\n\n"));
                    proof {
                        assert(c@ =~= new_decision_page(title@, date@, ne@, now@));
                    }
                    written = Some(from_chars(&c));
                    appended = true;
                },
                Some(e) => {
                    let es = to_chars(e);
                    let nes = to_chars(ne.as_str());
                    if !decision_log_contains(&es, &nes) {
                        written = Some(append_decision_entry(e, date, ne.as_str(), now));
                        appended = true;
                    }
                },
            }
        },
        None => {},
    }
    let ghost step = decision_step(opt_str(existing), title@, opt_str(entry), date@, now@);
    assert(opt_string(written) == step.0);
    match mention {
        Some(m) => {
            let cur: Option<&str> = match &written {
                Some(w) => Some(w.as_str()),
                None => existing,
            };
            match entity(cur, title, None, Some(m), now) {
                Some(w) => DecisionOutcome { content: Some(w), appended },
                None => DecisionOutcome { content: written, appended },
            }
        },
        None => DecisionOutcome { content: written, appended },
    }
}

/// A YAML flow list of quoted strings: `key: ["a", "b"]`, or `key: []`.
pub open spec fn quoted_list(key: Seq<char>, items: Seq<Seq<char>>) -> Seq<char> {
    if items.len() == 0 {
        key + ": []\n"@
    } else {
        key + ": ["@ + join(Seq::new(items.len(), |i: int| "\""@ + items[i] + "\""@), ", "@) + "]\n"@
    }
}

fn quoted_list_exec(key: &str, items: &Vec<String>) -> (r: Vec<char>)
    ensures
        r@ == quoted_list(key@, string_views(items@)),
{
    let mut r = to_chars(key);
    if items.len() == 0 {
        append_chars(&mut r, &to_chars(": []\n"));
        return r;
    }
    let mut q: Vec<Vec<char>> = Vec::new();
    let mut i: usize = 0;
    while i < items.len()
        invariant
            i <= items.len(),
            views(q@) == Seq::new(i as nat, |k: int| "\""@ + string_views(items@)[k] + "\""@),
        decreases items.len() - i,
    {
        let mut x = to_chars("\"");
        append_chars(&mut x, &to_chars(items[i].as_str()));
        append_chars(&mut x, &to_chars("\""));
        let ghost o = q@;
        q.push(x);
        proof {
            crate::text::lemma_views_push(o, q@.last());
            assert(views(q@) =~= Seq::new((i + 1) as nat, |k: int| "\""@ + string_views(items@)[k] + "\""@));
        }
        i = i + 1;
    }
    append_chars(&mut r, &to_chars(": ["));
    let sep = to_chars(", ");
    append_chars(&mut r, &join_exec(&q, &sep));
    append_chars(&mut r, &to_chars("]\n"));
    r
}

/// The text of a source-summary page.
pub open spec fn summary_text(source: Seq<char>, title: Seq<char>, tldr: Seq<char>, entities: Seq<Seq<char>>, now: Seq<char>) -> Seq<char> {
    "---\nsumma: source-summary\nsource: "@ + source + "\ningested: "@ + now + "\ntitle: "@ + title + "\n"@
        + quoted_list("entities"@, entities) + "---\n\n"@ + trim(tldr) + "\n"@
}

/// A page to write: its file name and its text.
#[derive(Debug)]
pub struct PageFile {
    pub file_name: String,
    pub content: String,
}

/// Write or overwrite a source-summary page: its file name is the title's
/// slug with `.md`; `tldr` is the summary text.
pub fn summary(source: &str, title: &str, tldr: &str, entities: &Vec<String>, now: &str) -> (r: PageFile)
    ensures
        r.file_name@ == slug_of(title@) + ".md"@,
        r.content@ == summary_text(source@, title@, tldr@, string_views(entities@), now@),
{
    let slug = title_to_slug(title);
    let mut name = to_chars(slug.as_str());
    append_chars(&mut name, &to_chars(".md"));
    let mut c = to_chars("---\nsumma: source-summary\nsource: ");
    append_chars(&mut c, &to_chars(source));
    append_chars(&mut c, &to_chars("\ningested: "));
    append_chars(&mut c, &to_chars(now));
    append_chars(&mut c, &to_chars("\ntitle: "));
    append_chars(&mut c, &to_chars(title));
    append_chars(&mut c, &to_chars("\n"));
    append_chars(&mut c, &quoted_list_exec("entities", entities));
    append_chars(&mut c, &to_chars("---\n\n"));
    append_chars(&mut c, &trim_exec(&to_chars(tldr)));
    append_chars(&mut c, &to_chars("\n"));
    PageFile { file_name: from_chars(&name), content: from_chars(&c) }
}

/// The text of an answer page: the question is quoted, its `"` escaped.
pub open spec fn answer_text(question: Seq<char>, body: Seq<char>, cites: Seq<Seq<char>>, now: Seq<char>) -> Seq<char> {
    "---\nsumma: answer\nquestion: \""@ + replace(question, seq!['"'], seq!['\\', '"']) + "\"\nasked: "@ + now
        + "\n"@ + quoted_list("cites"@, cites) + "---\n\n"@ + trim(body) + "\n"@
}

/// Write an answer page: its file name is `date-slug.md`.
pub fn answer(question: &str, slug: &str, body: &str, cites: &Vec<String>, date: &str, now: &str) -> (r: PageFile)
    ensures
        r.file_name@ == date@ + "-"@ + slug@ + ".md"@,
        r.content@ == answer_text(question@, body@, string_views(cites@), now@),
{
    let mut name = to_chars(date);
    append_chars(&mut name, &to_chars("-"));
    append_chars(&mut name, &to_chars(slug));
    append_chars(&mut name, &to_chars(".md"));
    let quote: [char; 1] = ['"'];
    let escaped: [char; 2] = ['\\', '"'];
    proof {
        assert(quote@ =~= seq!['"']);
        assert(escaped@ =~= seq!['\\', '"']);
    }
    let mut c = to_chars("---\nsumma: answer\nquestion: \"");
    append_chars(&mut c, &replace_exec(&to_chars(question), quote.as_slice(), escaped.as_slice()));
    append_chars(&mut c, &to_chars("\"\nasked: "));
    append_chars(&mut c, &to_chars(now));
    append_chars(&mut c, &to_chars("\n"));
    append_chars(&mut c, &quoted_list_exec("cites", cites));
    append_chars(&mut c, &to_chars("---\n\n"));
    append_chars(&mut c, &trim_exec(&to_chars(body)));
    append_chars(&mut c, &to_chars("\n"));
    PageFile { file_name: from_chars(&name), content: from_chars(&c) }
}

} // verus!
