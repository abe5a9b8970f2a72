//! Markdown frontmatter: splitting a page into its YAML header and body,
//! recognising pages this tool owns, and the page types it writes.

use vstd::prelude::*;
use vstd::string::*;
use crate::text::{
    find, find_exec, skip_char_exec, starts_with, starts_with_exec, to_chars,
    trim_start_char,
};

verus! {

/// The kind of page named by a page's `summa:` frontmatter value.
#[derive(Debug, Clone)]
pub enum PageType {
    Entity,
    SourceSummary,
    Answer,
    Unknown(String),
}

/// The frontmatter fields this tool reads and writes. A field is absent when
/// the frontmatter has no such key.
#[derive(Debug, Clone, Default)]
pub struct SummaFrontmatter {
    pub summa: Option<String>,
    pub title: Option<String>,
    pub aliases: Option<Vec<String>>,
    pub created: Option<String>,
    pub updated: Option<String>,
    pub source: Option<String>,
    pub ingested: Option<String>,
    pub entities: Option<Vec<String>>,
    pub question: Option<String>,
    pub asked: Option<String>,
    pub cites: Option<Vec<String>>,
}

/// Whether two character sequences are equal.
pub fn eq_chars(a: &[char], b: &[char]) -> (r: bool)
    ensures
        r == (a@ == b@),
{
    if a.len() != b.len() {
        return false;
    }
    let mut i: usize = 0;
    while i < a.len()
        invariant
            i <= a.len(),
            a.len() == b.len(),
            a@.take(i as int) == b@.take(i as int),
        decreases a.len() - i,
    {
        if a[i] != b[i] {
            return false;
        }
        proof {
            assert(a@.take(i + 1) == a@.take(i as int).push(a@[i as int]));
            assert(b@.take(i + 1) == b@.take(i as int).push(b@[i as int]));
        }
        i = i + 1;
    }
    proof {
        assert(a@.take(a.len() as int) == a@);
        assert(b@.take(b.len() as int) == b@);
    }
    true
}

/// Whether the string `a` holds exactly the characters of `b`.
pub fn str_eq(a: &str, b: &str) -> (r: bool)
    ensures
        r == (a@ == b@),
{
    let x = to_chars(a);
    let y = to_chars(b);
    eq_chars(&x, &y)
}

impl PageType {
    /// The page type named by a `summa:` value; any other value is `Unknown`
    /// and keeps the value.
    pub fn from_str(s: &str) -> (r: PageType)
        ensures
            s@ == "entity"@ ==> r is Entity,
            s@ == "source-summary"@ ==> r is SourceSummary,
            s@ == "answer"@ ==> r is Answer,
            s@ != "entity"@ && s@ != "source-summary"@ && s@ != "answer"@ ==> (r matches PageType::Unknown(o) && o@ == s@),
    {
        proof {
            reveal_strlit("entity");
            reveal_strlit("source-summary");
            reveal_strlit("answer");
            assert("entity"@.len() != "source-summary"@.len());
            assert("entity"@[0] != "answer"@[0]);
            assert("answer"@.len() != "source-summary"@.len());
        }
        if str_eq(s, "entity") {
            PageType::Entity
        } else if str_eq(s, "source-summary") {
            PageType::SourceSummary
        } else if str_eq(s, "answer") {
            PageType::Answer
        } else {
            PageType::Unknown(s.to_owned())
        }
    }
}


/// `t` is the page type that the `summa:` value `s` names.
pub open spec fn names_type(s: Seq<char>, t: PageType) -> bool {
    if s == "entity"@ {
        t is Entity
    } else if s == "source-summary"@ {
        t is SourceSummary
    } else if s == "answer"@ {
        t is Answer
    } else {
        t matches PageType::Unknown(o) && o@ == s
    }
}

/// The type of a page with this parsed frontmatter: none when it has no
/// frontmatter or no `summa:` value, else the type that value names.
pub fn page_type(fm: Option<&SummaFrontmatter>) -> (r: Option<PageType>)
    ensures
        r is None <==> (fm is None || fm->0.summa is None),
        r matches Some(t) ==> names_type(fm->0.summa->0@, t),
{
    match fm {
        Some(f) => match &f.summa {
            Some(v) => Some(PageType::from_str(v.as_str())),
            None => None,
        },
        None => None,
    }
}

/// The result of splitting a page: its frontmatter text, if it has one, and
/// its body. A page has frontmatter when it starts with `---` and a later line
/// starts with `---`; the frontmatter is what lies between (leading newlines
/// dropped), the body what follows the closing `---` (leading newlines
/// dropped). Otherwise there is no frontmatter and the body is the whole page.
pub open spec fn split_fm(c: Seq<char>) -> (Option<Seq<char>>, Seq<char>) {
    if !starts_with(c, "---"@) {
        (None, c)
    } else {
        let a = trim_start_char(c.skip(3), '\n');
        match find(a, "\n---"@) {
            Some(p) => (Some(a.take(p)), trim_start_char(a.skip(p + 4), '\n')),
            None => (None, c),
        }
    }
}

/// Split a markdown page into its frontmatter text and its body.
/// Returns `(None, content)` when the page has no frontmatter.
pub fn split_frontmatter(content: &str) -> (r: (Option<&str>, &str))
    ensures
        split_fm(content@) == (match r.0 {
            Some(f) => Some(f@),
            None => None,
        }, r.1@),
{
    proof {
        reveal_strlit("---");
        reveal_strlit("\n---");
    }
    let cs = to_chars(content);
    let dashes = to_chars("---");
    if !starts_with_exec(&cs, &dashes) {
        return (None, content);
    }
    let n = cs.len();
    let rest = vstd::slice::slice_subrange(cs.as_slice(), 3, n);
    let k1 = skip_char_exec(rest, '\n');
    let off = 3 + k1;
    let t = vstd::slice::slice_subrange(cs.as_slice(), off, n);
    proof {
        assert(rest@ == cs@.skip(3));
        assert(t@ =~= trim_start_char(content@.skip(3), '\n'));
    }
    let close = to_chars("\n---");
    match find_exec(t, &close) {
        Some(p) => {
            proof {
                crate::text::lemma_find_from(t@, close@, 0);
            }
            let fm = content.substring_char(off, off + p);
            let bstart = off + p + 4;
            let rest2 = vstd::slice::slice_subrange(cs.as_slice(), bstart, n);
            let k2 = skip_char_exec(rest2, '\n');
            let body = content.substring_char(bstart + k2, n);
            proof {
                assert(fm@ =~= t@.take(p as int));
                assert(rest2@ =~= t@.skip(p + 4));
                assert(body@ =~= trim_start_char(t@.skip(p + 4), '\n'));
            }
            (Some(fm), body)
        },
        None => (None, content),
    }
}


/// What a top-level key of a YAML document holds, as far as this library
/// reads it.
#[derive(Debug, Clone)]
pub enum YamlField<S> {
    /// The text is not a YAML document.
    Unparsable,
    /// The document is not a mapping, or the mapping has no such key.
    Absent,
    /// The key holds a string.
    Text(S),
    /// The key holds something other than a string.
    NonText,
}

impl View for YamlField<String> {
    type V = YamlField<Seq<char>>;

    open spec fn view(&self) -> YamlField<Seq<char>> {
        match self {
            YamlField::Unparsable => YamlField::Unparsable,
            YamlField::Absent => YamlField::Absent,
            YamlField::Text(t) => YamlField::Text(t@),
            YamlField::NonText => YamlField::NonText,
        }
    }
}

/// What `serde_yaml` makes of the key `key` in the YAML text `text`: the text
/// parsed as a `serde_yaml::Value`, then `Value::get(key)`, then
/// `Value::as_str`.
pub uninterp spec fn yaml_field(text: Seq<char>, key: Seq<char>) -> YamlField<Seq<char>>;

/// Parses `text` with `serde_yaml::from_str::<serde_yaml::Value>`, looks the
/// string key `key` up with `Value::get`, and reads it with `Value::as_str`.
/// The contract claims only that the outcome is a function of the two texts,
/// named `yaml_field`; which documents parse and what they hold is not stated.
#[verifier::external_body]
fn yaml_lookup(text: &str, key: &str) -> (r: YamlField<String>)
    ensures
        r@ == yaml_field(text@, key@),
{
    match serde_yaml::from_str::<serde_yaml::Value>(text) {
        Err(_) => YamlField::Unparsable,
        Ok(v) => match v.get(key) {
            None => YamlField::Absent,
            Some(x) => match x.as_str() {
                Some(t) => YamlField::Text(t.to_string()),
                None => YamlField::NonText,
            },
        },
    }
}

/// A page is owned by this tool when it has frontmatter that parses as YAML
/// and has a top-level `summa` key.
pub open spec fn summa_owned(c: Seq<char>) -> bool {
    match split_fm(c).0 {
        Some(f) => match yaml_field(f, "summa"@) {
            YamlField::Text(_) => true,
            YamlField::NonText => true,
            _ => false,
        },
        None => false,
    }
}

/// The string value of a top-level frontmatter key, if the page has
/// frontmatter that parses and the key holds a string.
pub open spec fn fm_field(c: Seq<char>, key: Seq<char>) -> Option<Seq<char>> {
    match split_fm(c).0 {
        Some(f) => match yaml_field(f, key) {
            YamlField::Text(t) => Some(t),
            _ => None,
        },
        None => None,
    }
}

/// Whether a page is owned by this tool (has a `summa:` frontmatter key).
pub fn is_summa_owned(content: &str) -> (b: bool)
    ensures
        b == summa_owned(content@),
{
    let (fm, _) = split_frontmatter(content);
    match fm {
        Some(f) => match yaml_lookup(f, "summa") {
            YamlField::Text(_) => true,
            YamlField::NonText => true,
            _ => false,
        },
        None => false,
    }
}

/// The string value of the top-level frontmatter key `field`.
pub fn get_field(content: &str, field: &str) -> (r: Option<String>)
    ensures
        match r {
            Some(t) => fm_field(content@, field@) == Some(t@),
            None => fm_field(content@, field@) is None,
        },
{
    let (fm, _) = split_frontmatter(content);
    match fm {
        Some(f) => match yaml_lookup(f, field) {
            YamlField::Text(t) => Some(t),
            _ => None,
        },
        None => None,
    }
}

} // verus!
