use summa::frontmatter::SummaFrontmatter;
use summa::index::{build_index_section, replace_between_anchors, IndexPage};

fn fm(summa: &str, title: Option<&str>, ingested: Option<&str>) -> SummaFrontmatter {
    let mut f = SummaFrontmatter::default();
    f.summa = Some(summa.to_string());
    f.title = title.map(|t| t.to_string());
    f.ingested = ingested.map(|t| t.to_string());
    f
}

fn owned(path: &str, kind: &str, title: Option<&str>, ingested: Option<&str>) -> IndexPage {
    let mut content = format!("---\nsumma: {}\n", kind);
    if let Some(t) = title {
        content.push_str(&format!("title: {}\n", t));
    }
    if let Some(i) = ingested {
        content.push_str(&format!("ingested: {}\n", i));
    }
    content.push_str("---\n\nbody\n");
    IndexPage { path: path.to_string(), content, fm: Some(fm(kind, title, ingested)) }
}

fn human(path: &str) -> IndexPage {
    IndexPage { path: path.to_string(), content: "just a note\n".to_string(), fm: None }
}

fn vault() -> Vec<IndexPage> {
    vec![
        human("AtScale/human-note.md"),
        human("AtScale/other.md"),
        human("Areas/x.md"),
        human("top-level.md"),
        owned("wiki/entities/Model Context Protocol.md", "entity", Some("Model Context Protocol"), None),
        owned("wiki/entities/AtScale.md", "entity", None, None),
        owned("wiki/sources/mcp-analysis.md", "source-summary", Some("MCP Server Codebase Analysis"), Some("2026-06-21T01:00:00Z")),
        owned("wiki/sources/undated.md", "source-summary", Some("Undated"), None),
        owned("wiki/answers/2026-09-06-why.md", "answer", Some("Why"), None),
        owned("index.md", "entity", Some("Index Page"), None),
    ]
}

const PREAMBLE: &str = "# Index\n\nA hand-written preamble.\n\n";

#[test]
fn index_section_lists_every_kind_in_order() {
    let section = build_index_section(&vault());
    assert_eq!(
        section,
        "## Entities\n- [[AtScale]]\n- [[Model Context Protocol]]\n## Sources\n- [[MCP Server Codebase Analysis]] — 2026-06-21\n- [[Undated]]\n## Answers\n- [[Why]]\n## Human notes (by folder)\n- **Areas/** — 1 notes\n- **AtScale/** — 2 notes"
    );
}

#[test]
fn test_index_contains_summa_pages() {
    let section = build_index_section(&vault());
    let content = replace_between_anchors("", &section);
    assert!(content.contains("Model Context Protocol"), "entity not in index");
}

#[test]
fn test_index_idempotent() {
    let section = build_index_section(&vault());
    let existing = format!("{}<!-- summa:index-start -->\nold\n<!-- summa:index-end -->\n", PREAMBLE);
    let after_first = replace_between_anchors(&existing, &section);
    let after_second = replace_between_anchors(&after_first, &section);

    assert_eq!(after_first, after_second, "index not idempotent");
    assert!(after_first.contains("<!-- summa:index-start -->"), "missing start anchor");
    assert!(after_first.contains("<!-- summa:index-end -->"), "missing end anchor");
    assert!(after_first.contains("hand-written preamble"), "preamble lost");
    assert!(after_first.starts_with(PREAMBLE));
}

#[test]
fn fresh_index_when_anchors_are_missing() {
    let out = replace_between_anchors("stray text", "## Entities\n- [[A]]");
    assert_eq!(out, "# Index\n\n<!-- summa:index-start -->\n## Entities\n- [[A]]\n<!-- summa:index-end -->\n\n");
    // Once written, regenerating keeps it unchanged.
    assert_eq!(replace_between_anchors(&out, "## Entities\n- [[A]]"), out);
}

#[test]
fn empty_vault_gives_an_empty_section() {
    assert_eq!(build_index_section(&[]), "");
}

#[test]
fn source_dates_are_the_first_ten_bytes_on_a_character_boundary() {
    let pages = vec![
        owned("wiki/sources/a.md", "source-summary", Some("Cut"), Some("2026-06-2\u{20ac}x")),
        owned("wiki/sources/b.md", "source-summary", Some("Short"), Some("2026-06")),
        owned("wiki/sources/c.md", "source-summary", Some("Wide"), Some("ab\u{20ac}defghijk")),
    ];
    assert_eq!(
        build_index_section(&pages),
        "## Sources\n- [[Cut]]\n- [[Short]]\n- [[Wide]] — ab\u{20ac}defgh"
    );
}

#[test]
fn a_second_index_run_writes_the_same_file() {
    let existing = "# Index\n\nA hand-written preamble.\n";
    let mut pages = vault();
    pages.push(IndexPage { path: "index.md".to_string(), content: existing.to_string(), fm: None });
    let first = replace_between_anchors(existing, &build_index_section(&pages));
    let last = pages.len() - 1;
    pages[last].content = first.clone();
    let second = replace_between_anchors(&first, &build_index_section(&pages));
    assert_eq!(second, first);
    assert!(first.contains("<!-- summa:index-start -->\n## Entities\n"));
}
