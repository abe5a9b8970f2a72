use summa::links::{parse_wikilinks, run, LinkPage, LinksReport};

fn page(path: &str, content: &str, aliases: &[&str]) -> LinkPage {
    LinkPage {
        path: path.to_string(),
        content: Some(content.to_string()),
        aliases: aliases.iter().map(|a| a.to_string()).collect(),
    }
}

/// A small vault: two entities (one linked, one not), a source summary that
/// links to the linked one, and a human note with a malformed and a
/// dangling link.
fn fixture_vault() -> Vec<LinkPage> {
    vec![
        page(
            "AtScale/human-note.md",
            "# Notes on AtScale\n\nSee [[AtScale\\|12345]] and [[Nonexistent Page]].\n",
            &[],
        ),
        page(
            "index.md",
            "# Index\n\n<!-- summa:index-start -->\n- [[Model Context Protocol]]\n<!-- summa:index-end -->\n",
            &[],
        ),
        page(
            "wiki/entities/Model Context Protocol.md",
            "---\nsumma: entity\ntitle: Model Context Protocol\naliases: [MCP]\n---\n\n## Mentions\n\n- [[mcp-analysis]] — tool dispatch\n",
            &["MCP"],
        ),
        page(
            "wiki/entities/Orphan Concept.md",
            "---\nsumma: entity\ntitle: Orphan Concept\n---\n\n## Mentions\n\n",
            &[],
        ),
        page(
            "wiki/sources/mcp-analysis.md",
            "---\nsumma: source-summary\nsource: Clippings/mcp-analysis.pdf\ningested: 2026-06-21T01:00:00Z\ntitle: MCP Server Codebase Analysis\n---\n\nTL;DR: tool dispatch.\n\nLinks to: [[Model Context Protocol]]\n",
            &[],
        ),
    ]
}

fn report() -> LinksReport {
    run(&fixture_vault())
}

#[test]
fn test_links_malformed() {
    let report = report();

    // The human-note.md has [[AtScale\|12345]] which is malformed
    assert!(!report.malformed.is_empty(), "expected malformed links, got none");
    // Check it's the right one
    let has_backslash = report.malformed.iter().any(|m| m.raw.contains("\\|"));
    assert!(has_backslash, "backslash-pipe malformed link not found");
}

#[test]
fn test_links_dangling() {
    let report = report();

    // [[Nonexistent Page]] should be dangling
    let has_nonexistent = report.dangling.iter().any(|d| d.target == "Nonexistent Page");
    assert!(has_nonexistent, "[[Nonexistent Page]] not in dangling: {:?}", report.dangling);
}

#[test]
fn test_links_orphan() {
    let report = report();

    // Orphan Concept has no inbound links
    let has_orphan = report.orphans.iter().any(|o| o.contains("Orphan Concept"));
    assert!(has_orphan, "Orphan Concept not in orphans: {:?}", report.orphans);
}

#[test]
fn test_links_json_structure() {
    let report = report();

    // Every part of the report is there; the page count is the vault's.
    let _ = (&report.orphans, &report.dangling, &report.malformed, &report.stats);
    assert!(report.stats.pages > 0);
    assert_eq!(report.stats.pages, 5);
}

#[test]
fn test_wikilink_parser_normal() {
    let (targets, malformed) = parse_wikilinks("See [[Foo]] and [[Bar|Alias]]");
    assert_eq!(targets, vec!["Foo", "Bar"]);
    assert!(malformed.is_empty());
}

#[test]
fn test_wikilink_parser_backslash_pipe() {
    let (_targets, malformed) = parse_wikilinks("[[AtScale\\|12345]]");
    assert!(!malformed.is_empty(), "backslash-pipe should be malformed");
    assert_eq!(malformed[0].1, "[[AtScale]]", "fix should strip digit alias");
}

#[test]
fn test_wikilink_parser_all_digit_alias() {
    let (_targets, malformed) = parse_wikilinks("[[AtScale|99999]]");
    assert!(!malformed.is_empty(), "all-digit alias should be malformed");
    assert_eq!(malformed[0].1, "[[AtScale]]");
}

#[test]
fn test_wikilink_parser_embed() {
    let (targets, malformed) = parse_wikilinks("![[image.png]]");
    assert_eq!(targets, vec!["image.png"]);
    assert!(malformed.is_empty());
}

#[test]
fn test_wikilink_parser_section() {
    let (targets, malformed) = parse_wikilinks("[[Page#Section]]");
    assert_eq!(targets, vec!["Page"]);
    assert!(malformed.is_empty());
}

#[test]
fn wikilink_parser_keeps_text_order_and_raw_form() {
    let (targets, malformed) = parse_wikilinks("[[B]] then [[A\\|7]] then [[C|x]]");
    assert_eq!(targets, vec!["B", "A", "C"]);
    assert_eq!(malformed, vec![("[[A\\|7]]".to_string(), "[[A]]".to_string())]);
}

#[test]
fn wikilink_parser_ignores_unclosed_links() {
    let (targets, malformed) = parse_wikilinks("[[open and never closed");
    assert!(targets.is_empty());
    assert!(malformed.is_empty());
}

#[test]
fn links_report_is_sorted_and_counts_links() {
    let report = report();
    assert_eq!(report.orphans, vec!["wiki/entities/Orphan Concept.md".to_string()]);
    assert_eq!(report.dangling.len(), 2);
    assert_eq!(report.dangling[0].target, "AtScale");
    assert_eq!(report.dangling[0].in_files, vec!["AtScale/human-note.md".to_string()]);
    assert_eq!(report.dangling[1].target, "Nonexistent Page");
    assert_eq!(report.malformed.len(), 1);
    assert_eq!(report.malformed[0].file, "AtScale/human-note.md");
    assert_eq!(report.malformed[0].fix, "[[AtScale]]");
    // human-note: 2 links and 1 malformed, index: 1, Model Context Protocol: 1, mcp-analysis: 1
    assert_eq!(report.stats.links, 6);
}

#[test]
fn links_repairable_target_names_the_canonical_page() {
    let mut pages = fixture_vault();
    pages.push(page("wiki/answers/q.md", "See [[model context protocol]] and [[mcp]].\n", &[]));
    let report = run(&pages);
    let targets: Vec<&str> = report.repairable_dangling.iter().map(|r| r.target.as_str()).collect();
    assert_eq!(targets, vec!["mcp", "model context protocol"]);
    assert!(report.repairable_dangling.iter().all(|r| r.canonical == "Model Context Protocol"));
    // A page reached only up to case is no orphan.
    assert!(!report.orphans.iter().any(|o| o.contains("Model Context Protocol")));
}

#[test]
fn unreadable_pages_count_but_hold_no_links() {
    let pages = vec![LinkPage { path: "wiki/x.md".to_string(), content: None, aliases: vec![] }];
    let report = run(&pages);
    assert_eq!(report.stats.pages, 1);
    assert_eq!(report.stats.links, 0);
    assert!(report.orphans.is_empty());
}
