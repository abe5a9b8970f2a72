use summa::page::{
    answer, append_mention, decision, decision_log, entity, extract_source_link, normalize_entry,
    summary, title_to_slug, update_frontmatter_field,
};

const NOW: &str = "2026-09-06T12:00:00Z";
const LATER: &str = "2026-09-07T08:30:00Z";

/// Files an entity mention the way the command does: the page's new text,
/// or the old text when nothing changes.
fn file_entity(existing: Option<&str>, title: &str, mention: Option<&str>, now: &str) -> String {
    match entity(existing, title, None, mention, now) {
        Some(c) => c,
        None => existing.expect("a new page is always written").to_string(),
    }
}

/// Files a decision: the page's new text (the old one when nothing changes)
/// and whether a log line was appended.
fn file_decision(existing: Option<&str>, title: &str, entry: &str, mention: Option<&str>, date: &str) -> (String, bool) {
    let out = decision(existing, title, Some(entry), mention, date, NOW);
    let text = match out.content {
        Some(c) => c,
        None => existing.expect("a new page is always written").to_string(),
    };
    (text, out.appended)
}

#[test]
fn test_page_entity_creates() {
    let content = file_entity(None, "Test Entity", Some("[[source]] — test claim"), NOW);
    assert!(content.contains("summa: entity"), "missing summa frontmatter");
    assert!(content.contains("Test Entity"), "title missing");
    assert!(content.contains("test claim"), "mention missing");
    assert!(content.contains("## Mentions"), "mentions section missing");
}

#[test]
fn entity_page_has_the_exact_shape() {
    let content = entity(None, "Foo", Some("F"), Some("[[s]] — c"), NOW).unwrap();
    assert_eq!(
        content,
        "---\nsumma: entity\ntitle: Foo\naliases: [F]\ncreated: 2026-09-06T12:00:00Z\nupdated: 2026-09-06T12:00:00Z\n---\n\n## Mentions\n\n- [[s]] — c\n"
    );
}

#[test]
fn test_page_entity_append_mention() {
    let first = file_entity(None, "Test Entity 2", Some("[[src1]] — claim one"), NOW);
    let content = file_entity(Some(&first), "Test Entity 2", Some("[[src2]] — claim two"), LATER);
    assert!(content.contains("claim one"), "first mention missing");
    assert!(content.contains("claim two"), "second mention missing");
    assert!(content.contains("updated: 2026-09-07T08:30:00Z"), "updated not bumped");
    assert!(content.contains("created: 2026-09-06T12:00:00Z"), "created changed");
}

#[test]
fn test_page_entity_dedup_mention() {
    let first = file_entity(None, "Test Entity 3", Some("[[src1]] — claim one"), NOW);
    assert!(entity(Some(&first), "Test Entity 3", None, Some("[[src1]] — updated claim"), LATER).is_none());
    let content = file_entity(Some(&first), "Test Entity 3", Some("[[src1]] — updated claim"), LATER);

    // Should only have one [[src1]] mention
    let count = content.matches("[[src1]]").count();
    assert_eq!(count, 1, "dedup failed: [[src1]] appears {} times", count);
}

#[test]
fn mention_without_source_link_is_appended_again() {
    let first = file_entity(None, "Plain", Some("a loose note"), NOW);
    let second = file_entity(Some(&first), "Plain", Some("a loose note"), LATER);
    assert_eq!(second.matches("- a loose note").count(), 2);
}

#[test]
fn existing_page_without_mention_is_left_alone() {
    let first = file_entity(None, "Quiet", None, NOW);
    assert!(entity(Some(&first), "Quiet", Some("Q"), None, LATER).is_none());
}

#[test]
fn mention_goes_at_the_end_of_its_section() {
    let page = "---\nsumma: entity\nupdated: old\n---\n\n## Mentions\n\n- one\n\n\n## Notes\n\ntext\n";
    let out = append_mention(page, "two", NOW);
    assert_eq!(
        out,
        "---\nsumma: entity\nupdated: 2026-09-06T12:00:00Z\n---\n\n## Mentions\n\n- one\n- two\n\n## Notes\n\ntext\n"
    );
}

#[test]
fn mentions_section_is_added_when_missing() {
    let out = append_mention("no frontmatter\n\n", "m", NOW);
    assert_eq!(out, "no frontmatter\n\n## Mentions\n\n- m\n");
}

#[test]
fn source_link_is_the_text_through_the_first_closing_brackets() {
    assert_eq!(extract_source_link("[[Src]] — claim [[x]]"), "[[Src]]");
    assert_eq!(extract_source_link("no link"), "");
}

#[test]
fn frontmatter_field_is_replaced_in_place() {
    let out = update_frontmatter_field("---\na: 1\nupdated: x\nb: 2\n---\nbody", "updated", "y");
    assert_eq!(out, "---\na: 1\nupdated: y\nb: 2\n---\n\nbody");
    assert_eq!(update_frontmatter_field("plain", "updated", "y"), "plain");
}

#[test]
fn test_decision_creates_page_in_order() {
    let (content, appended) = file_decision(None, "New Decision Entity", "adopted the new build gate", None, "2026-09-06");
    assert!(appended, "expected a new entry to be appended");

    let fm_pos = content.find("summa: entity").expect("frontmatter missing");
    let log_pos = content.find("## Decision log").expect("Decision log missing");
    let mentions_pos = content.find("## Mentions").expect("Mentions missing");
    assert!(fm_pos < log_pos, "frontmatter should precede Decision log");
    assert!(log_pos < mentions_pos, "Decision log should precede Mentions");
    assert!(
        content.contains("- 2026-09-06: adopted the new build gate"),
        "dated entry missing: {content}"
    );
}

#[test]
fn test_decision_preserves_hand_made_page() {
    let before = "---\nsumma: entity\ntitle: Fleet Build Automation\ncreated: 2026-08-01T00:00:00Z\nupdated: 2026-08-01T00:00:00Z\n---\n\nThe fleet builds itself on every push.\n\n## Mentions\n\n- [[Build Notes]] — first mention\n";
    let (after, _) = file_decision(
        Some(before),
        "Fleet Build Automation",
        "replaced polling timer with path-unit trigger",
        None,
        "2026-09-06",
    );

    let before_head = before.split("## Mentions").next().unwrap();
    let after_head = after.split("## Decision log").next().unwrap();
    let strip = |s: &str| s.lines().filter(|l| !l.starts_with("updated:")).collect::<Vec<_>>().join("\n");
    assert_eq!(strip(before_head), strip(after_head), "frontmatter/lede bytes before the splice point were disturbed");

    let before_tail = &before[before.find("## Mentions").unwrap()..];
    let after_tail = &after[after.find("## Mentions").unwrap()..];
    assert_eq!(before_tail, after_tail, "Mentions section was disturbed");

    assert!(
        after.contains("## Decision log\n\n- 2026-09-06: replaced polling timer with path-unit trigger\n\n## Mentions"),
        "Decision log not spliced in before Mentions: {after}"
    );
    assert_ne!(
        before.lines().find(|l| l.starts_with("updated:")),
        after.lines().find(|l| l.starts_with("updated:")),
        "updated field should have changed"
    );
}

#[test]
fn test_decision_inserts_section_before_mentions() {
    let before = "---\nsumma: entity\ntitle: No Log Yet\ncreated: 2026-01-01T00:00:00Z\nupdated: 2026-01-01T00:00:00Z\n---\n\nSome lede text.\n\n## Mentions\n\n- [[Src]] — a mention\n";
    let (after, _) = file_decision(Some(before), "No Log Yet", "first decision", None, "2026-09-06");
    assert!(after.contains("Some lede text."), "lede text lost");
    assert!(after.contains("[[Src]] — a mention"), "existing mention lost");
    assert!(
        after.find("## Decision log").unwrap() < after.find("## Mentions").unwrap(),
        "Decision log not inserted before Mentions"
    );
    assert!(after.contains("- 2026-09-06: first decision"));
}

#[test]
fn test_decision_dedup() {
    let (first_page, first) = file_decision(None, "Dedup Entity", "same entry text", None, "2026-09-01");
    assert!(first);
    let (content, second) = file_decision(Some(&first_page), "Dedup Entity", "same entry text", None, "2026-09-06");
    assert!(!second, "duplicate entry should not be appended");
    assert_eq!(content.matches("same entry text").count(), 1, "entry appended twice");
}

#[test]
fn test_decision_entry_and_mention_together() {
    let (content, _) = file_decision(None, "Combo Entity", "decided the thing", Some("[[Some Source]] — claim"), "2026-09-06");
    assert!(content.contains("- 2026-09-06: decided the thing"), "entry missing");
    assert!(content.contains("[[Some Source]] — claim"), "mention missing");
}

#[test]
fn test_decision_date_override() {
    let (content, _) = file_decision(None, "Backfilled Entity", "backfilled decision", None, "2026-09-01");
    assert!(content.contains("- 2026-09-01: backfilled decision"), "override date not used: {content}");
}

#[test]
fn test_decision_log_newest_first() {
    let (p1, _) = file_decision(None, "Timeline Entity", "first", None, "2026-09-01");
    let (p2, _) = file_decision(Some(&p1), "Timeline Entity", "second", None, "2026-09-02");
    let (p3, _) = file_decision(Some(&p2), "Timeline Entity", "third", None, "2026-09-03");

    let log = decision_log(Some(&p3));
    assert_eq!(
        log,
        vec!["2026-09-03: third".to_string(), "2026-09-02: second".to_string(), "2026-09-01: first".to_string()],
        "expected newest-first order, got {:?}",
        log
    );
}

#[test]
fn decision_log_of_missing_page_is_empty() {
    assert!(decision_log(None).is_empty());
    assert!(decision_log(Some("no log here")).is_empty());
}

#[test]
fn test_decision_entry_newline_folded() {
    let (content, _) = file_decision(None, "Multiline Entity", "first part\nsecond part", None, "2026-09-06");
    assert!(content.contains("- 2026-09-06: first part second part"), "newline not folded to space: {content}");
    let bullet_line = content.lines().find(|l| l.starts_with("- 2026-09-06:")).expect("bullet line missing");
    assert_eq!(bullet_line, "- 2026-09-06: first part second part", "entry should be folded onto a single line");
}

#[test]
fn decision_without_entry_appends_nothing() {
    let out = decision(None, "X", None, None, "2026-09-06", NOW);
    assert!(!out.appended);
    assert!(out.content.is_none());
}

#[test]
fn blank_entry_is_filed_twice() {
    let (p1, a1) = file_decision(None, "Blank", "   ", None, "2026-09-01");
    let (_p2, a2) = file_decision(Some(&p1), "Blank", "   ", None, "2026-09-02");
    assert!(a1 && a2);
}

#[test]
fn entry_normalisation() {
    assert_eq!(normalize_entry("  a \n\n  b  \r\n c"), "a b c");
    assert_eq!(normalize_entry(""), "");
}

#[test]
fn slugs() {
    assert_eq!(title_to_slug("MCP Server: Codebase Analysis!"), "mcp-server-codebase-analysis");
    assert_eq!(title_to_slug("--"), "");
}

#[test]
fn summary_page() {
    let page = summary("Clippings/x.pdf", "X Paper", "  the gist \n", &vec!["[[A]]".to_string(), "[[B]]".to_string()], NOW);
    assert_eq!(page.file_name, "x-paper.md");
    assert_eq!(
        page.content,
        "---\nsumma: source-summary\nsource: Clippings/x.pdf\ningested: 2026-09-06T12:00:00Z\ntitle: X Paper\nentities: [\"[[A]]\", \"[[B]]\"]\n---\n\nthe gist\n"
    );
    let empty = summary("s", "T", "t", &vec![], NOW);
    assert!(empty.content.contains("entities: []\n"));
}

#[test]
fn answer_page() {
    let page = answer("why \"x\"?", "why-x", "\nbecause\n", &vec![], "2026-09-06", NOW);
    assert_eq!(page.file_name, "2026-09-06-why-x.md");
    assert_eq!(
        page.content,
        "---\nsumma: answer\nquestion: \"why \\\"x\\\"?\"\nasked: 2026-09-06T12:00:00Z\ncites: []\n---\n\nbecause\n"
    );
}

#[test]
fn bullets_split_inside_a_character_keep_their_date() {
    let page = "---\nsumma: entity\n---\n\n## Decision log\n\n- 2026-09-01\u{20ac}x\n- 2026-09-01\u{e9}x\n";
    let (_, appended) = file_decision(Some(page), "E", "2026-09-01\u{20ac}x", None, "2026-09-02");
    assert!(!appended);
    assert_eq!(summa::page::strip_date_prefix(&"2026-09-01\u{20ac}".chars().collect::<Vec<_>>()), "2026-09-01\u{20ac}".chars().collect::<Vec<_>>());
}

#[test]
fn new_decision_page_has_a_lede_placeholder_before_the_log() {
    let (content, appended) = file_decision(None, "Fresh Entity", "first part\nsecond part", None, "2026-09-06");
    assert!(appended);
    let lede = content.find("_Lede: what this is, in a line or two._").expect("lede placeholder");
    let log = content.find("## Decision log").expect("decision log");
    let mentions = content.find("## Mentions").expect("mentions");
    let fm_end = content[3..].find("\n---\n").expect("frontmatter end") + 3;
    assert!(fm_end < lede && lede < log && log < mentions);
    assert!(content.contains("- 2026-09-06: first part second part\n"));
}

#[test]
fn filing_puts_the_entry_first_and_keeps_the_old_log() {
    let before = "---\nsumma: entity\ntitle: Kept Log\nupdated: 2026-01-01T00:00:00Z\n---\n\nLede.\n\n## Decision log\n\n- 2026-01-01: one\n  - 2026-01-02: two\n\n\n## Mentions\n\n- [[Src]] — m\n";
    let (after, appended) = file_decision(Some(before), "Kept Log", "three", None, "2026-09-06");
    assert!(appended);
    let mut expected = vec!["2026-09-06: three".to_string()];
    expected.extend(decision_log(Some(before)));
    assert_eq!(decision_log(Some(&after)), expected);
    assert_eq!(
        decision_log(Some(&after)),
        vec!["2026-09-06: three".to_string(), "2026-01-02: two".to_string(), "2026-01-01: one".to_string()]
    );
    assert!(after.contains("updated: 2026-09-06T12:00:00Z"));
}
