use summa::frontmatter::SummaFrontmatter;
use summa::index::IndexPage;
use summa::links::{self, LinkPage};
use summa::lint::{
    apply_link_repairs, apply_malformed_fixes, check_missing_index, files_to_repair, FrontmatterProblem, check_stale_vs_source, check_un_ingested,
    extract_between_anchors, files_to_fix, index_fix_records, lint_note, FileText, FileTime,
    FixRecord, LintOpts, LintReport, MalformedItem, StaleItem, StalePage, VaultFile,
};

const ENTITY_MCP: &str = "---\nsumma: entity\ntitle: Model Context Protocol\n---\n\n## Mentions\n\n- [[mcp-analysis]] — tool dispatch\n";
const ENTITY_ORPHAN: &str = "---\nsumma: entity\ntitle: Orphan Concept\n---\n\n## Mentions\n\n";
const SRC_MCP: &str = "---\nsumma: source-summary\nsource: Clippings/mcp-analysis.pdf\ningested: 2026-06-21T01:00:00Z\ntitle: MCP Server Codebase Analysis\n---\n\nLinks to: [[Model Context Protocol]]\n";
const SRC_STALE: &str = "---\nsumma: source-summary\nsource: Clippings/stale-analysis.pdf\ningested: 2026-01-01T00:00:00Z\ntitle: Stale Analysis\n---\n\nLinks to: [[Model Context Protocol]]\n";
const HUMAN: &str = "# Notes\n\nSee [[AtScale\\|12345]] and [[Nonexistent Page]].\n";
const INDEX: &str = "# Index\n\n<!-- summa:index-start -->\n## Entities\n- [[Model Context Protocol]]\n<!-- summa:index-end -->\n";

fn fm_of(summa: &str, title: &str, source: Option<&str>, ingested: Option<&str>) -> SummaFrontmatter {
    let mut f = SummaFrontmatter::default();
    f.summa = Some(summa.to_string());
    f.title = Some(title.to_string());
    f.source = source.map(|s| s.to_string());
    f.ingested = ingested.map(|s| s.to_string());
    f
}

/// The vault's markdown pages: (path, text, parsed frontmatter).
fn markdown() -> Vec<(&'static str, &'static str, Option<SummaFrontmatter>)> {
    vec![
        ("AtScale/human-note.md", HUMAN, None),
        ("index.md", INDEX, None),
        ("wiki/entities/Model Context Protocol.md", ENTITY_MCP, Some(fm_of("entity", "Model Context Protocol", None, None))),
        ("wiki/entities/Orphan Concept.md", ENTITY_ORPHAN, Some(fm_of("entity", "Orphan Concept", None, None))),
        ("wiki/sources/mcp-analysis.md", SRC_MCP, Some(fm_of("source-summary", "MCP Server Codebase Analysis", Some("Clippings/mcp-analysis.pdf"), Some("2026-06-21T01:00:00Z")))),
        ("wiki/sources/stale-analysis.md", SRC_STALE, Some(fm_of("source-summary", "Stale Analysis", Some("Clippings/stale-analysis.pdf"), Some("2026-01-01T00:00:00Z")))),
    ]
}

fn link_pages() -> Vec<LinkPage> {
    markdown()
        .into_iter()
        .map(|(p, c, _)| LinkPage { path: p.to_string(), content: Some(c.to_string()), aliases: vec![] })
        .collect()
}

fn index_pages() -> Vec<IndexPage> {
    markdown()
        .into_iter()
        .map(|(p, c, f)| IndexPage { path: p.to_string(), content: c.to_string(), fm: f })
        .collect()
}

/// The source modification times: stale-analysis.pdf on 2026-06-01 (after
/// its summary was ingested), mcp-analysis.pdf on 2026-05-01 (before).
fn stale_pages() -> Vec<StalePage> {
    markdown()
        .into_iter()
        .map(|(p, _, f)| {
            let mtime = match f.as_ref().and_then(|f| f.source.clone()).as_deref() {
                Some("Clippings/stale-analysis.pdf") => Some(FileTime { secs: 1780272000, nanos: 0 }),
                Some("Clippings/mcp-analysis.pdf") => Some(FileTime { secs: 1777593600, nanos: 0 }),
                _ => None,
            };
            StalePage { path: p.to_string(), fm: f, source_mtime: mtime }
        })
        .collect()
}

fn vault_files() -> Vec<VaultFile> {
    let mut files: Vec<VaultFile> = markdown()
        .into_iter()
        .map(|(p, c, _)| VaultFile { path: p.to_string(), content: Some(c.to_string()) })
        .collect();
    for pdf in ["Clippings/mcp-analysis.pdf", "Clippings/never-ingested.pdf", "Clippings/stale-analysis.pdf"] {
        files.push(VaultFile { path: pdf.to_string(), content: None });
    }
    files.push(VaultFile { path: "Clippings/clipped.md".to_string(), content: Some("a clipped article".to_string()) });
    files
}

fn lint(opts: &LintOpts) -> LintReport {
    let links = links::run(&link_pages());
    let missing = check_missing_index(INDEX, &index_pages());
    let stale = check_stale_vs_source(&stale_pages()).expect("times in range");
    let un_ingested = check_un_ingested(&vault_files(), &index_pages());
    summa::lint::run(&links, opts, Vec::new(), Vec::new(), missing, Vec::new(), stale, un_ingested, Vec::new())
}

#[test]
fn test_lint_reports_all_categories() {
    let opts = LintOpts { fix: false, include_human: false, json: false };
    let report = lint(&opts);

    // 1. Orphans: "Orphan Concept" has no inbound links
    assert!(!report.orphans.is_empty(), "expected at least one orphan (Orphan Concept entity)");
    let has_orphan = report.orphans.iter().any(|p| p.contains("Orphan Concept"));
    assert!(has_orphan, "Orphan Concept not found in orphans: {:?}", report.orphans);

    // 2. Dangling: [[Nonexistent Page]] in human-note.md
    assert!(!report.dangling.is_empty(), "expected at least one dangling link");
    let has_dangling = report.dangling.iter().any(|d| d.target.contains("Nonexistent"));
    assert!(has_dangling, "Nonexistent dangling link not found: {:?}", report.dangling);

    // 3. Malformed: [[AtScale\|12345]] in human-note.md
    assert!(!report.malformed.is_empty(), "expected at least one malformed link");
    let has_malformed = report.malformed.iter().any(|m| m.raw.contains("12345"));
    assert!(has_malformed, "expected malformed digit-alias link: {:?}", report.malformed);

    // 4. Missing-index: index.md only has Model Context Protocol; others are missing
    assert!(!report.missing_index.is_empty(), "expected at least one missing-index page");

    // 5. Stale-vs-source: stale-analysis.md ingested 2026-01-01 < pdf mtime 2026-06-01
    assert!(!report.stale_vs_source.is_empty(), "expected stale-vs-source detection");
    let has_stale = report.stale_vs_source.iter().any(|s| s.file.contains("stale-analysis"));
    assert!(has_stale, "stale-analysis.md not detected as stale: {:?}", report.stale_vs_source);

    // 6. Un-ingested: never-ingested.pdf has no source-summary
    assert!(!report.un_ingested.is_empty(), "expected un-ingested sources");
    let has_uningest = report.un_ingested.iter().any(|u| u.contains("never-ingested"));
    assert!(has_uningest, "never-ingested.pdf not found in un-ingested: {:?}", report.un_ingested);
}

#[test]
fn test_stale_detection_flags_stale_not_fresh() {
    let opts = LintOpts { fix: false, include_human: false, json: false };
    let report = lint(&opts);

    let has_stale = report.stale_vs_source.iter().any(|s| s.file.contains("stale-analysis"));
    assert!(has_stale, "stale-analysis.md should be stale: {:?}", report.stale_vs_source);

    let has_fresh_as_stale = report.stale_vs_source.iter().any(|s| s.file.contains("mcp-analysis"));
    assert!(!has_fresh_as_stale, "mcp-analysis.md should NOT be stale: {:?}", report.stale_vs_source);
}

#[test]
fn stale_item_reports_the_source_time_in_utc() {
    let stale = check_stale_vs_source(&stale_pages()).expect("times in range");
    assert_eq!(stale.len(), 1);
    let s: &StaleItem = &stale[0];
    assert_eq!(s.file, "wiki/sources/stale-analysis.md");
    assert_eq!(s.ingested, "2026-01-01T00:00:00Z");
    assert_eq!(s.source, "Clippings/stale-analysis.pdf");
    assert_eq!(s.source_mtime, "2026-06-01T00:00:00Z");
}

#[test]
fn stale_needs_a_strictly_later_source_and_a_valid_time() {
    let mk = |ingested: &str, secs: i64, nanos: u32| StalePage {
        path: "wiki/sources/a.md".to_string(),
        fm: Some(fm_of("source-summary", "A", Some("Clippings/a.pdf"), Some(ingested))),
        source_mtime: Some(FileTime { secs, nanos }),
    };
    // 2026-01-01T00:00:00Z is 1767225600.
    assert!(check_stale_vs_source(&[mk("2026-01-01T00:00:00Z", 1767225600, 0)]).unwrap().is_empty());
    assert_eq!(check_stale_vs_source(&[mk("2026-01-01T00:00:00Z", 1767225600, 1)]).unwrap().len(), 1);
    assert_eq!(check_stale_vs_source(&[mk("2026-01-01T00:00:00Z", 1767225601, 0)]).unwrap().len(), 1);
    assert!(check_stale_vs_source(&[mk("yesterday", 1767225601, 0)]).unwrap().is_empty());
    assert!(check_stale_vs_source(&[mk("1960-01-01T00:00:00Z", 1767225601, 0)]).unwrap().is_empty());
}

#[test]
fn missing_index_lists_owned_pages_not_in_the_section() {
    let missing = check_missing_index(INDEX, &index_pages());
    assert_eq!(
        missing,
        vec![
            "wiki/entities/Orphan Concept.md".to_string(),
            "wiki/sources/mcp-analysis.md".to_string(),
            "wiki/sources/stale-analysis.md".to_string(),
        ]
    );
    // Without anchors every owned page is missing.
    assert_eq!(check_missing_index("", &index_pages()).len(), 4);
}

#[test]
fn un_ingested_sources_are_sorted() {
    let un = check_un_ingested(&vault_files(), &index_pages());
    assert_eq!(un, vec!["Clippings/clipped.md".to_string(), "Clippings/never-ingested.pdf".to_string()]);
}

#[test]
fn anchored_section_is_the_text_between_the_anchors() {
    assert_eq!(extract_between_anchors(INDEX), "\n## Entities\n- [[Model Context Protocol]]\n");
    assert_eq!(extract_between_anchors("no anchors"), "");
}

fn malformed_items() -> Vec<MalformedItem> {
    vec![
        MalformedItem { file: "AtScale/human-note.md".to_string(), raw: "[[AtScale\\|12345]]".to_string(), fix: "[[AtScale]]".to_string() },
        MalformedItem { file: "wiki/entities/Owned.md".to_string(), raw: "[[X|42]]".to_string(), fix: "[[X]]".to_string() },
        MalformedItem { file: "AtScale/human-note.md".to_string(), raw: "[[Y|7]]".to_string(), fix: "[[Y]]".to_string() },
    ]
}

#[test]
fn files_to_fix_in_order_of_first_appearance() {
    assert_eq!(
        files_to_fix(&malformed_items()),
        vec!["AtScale/human-note.md".to_string(), "wiki/entities/Owned.md".to_string()]
    );
}

fn texts() -> Vec<FileText> {
    vec![
        FileText { path: "AtScale/human-note.md".to_string(), content: Some("See [[AtScale\\|12345]] and [[Y|7]].".to_string()) },
        FileText { path: "wiki/entities/Owned.md".to_string(), content: Some("---\nsumma: entity\n---\n\n[[X|42]] twice [[X|42]]".to_string()) },
    ]
}

#[test]
fn fixes_touch_only_owned_files_unless_human_notes_are_included() {
    let out = apply_malformed_fixes(&texts(), &malformed_items(), false);
    assert_eq!(out.fixed.len(), 1);
    assert_eq!(out.fixed[0].file, "wiki/entities/Owned.md");
    assert_eq!(out.fixed[0].change, "fixed: [[X|42]] \u{2192} [[X]]");
    assert_eq!(out.writes.len(), 1);
    assert_eq!(out.writes[0].0, "wiki/entities/Owned.md");
    assert_eq!(out.writes[0].1, "---\nsumma: entity\n---\n\n[[X]] twice [[X]]");

    let all = apply_malformed_fixes(&texts(), &malformed_items(), true);
    assert_eq!(all.fixed.len(), 3);
    assert_eq!(all.writes.len(), 2);
    assert_eq!(all.writes[0].1, "See [[AtScale]] and [[Y]].");
}

#[test]
fn unreadable_files_are_not_fixed() {
    let files = vec![FileText { path: "wiki/entities/Owned.md".to_string(), content: None }];
    let out = apply_malformed_fixes(&files, &malformed_items(), true);
    assert!(out.fixed.is_empty());
    assert!(out.writes.is_empty());
}

#[test]
fn fix_run_records_index_repairs_and_rechecks() {
    let links = links::run(&link_pages());
    let opts = LintOpts { fix: true, include_human: false, json: true };
    let repairs = vec![FixRecord { file: "a.md".to_string(), change: "fixed: [[A|1]] \u{2192} [[A]]".to_string() }];
    let report = summa::lint::run(
        &links,
        &opts,
        repairs,
        vec![],
        vec!["wiki/x.md".to_string()],
        vec![],
        vec![],
        vec!["Clippings/never-ingested.pdf".to_string()],
        vec![],
    );
    assert_eq!(report.fixed.len(), 2);
    assert_eq!(report.fixed[1].file, "index.md");
    assert_eq!(report.fixed[1].change, "added missing page: wiki/x.md");
    assert!(report.missing_index.is_empty());
    assert_eq!(
        lint_note(&report),
        "fixed 1 malformed links, 1 missing-index pages; orphans=2 dangling=2 stale=0 un-ingested=1"
    );
}

#[test]
fn report_without_fix_records_nothing() {
    let opts = LintOpts { fix: false, include_human: false, json: false };
    let links = links::run(&link_pages());
    let repairs = vec![FixRecord { file: "a.md".to_string(), change: "fixed: x".to_string() }];
    let report = summa::lint::run(&links, &opts, repairs, vec![], vec!["m.md".to_string()], vec![], vec![], vec![], vec![]);
    assert!(report.fixed.is_empty());
    assert_eq!(report.missing_index, vec!["m.md".to_string()]);
}

#[test]
fn index_records_one_per_missing_page() {
    let recs = index_fix_records(&vec!["a.md".to_string(), "b.md".to_string()]);
    assert_eq!(recs.len(), 2);
    assert_eq!(recs[0].change, "added missing page: a.md");
    assert_eq!(recs[1].file, "index.md");
}

#[test]
fn regenerated_index_leaves_only_unlisted_kinds_missing() {
    let mut pages = index_pages();
    let mut other = SummaFrontmatter::default();
    other.summa = Some("meeting".to_string());
    other.title = Some("Weekly Sync".to_string());
    pages.push(IndexPage {
        path: "wiki/meetings/weekly.md".to_string(),
        content: "---\nsumma: meeting\ntitle: Weekly Sync\n---\n\nnotes\n".to_string(),
        fm: Some(other),
    });
    let before = check_missing_index(INDEX, &pages);
    assert_eq!(before.len(), 4);
    let section = summa::index::build_index_section(&pages);
    let regenerated = summa::index::replace_between_anchors(INDEX, &section);
    let after = check_missing_index(&regenerated, &pages);
    assert_eq!(after, vec!["wiki/meetings/weekly.md".to_string()]);
}

#[test]
fn source_time_beyond_the_calendar_is_refused() {
    let page = StalePage {
        path: "wiki/sources/a.md".to_string(),
        fm: Some(fm_of("source-summary", "A", Some("Clippings/a.pdf"), Some("2026-01-01T00:00:00Z"))),
        source_mtime: Some(FileTime { secs: i64::MAX, nanos: 0 }),
    };
    assert!(check_stale_vs_source(&[page]).is_none());
}

#[test]
fn clippings_subfolders_are_not_un_ingested() {
    let files = vec![
        VaultFile { path: "Clippings/sub/deep.md".to_string(), content: Some("note".to_string()) },
        VaultFile { path: "Clippings/top.md".to_string(), content: Some("note".to_string()) },
    ];
    assert_eq!(check_un_ingested(&files, &[]), vec!["Clippings/top.md".to_string()]);
}

const ENTITY_LINKS_LOWER: &str = "---\nsumma: entity\ntitle: Tools\n---\n\nUses [[model context protocol]] and [[model context protocol|MCP]].\n";

fn repair_pages() -> Vec<LinkPage> {
    vec![
        LinkPage { path: "wiki/entities/Model Context Protocol.md".to_string(), content: Some(ENTITY_MCP.to_string()), aliases: vec![] },
        LinkPage { path: "wiki/entities/Tools.md".to_string(), content: Some(ENTITY_LINKS_LOWER.to_string()), aliases: vec![] },
        LinkPage { path: "notes/human.md".to_string(), content: Some("See [[model context protocol]].".to_string()), aliases: vec![] },
    ]
}

#[test]
fn case_only_links_are_reported_as_repairable_not_dangling() {
    let links = links::run(&repair_pages());
    let opts = LintOpts { fix: false, include_human: false, json: false };
    let report = summa::lint::run(&links, &opts, vec![], vec![], vec![], vec![], vec![], vec![], vec![]);
    assert!(report.dangling.iter().all(|d| d.target != "model context protocol"));
    assert_eq!(report.dangling.len(), 1);
    assert_eq!(report.dangling[0].target, "mcp-analysis");
    assert_eq!(report.repairable.len(), 1);
    assert_eq!(report.repairable[0].target, "model context protocol");
    assert_eq!(report.repairable[0].canonical, "Model Context Protocol");
    assert_eq!(
        report.repairable[0].in_files,
        vec!["notes/human.md".to_string(), "wiki/entities/Tools.md".to_string()]
    );
}

#[test]
fn fix_repairs_case_only_links_to_the_canonical_title() {
    let links = links::run(&repair_pages());
    let files: Vec<FileText> = files_to_repair(&links.repairable_dangling)
        .into_iter()
        .map(|f| {
            let content = repair_pages().into_iter().find(|p| p.path == f).and_then(|p| p.content);
            FileText { path: f, content }
        })
        .collect();
    let out = apply_link_repairs(&files, &links.repairable_dangling, false);
    assert_eq!(out.writes.len(), 1);
    assert_eq!(out.writes[0].0, "wiki/entities/Tools.md");
    assert_eq!(
        out.writes[0].1,
        "---\nsumma: entity\ntitle: Tools\n---\n\nUses [[Model Context Protocol]] and [[Model Context Protocol|MCP]].\n"
    );
    assert_eq!(out.fixed.len(), 1);
    assert_eq!(out.fixed[0].file, "wiki/entities/Tools.md");
    assert_eq!(out.fixed[0].change, "repaired: [[model context protocol]] \u{2192} [[Model Context Protocol]]");

    let with_human = apply_link_repairs(&files, &links.repairable_dangling, true);
    assert_eq!(with_human.writes.len(), 2);
    assert_eq!(with_human.writes[0].1, "See [[Model Context Protocol]].");

    let opts = LintOpts { fix: true, include_human: false, json: false };
    let report = summa::lint::run(&links, &opts, vec![], out.fixed, vec![], vec![], vec![], vec![], vec![]);
    assert_eq!(report.fixed.len(), 1);
    assert!(report.fixed[0].change.starts_with("repaired: "));
}

#[test]
fn link_repair_leaves_unlinked_text_alone() {
    let rl = links::RepairableLink {
        target: "a b".to_string(),
        canonical: "A B".to_string(),
        in_files: vec!["wiki/x.md".to_string()],
    };
    let files = vec![
        FileText { path: "wiki/x.md".to_string(), content: Some("---\nsumma: entity\n---\nplain a b, [[a b#Part]]".to_string()) },
        FileText { path: "wiki/y.md".to_string(), content: Some("---\nsumma: entity\n---\n[[a b]]".to_string()) },
    ];
    let out = apply_link_repairs(&files, &[rl], false);
    assert_eq!(out.writes.len(), 1);
    assert_eq!(out.writes[0].1, "---\nsumma: entity\n---\nplain a b, [[A B#Part]]");
    assert_eq!(out.fixed.len(), 1);
}

#[test]
fn malformed_frontmatter_is_reported_and_other_checks_still_run() {
    let opts = LintOpts { fix: false, include_human: false, json: false };
    let links = links::run(&link_pages());
    let problem = FrontmatterProblem {
        file: "references/bad-frontmatter.md".to_string(),
        error: "did not find expected node content".to_string(),
    };
    let report = summa::lint::run(
        &links,
        &opts,
        vec![],
        vec![],
        vec!["m.md".to_string()],
        vec![],
        vec![],
        vec!["Clippings/never-ingested.pdf".to_string()],
        vec![problem],
    );
    assert_eq!(report.malformed_frontmatter.len(), 1);
    assert_eq!(report.malformed_frontmatter[0].file, "references/bad-frontmatter.md");
    assert_eq!(report.malformed_frontmatter[0].error, "did not find expected node content");
    assert!(report.orphans.contains(&"wiki/entities/Orphan Concept.md".to_string()));
    assert_eq!(report.missing_index, vec!["m.md".to_string()]);
    assert_eq!(report.un_ingested, vec!["Clippings/never-ingested.pdf".to_string()]);
}

#[test]
fn repairing_the_repaired_files_again_changes_nothing() {
    let links = links::run(&repair_pages());
    let files: Vec<FileText> = files_to_repair(&links.repairable_dangling)
        .into_iter()
        .map(|f| {
            let content = repair_pages().into_iter().find(|p| p.path == f).and_then(|p| p.content);
            FileText { path: f, content }
        })
        .collect();
    let first = apply_link_repairs(&files, &links.repairable_dangling, true);
    assert_eq!(first.writes.len(), 2);
    let again: Vec<FileText> = files
        .iter()
        .map(|f| {
            let written = first.writes.iter().find(|(p, _)| *p == f.path).map(|(_, t)| t.clone());
            FileText { path: f.path.clone(), content: written.or_else(|| f.content.clone()) }
        })
        .collect();
    let second = apply_link_repairs(&again, &links.repairable_dangling, true);
    assert!(second.writes.is_empty());
    assert!(second.fixed.is_empty());
}

#[test]
fn fixing_the_fixed_files_again_writes_nothing() {
    let first = apply_malformed_fixes(&texts(), &malformed_items(), true);
    assert_eq!(first.writes.len(), 2);
    let again: Vec<FileText> = first
        .writes
        .iter()
        .map(|(p, t)| FileText { path: p.clone(), content: Some(t.clone()) })
        .collect();
    let second = apply_malformed_fixes(&again, &malformed_items(), true);
    assert!(second.writes.is_empty());
}
