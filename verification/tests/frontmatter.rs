use summa::frontmatter::{get_field, is_summa_owned, page_type, split_frontmatter, PageType, SummaFrontmatter};

#[test]
fn test_frontmatter_summa_owned() {
    let content = "---\nsumma: entity\ntitle: Foo\n---\n\nbody";
    assert!(is_summa_owned(content));
}

#[test]
fn test_frontmatter_not_owned() {
    let content = "---\ntitle: Foo\n---\n\nbody";
    assert!(!is_summa_owned(content));
}

#[test]
fn test_frontmatter_no_frontmatter() {
    let content = "Just a plain note with no frontmatter.";
    assert!(!is_summa_owned(content));
}

#[test]
fn frontmatter_that_does_not_parse_is_not_owned() {
    let content = "---\ntitle: \"Bad\"\nrelated: [[Some Page]], [[Other Page]]\n---\n\nbody";
    assert!(!is_summa_owned(content));
}

#[test]
fn split_separates_header_and_body() {
    let (fm, body) = split_frontmatter("---\nsumma: entity\n---\n\nbody text");
    assert_eq!(fm, Some("summa: entity"));
    assert_eq!(body, "body text");
}

#[test]
fn split_without_closing_fence_keeps_everything() {
    let content = "---\nsumma: entity\nno closing fence";
    let (fm, body) = split_frontmatter(content);
    assert_eq!(fm, None);
    assert_eq!(body, content);
}

#[test]
fn split_without_frontmatter() {
    let (fm, body) = split_frontmatter("plain");
    assert_eq!(fm, None);
    assert_eq!(body, "plain");
}

#[test]
fn page_types_by_name() {
    assert!(matches!(PageType::from_str("entity"), PageType::Entity));
    assert!(matches!(PageType::from_str("source-summary"), PageType::SourceSummary));
    assert!(matches!(PageType::from_str("answer"), PageType::Answer));
    match PageType::from_str("meeting") {
        PageType::Unknown(s) => assert_eq!(s, "meeting"),
        other => panic!("unexpected {:?}", other),
    }
}

#[test]
fn page_type_comes_from_the_summa_value() {
    let mut fm = SummaFrontmatter::default();
    assert!(page_type(Some(&fm)).is_none());
    fm.summa = Some("answer".to_string());
    assert!(matches!(page_type(Some(&fm)), Some(PageType::Answer)));
    assert!(page_type(None).is_none());
}

#[test]
fn get_field_reads_string_values_only() {
    let content = "---\nsumma: entity\ntitle: Foo\naliases: [A, B]\n---\n\nbody";
    assert_eq!(get_field(content, "title"), Some("Foo".to_string()));
    assert_eq!(get_field(content, "summa"), Some("entity".to_string()));
    assert_eq!(get_field(content, "aliases"), None);
    assert_eq!(get_field(content, "missing"), None);
    assert_eq!(get_field("no frontmatter", "title"), None);
}
