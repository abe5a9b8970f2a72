use summa::vault::{classify_file, should_skip, FileKind};

#[test]
fn files_are_classified_by_extension() {
    assert_eq!(classify_file("wiki/a.md"), FileKind::Md);
    assert_eq!(classify_file("Clippings/b.pdf"), FileKind::Pdf);
    assert_eq!(classify_file("c.PDF"), FileKind::Other);
    assert_eq!(classify_file("notes.txt"), FileKind::Other);
    assert_eq!(classify_file(".md"), FileKind::Other);
    assert_eq!(classify_file("dir/"), FileKind::Other);
    assert_eq!(classify_file("archive.tar.md"), FileKind::Md);
}

#[test]
fn tool_directories_are_skipped() {
    for d in [".obsidian", ".git", ".trash", ".DS_Store", "target"] {
        assert!(should_skip(d), "{d} should be skipped");
    }
    assert!(should_skip(".cache"));
    assert!(!should_skip("wiki"));
    assert!(!should_skip(""));
    assert!(!should_skip("Target"));
}
