use std::hash::{Hash, Hasher};
use summa::ingest::{
    hex8_exec, is_url, page_text, run, sha8_of_path, source_kind, staging_name, stem_to_title,
    text_file_name, title_case, url_to_slug, SourceKind,
};

#[test]
fn test_ingest_md() {
    let src = "/vault/AtScale/human-note.md";
    let text_path = format!("/tmp/{}", text_file_name(src));
    let stub = run(src, src, "Clippings/human-note.md", &text_path, 120);

    assert_eq!(stub.kind, "md");
    assert!(!stub.staged_path.is_empty());
    assert!(!stub.extracted_text_path.is_empty());
    assert!(stub.bytes > 0);
    assert_eq!(stub.source, src);
    assert_eq!(stub.suggested_title, "Human Note");
}

#[test]
fn stub_for_a_relative_pdf_uses_the_located_path() {
    let stub = run("papers/deep_dive-notes.PDF", "/home/u/papers/deep_dive-notes.PDF", "Clippings/deep_dive-notes.PDF", "/tmp/t.txt", 9);
    assert_eq!(stub.kind, "pdf");
    assert_eq!(stub.source, "/home/u/papers/deep_dive-notes.PDF");
    assert_eq!(stub.suggested_title, "Deep Dive Notes");
    assert_eq!(stub.bytes, 9);
}

#[test]
fn stub_for_a_url() {
    let url = "https://example.com/blog/my-great_post/";
    let stub = run(url, "", "Clippings/my-great-post.md", "/tmp/t.txt", 5);
    assert_eq!(stub.kind, "url");
    assert_eq!(stub.source, url);
    assert_eq!(stub.suggested_title, "My Great Post");
}

#[test]
fn sources_are_classified() {
    assert_eq!(source_kind("http://x.org/a.pdf"), SourceKind::Url);
    assert_eq!(source_kind("https://x.org"), SourceKind::Url);
    assert_eq!(source_kind("a/b.pdf"), SourceKind::Pdf);
    assert_eq!(source_kind("a/b.PdF"), SourceKind::Pdf);
    assert_eq!(source_kind("a/b.md"), SourceKind::Md);
    assert_eq!(source_kind("a/b.txt"), SourceKind::Md);
    assert_eq!(source_kind("a/noext"), SourceKind::Md);
    assert!(is_url("http://a"));
    assert!(!is_url("ftp://a"));
    assert!(!is_url("Http://a"));
}

#[test]
fn url_slugs() {
    assert_eq!(url_to_slug("https://example.com/blog/my-great_post/"), "my-great-post");
    assert_eq!(url_to_slug("https://example.com/blog/post/?utm=1"), "");
    assert_eq!(url_to_slug("https://example.com/a/b?x=1#frag"), "b");
    assert_eq!(url_to_slug("https://example.com/a/page.html#top"), "page-html");
    assert_eq!(url_to_slug("https://example.com"), "example-com");
    assert_eq!(url_to_slug("http://sub.example.com?q=1"), "sub-example-com");
    assert_eq!(url_to_slug("https://example.com/"), "example-com");
    assert_eq!(url_to_slug("https://example.com//"), "example-com");
    assert_eq!(url_to_slug("https://https://x.org/y"), "y");
}

#[test]
fn titles() {
    assert_eq!(title_case("hello   wide\tworld "), "Hello Wide World");
    assert_eq!(title_case(""), "");
    assert_eq!(title_case("élan vital"), "Élan Vital");
    assert_eq!(stem_to_title("model-context_protocol"), "Model Context Protocol");
}

#[test]
fn staging_names() {
    assert_eq!(staging_name("https://example.com/a/post", ""), "post.md");
    assert_eq!(staging_name("x/report.pdf", "/abs/x/report.pdf"), "report.pdf");
    assert_eq!(staging_name("x/notes.txt", "/abs/x/notes.txt"), "notes.txt");
    assert_eq!(staging_name("..", "/abs/.."), "unknown.md");
}

#[test]
fn hex_padding() {
    assert_eq!(hex8_exec(0), "00000000");
    assert_eq!(hex8_exec(0xabc), "00000abc");
    assert_eq!(hex8_exec(0xdeadbeef), "deadbeef");
    assert_eq!(hex8_exec(0x1_0000_0000), "100000000");
    assert_eq!(hex8_exec(u64::MAX), "ffffffffffffffff");
}

#[test]
fn scratch_names_follow_the_std_hash() {
    let key = "/vault/AtScale/human-note.md";
    let mut h = std::collections::hash_map::DefaultHasher::new();
    key.hash(&mut h);
    let expected = format!("{:08x}", h.finish());
    assert_eq!(sha8_of_path(key), expected);
    assert_eq!(text_file_name(key), format!("summa-{}.txt", expected));
    assert_ne!(sha8_of_path("a"), sha8_of_path("b"));
}

#[test]
fn html_pages_render_to_text() {
    let text = page_text("<html><body><h1>Title</h1><p>Some text here.</p></body></html>").ok().expect("renders");
    assert!(text.contains("Title"));
    assert!(text.contains("Some text here."));
    assert!(!text.contains("<p>"));
}
