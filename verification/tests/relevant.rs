use summa::relevant::{
    first_summary_line, is_match, page_hits, page_title, query_terms, scannable, term_count,
    tokenize, RelevantOpts, MAX_FILE_BYTES,
};

#[test]
fn ac2_short_query_is_empty_ok() {
    assert!(query_terms("ab").is_empty(), "queries under 3 chars must yield nothing");
    assert!(query_terms("  ab  ").is_empty());
    assert!(query_terms("").is_empty());
}

#[test]
fn ac2_no_match_is_empty_ok() {
    let terms = query_terms("zzznonexistentqueryterm999");
    let hits = page_hits(
        "Fleet Build Automation",
        &vec!["FBA".to_string()],
        "The fleet builds on redbaron when a path unit fires.",
        &terms,
    )
    .expect("counts fit");
    assert!(!is_match(&hits), "expected no matches");
}

#[test]
fn query_terms_are_lowercase_alphanumeric_runs() {
    assert_eq!(query_terms("How does build start on redbaron?"), vec!["how", "does", "build", "start", "on", "redbaron"]);
    assert_eq!(query_terms("  C++ & Rust-2024  "), vec!["c", "rust", "2024"]);
    assert_eq!(query_terms("!!!"), Vec::<String>::new());
    assert_eq!(tokenize("MCP/server_v2"), vec!["mcp", "server", "v2"]);
}

#[test]
fn term_counts_are_non_overlapping() {
    assert_eq!(term_count("aaaa", "aa"), 2);
    assert_eq!(term_count("banana", "ana"), 1);
    assert_eq!(term_count("abc", ""), 0);
    assert_eq!(term_count("", "a"), 0);
}

#[test]
fn hits_in_title_aliases_and_body() {
    let terms = query_terms("how does build start on redbaron");
    let hits = page_hits(
        "Fleet Build Automation",
        &vec!["Build Fleet".to_string(), "redbaron builds".to_string()],
        "How the build starts on redbaron: a path unit starts the build.",
        &terms,
    )
    .expect("counts fit");
    assert_eq!(hits.title, 2);
    assert_eq!(hits.alias, 4);
    assert_eq!(hits.body, 8);
    assert!(is_match(&hits));
}

#[test]
fn summary_line() {
    assert_eq!(first_summary_line("\n\n   \n# Heading here  \nmore"), "Heading here");
    assert_eq!(first_summary_line("  plain first line \n second"), "plain first line");
    assert_eq!(first_summary_line("   \n\t\n"), "");
    let long = "x".repeat(250);
    assert_eq!(first_summary_line(&long).chars().count(), 200);
    let long_multi = "é".repeat(201);
    assert_eq!(first_summary_line(&long_multi), "é".repeat(200));
}

#[test]
fn titles_fall_back_to_the_stem() {
    assert_eq!(page_title(Some("Given"), "wiki/x.md"), "Given");
    assert_eq!(page_title(None, "wiki/entities/Fleet Build Automation.md"), "Fleet Build Automation");
    assert_eq!(page_title(None, ".."), "Unknown");
}

#[test]
fn defaults_and_size_cap() {
    let o = RelevantOpts::default();
    assert_eq!(o.limit, 5);
    assert!(!o.explain);
    assert!(scannable(MAX_FILE_BYTES));
    assert!(!scannable(MAX_FILE_BYTES + 1));
    assert_eq!(MAX_FILE_BYTES, 10 * 1024 * 1024);
}
