use summa::log::{log_header, log_line};

#[test]
fn test_log_appends() {
    let before = format!("{}2026-06-01T00:00:00Z  lint  -  earlier\n", log_header());
    let line = log_line("2026-09-06T12:00:00Z", "ingest", "AtScale", "test entry");
    let after = format!("{}{}", before, line);

    assert_eq!(after.lines().count(), before.lines().count() + 1, "expected exactly one new line");
    let new_line = after.lines().last().expect("no lines");
    assert!(new_line.contains("ingest"), "kind missing");
    assert!(new_line.contains("AtScale"), "subject missing");
    assert!(new_line.contains("test entry"), "note missing");
    assert!(new_line.contains("  ingest  "), "two-space separators missing");
}

#[test]
fn test_log_creates_file() {
    let content = format!("{}{}", log_header(), log_line("2026-09-06T12:00:00Z", "lint", "-", "fixed 0 links"));
    assert!(content.contains("lint"), "log content wrong");
    assert!(content.starts_with("# Log\n\n"));
}

#[test]
fn log_line_shape() {
    assert_eq!(
        log_line("2026-09-06T12:00:00Z", "ingest", "AtScale", "test entry"),
        "2026-09-06T12:00:00Z  ingest  AtScale  test entry\n"
    );
}
