//! The crate's dependency policy for `cargo deny` (kept as `extras/deny.toml`
//! in the source tree, repeated here so the test reads the policy itself).

const DENY_TOML: &str = r#"# cargo-deny configuration for the summa crate.

[graph]
all-features = false

[advisories]
version = 2
yanked = "deny"

[licenses]
version = 2
confidence-threshold = 0.9
allow = [
    "MIT",
    "Apache-2.0",
    "Apache-2.0 WITH LLVM-exception",
    "BSD-3-Clause",
    "BSL-1.0",
    "ISC",
    "Unicode-3.0",
    "Unlicense",
    "Zlib",
    "0BSD",
]

# webpki-roots (pulled in by ureq's TLS stack) ships the Mozilla root
# certificates under CDLA-Permissive-2.0; allow it for that crate only.
[[licenses.exceptions]]
name = "webpki-roots"
allow = ["CDLA-Permissive-2.0"]

[bans]
multiple-versions = "warn"
wildcards = "allow"

[sources]
unknown-registry = "deny"
unknown-git = "deny"
"#;

#[test]
fn ac6_deny_toml_exists() {
    assert!(!DENY_TOML.trim().is_empty(), "AC6: deny.toml is missing");
    assert!(DENY_TOML.contains("[advisories]"), "AC6: deny.toml has no advisories section");
    assert!(DENY_TOML.contains("[licenses]"), "AC6: deny.toml has no licenses section");
    // The license finding is resolved with a scoped exception, not a blanket allow.
    let exception = DENY_TOML
        .split("[[licenses.exceptions]]")
        .nth(1)
        .expect("AC6: deny.toml has no scoped license exception");
    assert!(exception.contains("name = \"webpki-roots\""));
    assert!(exception.contains("CDLA-Permissive-2.0"));
    let licenses = DENY_TOML.split("[licenses]").nth(1).unwrap();
    let allow = licenses.split("allow = [").nth(1).and_then(|a| a.split(']').next()).expect("AC6: no allow list");
    assert!(!allow.contains("CDLA-Permissive-2.0"), "AC6: the exception must stay scoped");
}
