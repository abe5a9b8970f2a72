# cargo-deny configuration for the summa crate.

[graph]
all-features = false

[advisories]
version = 2
yanked = "deny"

[licenses]
version = 2
confidence-threshold = 0.9
allow = [
    "MIT",
    "Apache-2.0",
    "Apache-2.0 WITH LLVM-exception",
    "BSD-3-Clause",
    "BSL-1.0",
    "ISC",
    "Unicode-3.0",
    "Unlicense",
    "Zlib",
    "0BSD",
]

# webpki-roots (pulled in by ureq's TLS stack) ships the Mozilla root
# certificates under CDLA-Permissive-2.0; allow it for that crate only.
[[licenses.exceptions]]
name = "webpki-roots"
allow = ["CDLA-Permissive-2.0"]

[bans]
multiple-versions = "warn"
wildcards = "allow"

[sources]
unknown-registry = "deny"
unknown-git = "deny"
