//! Deterministic mechanics for a wiki kept in a markdown vault: frontmatter,
//! wikilinks, index and log maintenance, page editing and vault checks.

pub mod text;
pub mod frontmatter;
pub mod links;
pub mod order;
pub mod vault;
pub mod index;
pub mod page;
pub mod lint;
pub mod log;
pub mod ingest;
pub mod relevant;
pub mod decision_dedup;
pub mod index_coverage;
pub mod repair_twice;
pub mod page_laws;
