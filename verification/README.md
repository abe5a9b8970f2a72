# summa

Deterministic mechanics for a wiki kept in a Markdown (Obsidian) vault:
frontmatter, wikilinks, the generated index, the append-only log, entity,
decision, summary and answer pages, vault health checks, source ingestion
and lexical ranking of pages for a query.

The library in `src/` is written in Verus: every function carries a
`requires`/`ensures` contract over mathematical models of its inputs
(character sequences, sequences of pages) and is proved against it. The
command-line program in `app/` does the reading, writing, fetching and
printing around it.

## Layout

| Path | Contents |
|------|----------|
| `src/text.rs` | character-sequence searching, splitting, trimming, joining, decimal formatting |
| `src/order.rs` | lexicographic order and stable sorting |
| `src/frontmatter.rs` | splitting a page into frontmatter and body, page types, field lookup |
| `src/links.rs` | the wikilink scanner and the vault's link report (orphans, dangling, repairable, malformed) |
| `src/vault.rs` | file names, stems, extensions, skipped directories |
| `src/index.rs` | the generated index section and its anchors; a second index run writes the same file |
| `src/index_coverage.rs` | regenerating the index lists every entity, source summary and answer |
| `src/page.rs` | entity, decision, summary and answer pages; mention de-duplication |
| `src/decision_dedup.rs` | the decision log: a filed entry becomes the newest and the rest is kept; filing it twice appends it once |
| `src/lint.rs` | the health checks, malformed-link and repairable-link repair, and the lint report |
| `src/repair_twice.rs` | repairing the same links a second time changes nothing |
| `src/log.rs` | log lines |
| `src/ingest.rs` | source classification, slugs, titles, the ingest stub |
| `src/relevant.rs` | query terms, hit counts and page summaries for ranking |
| `app/main.rs` | the `summa` command |
| `tests/` | tests of the library |
| `extras/deny.toml` | dependency policy for `cargo deny` |

## Commands

`summa ingest <path|url>`, `summa index`, `summa log <kind> <subject> <note>`,
`summa links [--json]`, `summa lint [--fix] [--include-human] [--json]`,
`summa page entity|summary|answer|decision ...`, `summa relevant <query>`.
The vault root is `$SUMMA_VAULT`, else `~/Notes`.
