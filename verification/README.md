# pin_core

Host-independent identities, checked formats and deterministic search for a
full-text index, written in Verus. Contracts are stated over mathematical models
of the data, and Verus proves them. What rests on the allocator, on a host or on
the Unicode tables is stated as far as those can be described; the comments at
each such place say what is left open.

## Layout

- `src/identity.rs`, `src/budget.rs`, `src/memory.rs`: identities of heap tuples,
  segments and documents; accounting of memory and of search steps.
- `src/normalize.rs`, `src/analysis.rs`: composition, simple folding and word
  segmentation. The Unicode tables come from `unicode-normalization`,
  `unicode-case-mapping` and `unicode-segmentation`; the few functions that call
  them are marked `external_body` and say what they rely on.
- `src/query.rs`, `src/oracle.rs`, `src/candidate.rs`, `src/index.rs`: queries,
  their direct evaluation on a document, covers of candidate terms, and the
  reference index.
- `src/codec/`: bytes, varints, positions, offset sets, dictionaries and records.
- `src/grouped/`: bitmaps and rosters of 256 heap pages, boolean programs over
  them, merging and retirement.
- `src/mutable/`: recoverable page storage over a host that implements
  `PageStore`: pages, writing, vacuum, compaction, scans, phrases, work batches,
  and the grouped snapshots under `mutable/grouped/`. `mutable/memory.rs` is a
  host in memory.
- `tests/`: examples and edge cases that run against the compiled library.
- `app/`: the library's errors as standard errors, and a small demonstration.

## Reading contracts

Parsers are functions from byte sequences to results (`parsed`, `validated`,
`bitmap_at`). Readers of a store answer as a function of the store's pages
(`answers`, `delivered`), or the host failed. Writers perform a change of the
pages (`performs`). Scans of many chains say what they hand over where nothing
that they meet is damaged (`undamaged`).
