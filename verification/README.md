# inverted_index

An immutable inverted index with verified storage formats and lookups.

A corpus holds one document per line; tokens are whitespace-separated runs of
ASCII letters and digits. Indexing gives every line the next document
identifier and every distinct token of it a posting with its number of
occurrences. The finalized index is written as an immutable segment file:
a header, a term-offset table, term records in byte order, delta- and
varint-encoded postings, and a CRC-32 checksum. Manifests list the segments of
one index generation; lookups search every segment of a manifest by binary
search and decode postings lazily.

## Layout

- `src/` — the library, verified with Verus: the varint, postings, segment
  and manifest codecs, the lazy and the eager segment readers, the index
  builder, single- and multi-segment lookup, index snapshots, file naming and
  counters. Its contracts and laws (round trips of every codec, lookup in a
  written segment, lookup across segments, indexing a corpus) are proved.
- `tests/` — tests of the library on concrete values.
- `app/` — the interactive shell (`build <corpus>`, `lookup <term>`,
  `lookup-stats <term>`): file and directory access, publishing files through
  a temporary file, memory-mapped reads, and printing reports.
