# minnal_db

The decisions of an embedded document database, written in Verus: what is stored
where, in which order it is written, and what comes back.

- `src/index`: sets of 16-bit values as arrays, bitsets and runs; bitmaps of
  128-bit numbers made of them; a container store, which keeps such sets by key in
  two byte images; and a row map, which gives keys dense identifiers.
- `src/doc_store`: document identifiers, schemas, index builds, the vector-index
  queue and its worker, reindexing and reconciliation.
- `src/semantic_search`: sentences and windows of a text, packed codes, the final
  ranking of search results, and the counts behind relevance metrics.
- `src/bytes.rs`, `src/lex.rs`, `src/numbers.rs`, `src/seqs.rs`, `src/sorting.rs`,
  `src/text.rs`: what these share.
- `tests`: the library run on concrete values.
- `app`: a demonstration program with what the library leaves out: files, threads,
  floating point and the calls that its plans ask for.

Public proof functions whose names begin with `law_` state what holds of several
functions together.
