# cix

A trigram index for substring search over a tree of source files, with its core
verified by Verus.

Each file is reduced to the set of 3-byte windows (trigrams) it contains. The index maps
every trigram to the set of documents holding it (a `RoaringBitmap`); a query is answered
by intersecting the sets of its own trigrams. A search never misses a document that holds
the query; it may return a document that holds all the query's trigrams but not the query.

## Layout

- `src/` — the verified library.
  - `trigram.rs`: packing bytes into trigram keys, extracting the sorted, distinct
    trigrams of a byte string, and displaying a key.
  - `crawler.rs`: the per-file rules of the crawl (size limit, binary sniff).
  - `index/format.rs`: the on-disk layout (header, document table, path data, trigram
    table, bitmap data) as spec functions, with little-endian coding.
  - `index/builder.rs`: the posting lists under construction and the writer of the index.
  - `index/store.rs`: opening an index and reading paths and bitmaps back from it.
  - `query.rs`: the search itself.
  - `watcher.rs`: the pending changes between rebuilds of a watched tree.
  - `properties.rs`: the laws that span these modules: what is read back of a written
    index, and that a search finds exactly the documents holding every trigram of the
    query, so none that holds the query.
  - `bitmap.rs`, `posting_map.rs`, `text.rs`: the trusted contracts of the `roaring`
    and `dashmap` crates and of the few std functions the library calls.
- `app/` — the command-line program: directory walking, threads, file I/O, the watch
  loop and statistics output.
- `tests/` — tests of the library on concrete values.
