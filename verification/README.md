# mlocate

A fast, metadata-aware file locator: `mupdatedb` walks the file system and writes a
trigram index with Roaring-bitmap posting lists; `mlocate` searches it by substring,
basename or regular expression, with size, modification-time and MIME filters.

The library under `src/` is verified with Verus. Its main parts:

- `index/` — the index file: header (`header.rs`), byte layout (`layout.rs`,
  `image.rs`), the writer (`writer.rs`), the reader (`reader.rs`, `dir.rs`), trigram
  extraction (`trigram.rs`), search (`search.rs`), statistics (`stats.rs`), building an
  index from file entries (`builder.rs`) and the sorted chunk runs it is built from
  (`chunk.rs`). `roundtrip.rs` and `dirlaws.rs` prove what the reader reads back of what
  the writer wrote.
- `filter.rs` — the size, modification-time and MIME filter syntax.
- `db/` — the SQL text and parameters a database-backed search would run; the database
  itself is not part of this crate.
- `crawl.rs`, `pipeline.rs`, `update.rs`, `cron.rs`, `platform/` — the decisions of the
  updater: what the walker keeps, which MIME type a file gets, which paths and which
  build, the scheduler units, and the default paths.
- `output/` — plain, NUL-terminated and JSON output, icons, ages and tones, paths shortened
  to a table column and split for colouring, and which output form a search uses.
- `bitmap.rs`, `codec.rs`, `clock.rs` — the calls into `roaring`, `crc32fast` and `zstd`
  and into std's clock, each behind a small trusted wrapper with its contract, and the
  FxHash of long extensions, written out and verified with a fixed byte order.

`app/` holds the two programs (chosen by the name they are run under): command-line
parsing, file and terminal I/O, threads, and what needs floating point. It merges the
sorted chunk files in memory: the index writer holds the whole index in memory anyway.
