# novel_core

The reading core of a Chinese web-novel reader, written in Verus: every
function in `src/` carries a `requires`/`ensures` contract that Verus proves.

## Layout

- `src/text.rs`: characters, words, lines, byte lengths and the small
  string tools the rest builds on.
- `src/decode.rs`: turning raw bytes into text (BOM, UTF-8, GBK and friends
  through `encoding_rs` and `chardetng`).
- `src/repair.rs`, `src/chapters.rs`, `src/book.rs`, `src/meta.rs`,
  `src/fingerprint.rs`: cleaning a text, finding its chapters, its title and
  author, and a stable identity for the file.
- `src/chunk.rs`, `src/passage.rs`, `src/genre.rs`, `src/focus.rs`: pieces of
  a book for reading aloud and summarising, search, and rough estimates of
  genre and of how much of the book is romance.
- `src/cast/`: who is in the book and who stands with whom, counted from
  dialogue attribution and co-occurrence.
- `src/romance/` with `src/romance.rs`: the relationship structure of the
  lead: evidence from sentence rules and attributed dialogue, verdicts per
  candidate, and the book's label.
- `src/portrait.rs`, `src/portrait/`: the reader's habits from the reading log.
- `src/source.rs`, `src/source/`, `src/sources.rs`: book-source rules (URL
  templates, replacement rules, JSON fields, the index and content grammar of
  selector rules) and source lists.
- `src/assistant.rs`, `src/reply.rs`, `src/reader.rs`: what is asked of a
  language model and how its replies are read back.
- `src/download.rs`, `src/enrich.rs`: assembling a downloaded book, the retry
  policy of a download, and when a chapter-by-chapter summarising run stops.
- `src/store.rs`: key and row shapes the database layer relies on.

`app/` is ordinary Rust around the library: the SQLite store, file and network
I/O, and the entry points a user interface calls. `tests/` exercises the
library from outside.

Outside crates are called from `src/` only through small trusted wrappers,
each with a doc comment saying what its contract claims.
