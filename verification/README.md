# dendro

A segmented archive with a write-ahead log, verified with Verus.

An archive holds *sources* (a host, a recording), each with *streams* of
timestamped rows. Rows are appended to a log; a stream's rows are *sealed* into
one parquet segment at a time, and pruned from the log once the segment holds
them. A read is the segments, oldest first, and then whatever the log still holds
past the newest of them. What a row means is the caller's: an encoder turns rows
into a segment, and the archive catalogs what it made.

## Layout

- `src/` is the library. Everything in it is verified.
  - `db` — the tables, every question and change they answer to, and what holds of
    them (`db/laws.rs`); `db/file.rs` and `db/columns.rs` decide what a file's
    header, settings and text columns mean.
  - `segment` — the encoder's contract: what it claims of a segment is checked
    against the rows it was given.
  - `writer` — ticks, seals, sessions, retention and retries as decisions.
  - `read` — streams as segments, ranges, probes and catalogs.
  - `rewrite` — compaction, projection and copies of archives, what a compaction
    leaves as it was (`rewrite/compaction.rs`), and which segments can be read
    (`rewrite/readable.rs`).
  - `replicate` — the frame codec, publisher and subscriber, what holds over a
    whole connection (`replicate/history.rs`) and over a publisher's calls
    (`replicate/calls.rs`), and the proof that a replica reads the same as its
    source (`replicate/lossless.rs`).
- `tests/` run the library on concrete archives, with the real `arrow`, `parquet`,
  `rusqlite` and `serde_json` behind it.
- `app/` is the part that does I/O: the SQLite file, the writing thread, frames
  over byte streams, and two small programs.

## What is trusted

Calls into other crates stand behind functions whose contracts are believed, each
with a comment that says what is claimed: parquet files and arrow values in
`rewrite/parquet_file.rs`, JSON in `db/columns.rs` and `writer/session.rs`, SQLite
result codes and quoted text in `error.rs`, and UTF-8 in `replicate/wire.rs`. The
`SegmentEncoder` and `ColumnFilter` traits are the caller's to implement, and are
taken to answer the same question the same way twice.

`parquet`'s decoder takes some things of a file for granted, and panics where they
do not hold. So nothing is handed to it before it has been looked at: the nesting of
the footer's schema (`rewrite/footer.rs`), the layout of the row groups, the header and
the bytes of every page (`rewrite/headers.rs`, `rewrite/pages.rs`, `rewrite/deltas.rs`),
the levels of a map's columns (`rewrite/levels.rs`), and the columns' types
(`rewrite/readable.rs`). A segment that does not pass is an error of the merge,
projection or compaction that would have read it. Every file passes that `parquet`
writes with its default encodings, of either version of its pages, with or without
dictionaries, but for these: unions and runs; lists, dictionaries, decimals and bytes
of one length inside a map; dictionaries of yes and no, or of numbers under keys
narrower than four bytes; and lists of one length past 65,536 values. What other
writers may put in a file does not pass either where it is text under another
annotation than text, times of twelve bytes, decimals of varying length, or an encoding
that must be asked for by name.

An encoder that panics is the caller's: `app/` hands every encoder to the library
inside `Guarded`, which turns the panic into that encoder's failure and keeps its
text.
