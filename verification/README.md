# rust_a_log

A log viewer library: it finds where the last N records of a log that pass a
filter begin by scanning the file backwards in 64 KiB blocks, splits newly
read bytes into records (keeping an incomplete record until its newline
arrives), decides how to follow a file that grows, shrinks or is replaced, and
builds the records a small logger appends. The library's own functions carry
contracts that Verus proves. The calls into `std`, `chrono` and `colored`
(decoding, lowercasing, the clock, coloring) sit behind small trusted
wrappers in `src/`, whose contracts state what those crates document or their
source shows, and are not proved.

- `src/severity.rs`: the bracketed level labels (`[ERROR]`, `[WARN]`, ...).
- `src/filter.rs`: the record filter (levels, literal text, ignore case).
- `src/record.rs`: record text and the forward splitting of read bytes.
- `src/scan.rs`: the backward scan, and the proof that it keeps exactly the
  last N matching records.
- `src/display.rs`: how a record is printed, its label painted by `colored`.
- `src/settings.rs`: what the command line asks for.
- `src/follow.rs`: the decisions of following a file.
- `src/logger.rs`: the logger's records, stamped through `chrono`.
- `app/`: the `rual` command: arguments (`clap`), files and the terminal;
  `app/files.rs` also creates and appends to the logger's file.
