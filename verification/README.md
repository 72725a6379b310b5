# kvs

A log-structured key-value store. Updates are appended to a write-ahead log
as BSON documents; an in-memory index maps each key to the latest record
written for it.

- `src/` is the verified library: framing of the log (`frame`), the order of
  keys (`key_order`), file names (`naming`), the bookkeeping of log files,
  pointers and compaction (`file_storage`), the index and its contents
  (`store`), and the handling of server requests (`server`).
- `app/` does the file, network and terminal work: it reads and writes the
  log files, encodes records as BSON, and runs the command-line programs.
- `tests/` exercises the library on concrete values.
