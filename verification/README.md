# flowdb

A log-structured merge storage engine for time-stamped records, with a layer for
JSON documents and a server. The engine's core is verified with Verus; what reads
and writes files and sockets is ordinary Rust around it.

## Layout

- `src/` – the verified library. It works on values: bytes of files go in and come
  out, and the clock is an argument.
  - `record`, `bytes`, `text`, `codec`, `sort`, `versions`: records, keys and their
    encodings, and which of several versions of a record counts
  - `wal`: the log; `memtable`: the tables in memory; `sstable`: table files;
    `bloom`, `cache`, `block_index`: what makes reads fast; `manifest`: which
    tables there are
  - `write_worker`, `lookup`, `scan`, `gc`, `engine`: writing, flushing, point
    lookups, scans, garbage collection, recovery; `durability`: that neither a flush
    nor a restart changes the answer to a query; `agreement`: that a lookup gives the
    record that a query for its key and time gives, before and after a flush and a
    restart
  - `jsondb`: keys, schemas and index entries of documents, documents as JSON text,
    and the order of numbers in an index
  - `udp`, `http`, `auth`, `server_config`, `stats`, `stress`: what the server
    decides, and the workloads of the throughput test
- `tests/` – tests of the library.
- `app/` – the server and the throughput test.

## How a write and a flush go

A write waits while `Engine::must_stall` says so. `Engine::write_batch` and its kin
number the records and encode them, each with a checksum: a `StagedWrite`. The
caller appends its bytes to the log and hands it to `Engine::commit`. Where that says that a flush is due, `Engine::flush` builds a
table file; the caller writes it and hands it to `Engine::finish_flush`, which
says what goes to the manifest and which log segments can go.

Reads take the open tables as an argument: the reader of each, and its bytes.

## What is proved

Each function states what it returns or changes. Public proof functions whose
names begin with `law_` state what holds across functions: what was written is
read back from the log, from table files and from frames; a changed byte in a value
of the log is detected; recovery gives exactly what was not flushed; as long as
nothing expires, a flush and a restart leave the answers to queries and lookups as
they were; a lookup and a query agree; a scan has one answer, which is in order and
shows of each key and time the newest version, unless that is a deletion or a deleted
range covers the key; no block is passed over wrongly; Bloom filters have no false
negatives; index entries stand in the order of their values, all numbers in one
order.

Calls into other crates (`ahash`, `base64`, `lru`, `lz4_flex`, `serde_json`, `zstd`)
stand in small functions marked `external_body`. Their contracts are believed, not
proved.
