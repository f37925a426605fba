# gemgraph

An embedded property graph database with a small Cypher dialect, written and
proved in Verus.

## Layers

| Module | What it holds |
| --- | --- |
| `page`, `meta`, `freelist`, `cache`, `datafile`, `pager` | fixed-size pages, two meta pages that take turns, the list of free pages, and the pages as of the last commit |
| `node`, `model`, `tree`, `check` | B+tree nodes on pages, the map that a tree stands for, search, insertion, deletion and scans, and a check of whole trees |
| `wal` | checksummed log records, reading up to the first that cannot be read, recovery |
| `mvcc` | trees by number in a catalog, read and write transactions, commit, abort, restart, what a crash leaves |
| `graph` | nodes, edges, adjacency and label indexes in five trees, their records and keys |
| `cypher` | lexer, parser, and the execution of `MATCH`, `CREATE`, `MERGE`, `DELETE` |
| `float`, `bignum`, `numtext`, `text` | 64-bit floats by their bits, decimal text in both directions |
| `shell`, `workload` | what a line of input asks for, how results are shown, the benchmark workload |

The library computes on values: the pages of the data file and the bytes of the
log are handed in and out. `app/` is the program around it: it keeps the two in
files, runs the interactive shell, and with `--bench` the benchmarks.

## What is stated

Each function says what it returns and changes over mathematical values: a tree
is a map from byte strings to byte strings, a database a map from tree numbers
to such maps, a graph five of them, a query a function on graphs. What relates
several functions stands as public lemmas in `mvcc/laws.rs`, `mvcc/database.rs`,
`mvcc/crash.rs`, `graph/laws.rs`, `cypher/laws.rs`, `cypher/limits.rs` and beside
the page and record formats.

A commit puts every page that it changed, its meta page and a commit record at
the end of the log. The log has to reach storage before the pages, and the pages
before the meta page. A crash before the whole log is stored then leaves the
commit before; a crash after that, the new one. `keep_log` cuts off the end of a
log that a crash left behind, so that the next commit is protected too.

Believed without proof, each in a small function with its contract: CRC-32C
(`checksum.rs`), the primitives of the binary record format (`graph/codec.rs`),
the character classes and upper case of Unicode and the escapes of quoted text
(`cypher/chars.rs`), and `String::push` (`text.rs`).
