# devondb_storage

The storage layer of a graph database: pages and their free list, superblocks,
column encodings, node and relationship tables, the log's transactions, the
overlay of commits that are not stored yet, distribution containers, and an
account of where a file's bytes are.

`src/` is the library. Every function there has a contract that Verus proves;
the few calls into other crates stand in small wrappers whose contracts say
what is taken on trust. It works on bytes and values in memory: the pager, for
example, keeps the pages of a file and a list of the actions that make the file
equal to them.

- `pager`, `free_pages`, `superblock`, `budget`: the main file.
- `encodings`: the values sections of columns.
- `groups`, `catalog`, `node_table`, `rel_table`: tables over stored groups.
- `txn_log`, `json`: the log's records and transactions.
- `overlay`: commits in memory, what they hide and add, cached indexes, and
  charging that gives caches up before it refuses.
- `vector_encoding`: quantized vectors.
- `pack`: containers of compressed pages.
- `stats`: the account of a file's pages.

Floating-point numbers are held as their bits. What needs arithmetic on them,
the JSON of log records and all work on files stand in `app/`.

`tests/` runs the library on concrete values.
