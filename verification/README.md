# mindb

A small SQL database engine whose logic is verified with Verus.

- `src/` is the verified library: the tokenizer and parser of a tiny SQL
  dialect, statement evaluation and result formatting (`execution`), the row
  and schema record layouts, an in-memory B-tree of keys (`btree`), and the
  storage layer (`storage`): a key-value B-tree, CRC-32 page checksums, the
  pager's state, the page layout of tables, an LRU page cache and the
  decisions behind file locking.
- `app/` is the shell around it: reading statements, the files behind each
  table, and the operating-system file locks.
- `tests/` runs the library on concrete inputs.
