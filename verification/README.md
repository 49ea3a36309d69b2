# tiny_text_data_base

A table-and-column database kept in memory. Its state is a series of
transactions, each a list of statements; on start the transactions are
sorted by epoch and applied in order to rebuild the tables.

- `src/` is the verified library: values (`value.rs`), tables
  (`table.rs`), transactions and their ordering (`transaction.rs`), the
  rebuilding of tables from transactions (`storage.rs`) and the database
  that users work with (`database.rs`). Each public function carries a
  contract over a mathematical model of the tables (`TableView`, a map
  from table names to them), and the laws of the library are proof
  functions beside the code they speak of.
- `app/` holds the file-system side: opening the database directory,
  reading and decoding the transaction files with `serde_json`.
- `tests/` exercises the library on concrete values.
