# gptman

A library that allows managing GUID partition tables, written and verified in Verus.

- `src/` is the library. It works on disks in memory, and, for disks that are not, says which
  bytes it wants to read (`GPTReader`) and which it wants to write (`GPT::plan_write`).
- `app/` does the reading and writing on anything that implements `Read`, `Write` and `Seek`,
  displays the errors and serializes the structures with `serde`.
- `tests/` runs the library.

The names that start with `law_` are the promises that relate several functions: what is read
where a table was written (`src/storage.rs`), what the search for free space finds
(`src/layout.rs`), what sorting and the alignment are (`src/table.rs`), and that every structure
is decoded from the bytes that it was encoded to (`src/header.rs`, `src/partition.rs`,
`src/utf16.rs`).
