# my_dev_tools

Tools for tables in CSV files: differences by key, the rows that differ, changes between rows,
values that stand out, a file for each label, plots on the terminal and as images, spectra,
schedules of tasks, and samples of how busy a machine is.

- `src/` is the library. Its functions are verified with Verus: their contracts are stated over
  the sequences of characters, rows and numbers that they read and return. The files that end in
  `_laws.rs` state what holds of several functions together.
- `app/` is the program around it: arguments, files, the terminal, images, and all arithmetic
  with floating-point numbers. The library knows such a number by its place in the order of all
  of them.
- `tests/` runs the library on examples.

Tables may be compressed with zstd, alone or in a tar archive that holds one of them. Calls into
the crates for these formats, for CSV text and for points in time stand in small functions whose
contracts are taken on trust: `csv_archive.rs`, `csv_text.rs` and `timestamps.rs` hold them, and
`text.rs`, `literals.rs` and `cli.rs` those for the standard library.
