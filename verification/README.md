# zipbit11

Inspect and edit bit 11 (the UTF-8 flag) of the General Purpose Bit Flag of
the entries of a ZIP archive, as a Verus-verified library with a thin
command-line front end.

- `src/bytes.rs`: little-endian field reads and writes, with their models.
- `src/text.rs`, `src/tokens.rs`: decimal and hexadecimal rendering; white
  space, trimming, splitting and number parsing for the entry selector.
- `src/signatures.rs`: record signatures and the bit 11 mask.
- `src/eocd.rs`: finding the End of Central Directory record and reading the
  Central Directory location, through the ZIP64 records when needed.
- `src/local_header.rs`: finding an entry's Local File Header, through the
  ZIP64 extra field when needed.
- `src/selection.rs`: the entry selector (`1,3,5-8`).
- `src/status.rs`: aggregate bit 11 state and its labels.
- `src/archive.rs`: the walk over the Central Directory for `status`,
  `detail`, `set`, `clear` and `toggle`, as a function from archive bytes to
  new bytes and report lines, with its model `process_result`.
- `src/edit_laws.rs`: what an edit does to the bytes, and what a second
  run of the same edit does.
- `src/placement.rs`: where targeted flag fields can lie, as the record
  signatures before them show.
- `src/cli.rs`: the command line.
- `app/main.rs`: reading and writing the file and printing.
