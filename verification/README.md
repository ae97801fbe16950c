# xaddr

Spreadsheet-style addressing for tabular data — `A:C`, `[first]:[last]`, `C5`, `3:$`,
`D,B,B` — parsed without a table and resolved against any table that implements `Grid`,
with every function verified by Verus against a statement of what it returns.

Layout:

- `src/grammar.rs` — the address grammar as spec functions over the characters of the
  input, with every span reported in bytes; `src/parse.rs` — the parser proved against it.
- `src/placement.rs` — resolution (columns, cells, one rectangle; `Clamp` or `Strict`) as
  spec functions of what a table reports; `src/resolve.rs` — `Grid` and the resolvers.
- `src/letters.rs` — column letters both ways, cell and range text, quoted names.
- `src/error.rs` — `Error`, `Kind`, `snippet`; `src/text.rs` — characters, UTF-8 offsets,
  and string building.
- `src/laws.rs`, `src/parse_laws.rs` — laws across functions: `Strict` and `Clamp` agree
  where `Strict` succeeds, nothing outside the table is selected, reversed ranges, lists
  concatenate, rows are refused where only columns belong, error spans are valid slices of
  the input, a parse has one item per top-level comma plus one, quoted names and rendered
  cells and rectangles read back.
- `src/prefix_laws.rs`, `src/case_laws.rs`, `src/list_laws.rs`, `src/range_laws.rs` — laws on
  texts: `parse_prefix` measures exactly what `parse` reads back, addresses without names
  are case-insensitive, `a,b` is the list `a` then the list `b`, and `y:x` is `x:y` turned
  round.
- `app/` — `Display` and `std::error::Error` for a copy of the error type.
