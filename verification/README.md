# tabby

A pager for psql's aligned output, written in Verus.

Set `PSQL_PAGER` to the `tabby` binary, or pipe a table in:
`psql -c '...' | tabby`.

## Layout

- `src/` is the library. Every function in it is verified except the small
  wrappers that call an outside crate or std (in `scalars`, `width`,
  `chars` and `input`), whose contracts are taken on trust:
  - `chars`, `width`: characters, display widths (from `unicode-width`) and
    slicing text by display columns;
  - `scalars`: the calls into `rust_decimal`, `uuid`, `chrono`,
    `serde_json`, `colored_json` and `md5`, each behind a small trusted
    function;
  - `data`: one parsed cell, its kind and how it is written back;
  - `lines`, `input`: reading psql's table into a `Document`;
  - `readback`: the proof that psql's layout of a table reads back as
    that table;
  - `json`: JSON cells laid out compact or pretty, plain or coloured, and
    measured;
  - `app`: the pager's state — widths, row offsets, scrolling and keys;
  - `layout`: the screen as lines of styled segments.
- `app/` is the program around it: reading the input, the terminal, and
  painting the library's segments with `ratatui`.
- `tests/` runs the library on concrete tables.
