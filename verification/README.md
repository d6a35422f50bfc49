# sysctl_conf

A library that loads files written in the grammar of Linux's
`sysctl.conf(5)` into nested tables, and checks loaded files against a
schema of `key -> type` lines. Every function of the library carries a
contract stated over mathematical models (`Seq`, `Option`, `Result`) and
is proved against it; tables and configurations carry their shape as a
type invariant, and the laws that relate the functions are proved too.
Two things are trusted rather than proved: serde_json's `to_string` on a `str`, whose JSON string
literal (the escaping stated in `json_escape`) the JSON writers use, and
std's `String::push`.

Layout:

- `src/text.rs`: trimming, line splitting, separator search, decimal numbers.
- `src/value.rs`: `Value` and `Table`, with the model `ValueView`.
- `src/json.rs`: compact and pretty JSON for tables (string literals by serde_json).
- `src/config.rs`: `SysctlConfig`: dotted keys, insertion, flattening, and
  the laws of insertion and flattening.
- `src/parser.rs`: the line grammar and `Parser`, and the laws of loading.
- `src/schema.rs`: `Schema`, `ValueType` and `ValidationError`, and the law
  of validation.
- `app/main.rs`: the command-line program that reads the files, validates,
  and prints JSON.
- `tests/`: scenarios on concrete values.

The program in `app/` reads `config/schema.conf` and
`config/example1.conf` from the working directory.
