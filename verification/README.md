# adnot

A parser for Adnot, a small textual notation for data, written in Verus and
proved against a statement of what each input means.

Adnot has integers (with base prefixes `0x`, `0z`, `0d`, `0o`, `0b` and `_` as a
separator), bare and quoted strings, lists `[...]`, maps `{key value ...}`, tagged
sums `(tag ...)`, and `#` comments to the end of the line.

- `src/grammar.rs` states, as functions on sequences of characters, what parsing
  gives from each position: a value, an error message with its column, or that
  the input lies outside what the parser handles (a floating-point literal, or an
  integer beyond `i64`).
- `src/parser.rs` holds the parser and `Value::parse_str`, `parse_string`,
  `parse_iter` and `parse_str_checked`; each is proved to give exactly what the
  grammar says.
- `src/value.rs` holds `Value`, its mathematical model, its text in error
  messages, and the ordering of map
  keys: a map keeps its keys ascending, so a repeated key is an error and two maps
  with the same entries are equal.
- `src/error.rs` holds `AdnotError` and `Location`, and the text of an error.
- `src/chars.rs` holds the pieces of `char` and `String` behaviour taken from the
  standard library, each with the contract that the proofs rely on.
- `src/laws.rs` proves properties of the notation for every input.
- `app/main.rs` regenerates the expected results of example documents.
