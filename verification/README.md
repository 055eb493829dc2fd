# cson

CSON — Crush Semantic Object Notation: a JSON-shaped configuration format
with semantic keys (`~"intent": …`), confidences (`value ~0.8`), annotations
(`@name(args) { k: "v" }`) and synthesized values (`@synthesize("…")`).

This crate is the parser, the printer and the JSON projection of the format,
written in Verus and proved against their contracts.

- `src/grammar.rs` states, as functions of the input text, what the parser
  reads; `src/parser.rs` is the parser, proved to return exactly that (the
  document, or the positional error message).
- `src/print.rs` states the text the printer writes and proves the printer
  writes it.
- `src/roundtrip.rs` proves that reading printed text gives the document
  back, for every document that `printable_doc` admits: annotation names,
  arguments and property keys that the reader can take back, number literals
  that read as doubles, confidences within `[0, 1]`, `@synthesize` texts that
  quoting leaves as they are. It also proves
  that reading a quoted string the printer wrote gives the string back, and
  that a key judged safe to write bare reads back as itself, and that a
  section `[sec]` followed by pairs reads as the nested object `sec: { … }`
  that the printer writes for the same pairs.
- `src/laws.rs` proves what every parsed document satisfies (no repeated key,
  numbers that read as doubles, confidences within `[0, 1]`, annotations the
  printer writes back faithfully), that printing a parsed document and
  reading the text again gives the document back (`law_parse_print_parse`;
  the one exception is a `@synthesize` text holding a character that quoting
  escapes, which the reader does not unescape), and how objects behave under
  insertion.
- `src/project.rs` is the JSON projection; `app/` turns it into
  `serde_json` values (numbers become doubles there) and reads files.

Numbers and confidences are kept as the literal text that was read; the
library decides which literals read as a double (the grammar of
`str::parse::<f64>`) and which confidences lie in `[0, 1]` by exact decimal
arithmetic.
