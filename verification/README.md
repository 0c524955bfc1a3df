# protowire

A verified library for the protowire formats:

- `pb` — the protobuf binary wire format: varints, zigzag, fixed-width
  values, tags and length-delimited fields (`wire`, `varint`), and
  schema-driven marshal/unmarshal of messages through the `Message` trait
  (`codec`), with nesting-depth and buffer-bound checks.
- `envelope` — the API response envelope (`Envelope`, `AppError`,
  `FieldError`) and its wire codec, with round-trip laws.
- `pxf` — PXF, a human-writable text format for protobuf messages: lexer,
  parser to a document tree, formatter, streaming `@table`/`@dataset`
  readers, big-number and big-float literals, well-known-type helpers
  (timestamps, durations), map keys, `(pxf.key)` canonicalisation, schema
  annotation checks, and decoding a document against a schema (`decode`,
  `bind`): scalars, enums, lists, maps of scalars, nested and repeated
  messages, oneofs, unknown fields, field presence (`null` marks),
  `required` and `default` annotations, and binding `@table` rows
  (`bind_row`, `scan_one`). Well-known types, `Any` and the PXF encoder
  are not part of the library.
- `cli` — the command-line front end's argument handling and dispatch.

Every function in `src/` carries a contract that the verifier proves. The
contracts are stated over mathematical models (sequences, integers, spec
functions), and the properties that span several functions (round trips,
what every operation keeps) are stated and proved as lemmas.

`app/` holds the program around the library: reading files and standard
input, printing, and the process exit code. `tests/` exercises the library
on concrete values.
