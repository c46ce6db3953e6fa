# sx_protocol

A schema-aware state exchange format with a text form and a compact binary
container, written in Verus: every function in `src/` carries a contract that
the verifier proves.

## Layout

- `src/value.rs`, `src/path.rs`: the value model and its view (`V`), paths.
- `src/lexer.rs`, `src/parser.rs`, `src/formatter.rs`: the text form.
- `src/binary.rs`, `src/decode.rs`, `src/codec.rs`, `src/container.rs`,
  `src/metadata.rs`: the binary value encoding and the container around it.
- `src/columnar_enc.rs`, `src/columnar.rs`: event batches and tables stored
  column by column; `src/fastpath.rs` reads one field or column from them.
- `src/delta.rs`: diffs and their application; `src/schema.rs`,
  `src/schema_text.rs`, `src/compat.rs`: schemas.
- `src/hashing.rs`, `src/schema_digest.rs`, `src/debug_text.rs`: canonical
  texts and their SHA-256 digests.
- `src/json.rs`, `src/json_read.rs`: the JSON mapping; `src/stream.rs`:
  framed streams and chunk reassembly; `src/runtime.rs`: lazy views.
- Laws: `container_law.rs` (binary round trip, hot-field reads, truncated
  containers), `columnar_law.rs`, `fastpath_law.rs`, `roundtrip.rs`,
  `stream.rs`, `delta.rs`, `diff_law.rs` (applying a diff rebuilds its
  target), `path.rs`, `varint.rs`.
- `app/`: the command-line program; the float parsing and printing the
  library leaves to its caller.
- `tests/`: tests run against the compiled library.

Floats are held as bit patterns; where a text shows a float, the caller
hands in its printed form (`FloatText`, `FloatReading`).
