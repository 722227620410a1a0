# protocache

A library for the ProtoCache binary format, written in Verus: every
function under `src/` carries a `requires` / `ensures` contract that Verus
proves, and the verified functions do not panic.

## Layout

- `src/buffer.rs`: the buffer that grows towards its front.
- `src/access.rs`, `src/words.rs`, `src/utils.rs`: zero-copy readers over
  word slices (messages, arrays, maps, strings, scalars);
  `src/field_offsets.rs` reads a message's first fields' places from its
  header word.
- `src/serialize.rs`: encoders for scalars, strings, arrays, maps and
  messages; `src/roundtrip.rs` and `src/byte_strings.rs` prove that what
  they write reads back.
- `src/hash.rs`, `src/perfect_hash.rs`: the 128-bit key hash and the
  perfect-hash index that map keys are placed by.
- `src/compression.rs`: the run-length compressor and its inverse.
- `src/mutable.rs`: mutable messages, arrays and maps over source words.
- `src/reflection.rs`, `src/naming.rs`: descriptor pools and field naming.
- `src/codegen*.rs`, `src/plugin*.rs`: the Rust source generators of the
  `protoc` plugin; `src/response.rs` frames the plugin's answer.
- `app/`: the `protoc` plugin program itself (reading the request, running
  `protoc`, writing files), which Verus does not see.
- `tests/`: tests that run the library on concrete values.

## Trusted code

The few calls into std and `prost` that Verus cannot read stand behind
functions marked `#[verifier::external_body]`; the doc comment of each says
what its contract claims of the call.
