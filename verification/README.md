# scan_json

Zero-allocation containers of byte slices, a streaming JSON tokenizer over a fixed
buffer, an event-driven JSON scanner built on it, and a DynamoDB JSON converter, all
specified and proved with Verus.

## Layout

- `src/u8pool.rs`, `src/slice_descriptor.rs`, `src/pool_iter.rs`, `src/pool_error.rs`,
  `src/assoc.rs`: `U8Pool`, a stack of byte slices (optionally preceded by a fixed-size
  value) stored in a caller's buffer, with 16-bit descriptors.
- `src/bufvec.rs`, `src/bufvec_iter.rs`, `src/bufvec_error.rs`: `BufVec`, a vector of
  byte slices stored in a caller's buffer, with 64-bit descriptors; stack and
  key/value interfaces.
- `src/io.rs`: the reader and writer models the streaming parts work with.
- `src/buffer.rs`: the refillable window over a reader.
- `src/tokenizer.rs`: the calls into the `jiter` tokenizer, each on the current window.
- `src/rjiter.rs`, `src/rjiter_error.rs`: `RJiter`, which retries tokenizer calls on
  more input until they succeed, and passes long strings through piece by piece.
- `src/matcher.rs`, `src/stack.rs`, `src/scan.rs`, `src/scan_error.rs`: `scan`, which
  walks a JSON stream and calls user actions on keys, atoms, arrays and objects.
- `src/idtransform.rs`: a scan that copies JSON without insignificant whitespace.
- `src/ddb.rs`: conversion between plain JSON values and DynamoDB attribute values,
  with the round-trip laws.
- `app/main.rs`: the `ddb_convert` command line (files, JSONL, `serde_json` parsing).
