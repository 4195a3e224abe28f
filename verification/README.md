# asyncjsonstream

A JSON stream reader for selective parsing of large payloads: keys, values and
tokens are handed out one at a time, without holding the whole document. The
reader is a state machine written in Verus, and what it does is proved.

## Layout

- `src/` is the library.
  - `grammar.rs` says what a token is; `lexer.rs` reads one, event by event, so
    that it may be spread over any number of reads; `place.rs` holds the
    one-event steps that proofs go by.
  - `model.rs` says what each operation of the reader replies and leaves behind;
    `reader.rs` performs it; `token.rs` and `error.rs` hold what it hands out.
  - The laws, which state and prove what holds of all inputs: `token_laws.rs`,
    `string_laws.rs` and `number_laws.rs` on what a token is read as;
    `chunk_laws.rs`, `read_laws.rs`, `operation_laws.rs` and `session_laws.rs` on
    how a stream is cut into reads, which makes no difference; `reader_laws.rs` on
    the operations one by one; `value_laws.rs` on well-formed values, which
    `value.rs` describes: that they are skipped, walked, searched and read whole;
    `document_laws.rs` on their text.
  - `buffer.rs`, `object.rs` and `text.rs` hold the calls into `bytes`,
    `serde_json` and the standard library, with what is relied on of each.
- `app/` puts the reader on Tokio's `AsyncRead`.
- `tests/` runs the library.

## Use

The reader performs no input. An operation returns `Progress::NeedData` when it
needs more of the stream; hand the next chunk to `fill_buffer` (an empty chunk
reports the end of the stream) and call the operation again:

```rust
let mut reader = AsyncJsonStreamReader::new();
let key = loop {
    match reader.next_object_entry() {
        Progress::Ready(result) => break result?,
        Progress::NeedData => {
            reader.fill_buffer(source.next_chunk())?;
        }
    }
};
```

An operation that waits is resumed or given up with `cancel`; `read_failed` takes
in that a read of the stream failed.
