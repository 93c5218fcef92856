# serde_cqcode

Reading and writing CQ codes, the message format in which chat bots mix plain text
with codes such as `[CQ:face,id=1]` or `[CQ:image,file=example.jpg]`.

- `src/` is the verified library (Verus). `de/` reads a message into its parts
  (`from_str`), `ser/` writes parts back (`to_string`), `data/` holds the `CQCode`
  type and the escapes (`&amp;`, `&#91;`, `&#93;`, `&#44;`). `de/grammar.rs` and
  `ser/format.rs` state the format as spec functions; every reading and writing
  function is proved against them. `laws.rs` proves what holds across functions,
  above all that a written message reads back as the same codes.
- `app/` puts serde on top: `from_str` and `to_string` for any `Deserialize` or
  `Serialize` type, driving the verified reader and writer.
- `tests/` runs the library on concrete messages.
