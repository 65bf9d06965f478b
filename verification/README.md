# karukan_im input buffer

The composed-input buffer of a Japanese input method, verified with Verus.

- `src/model.rs`: the mathematical model (a unit is a `(raw, kana)` pair of
  character sequences) and the lemmas about splitting, inserting and removing.
- `src/input_buffer.rs`: the executable `InputBuffer`, proved against the model.
- `src/laws.rs`: properties that span several operations.
- `tests/`: runtime tests of the buffer.
