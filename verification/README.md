# pln

PopLine: a line-based text format for objects, arrays and leaf values, with a
reader (`from_str`) and a writer (`to_string`) verified with Verus.

- `src/syntax.rs` states what reading means: a state machine over the lines
  of a text, with the error each bad line gives.
- `src/parser.rs` is the reader; `from_str` returns exactly what `syntax::parse`
  gives. Lines are found with `memchr`.
- `src/serializer.rs` is the writer; `to_string` returns exactly
  `serializer::serialize` of the value.
- `src/roundtrip.rs` proves that reading back a written document gives it again
  (`lemma_roundtrip`), for every value that `round_trips`.
- `src/text.rs` holds character, digit and UTF-8 helpers.
- `app/lib.rs` gives floats their `f64` value: the library keeps a float as its
  decimal text, and converting text and `f64` is left to ordinary Rust.
