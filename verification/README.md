# lib: a verified JSON value, parser and serializer

A JSON value is null, a boolean, a number (a binary64 double, kept as its
bit pattern), a byte string, an array, or an object whose keys are kept in
increasing byte order. The library parses JSON text (optionally with `//`
and `/* */` comments, nested at most 200 levels deep), serializes values,
compares them, and checks that an object has fields of given types.

Everything under `src/` is verified with Verus. Each step of the parser is
specified by a function on the input bytes (`src/grammar.rs`), the output of
the serializer by a function on the value's model (`src/dump.rs`), and the
library proves, among other things, that parsing what was serialized gives
the value back (`src/roundtrip.rs`; for values nested at most 200 levels,
with finite numbers whose text, as the caller's formatter writes it, the
caller's decoder reads back to the same number), that the parser never
accepts deeper nesting than its limit (`src/depth.rs`), that equality and order behave
as an equivalence and a total order on values without NaNs (`src/laws.rs`),
that a document read without comments reads the same with them
allowed (`src/comments.rs`), and that whitespace around a document changes
neither whether nor to what it parses (`src/whitespace.rs`,
`src/trailing.rs`). Reading several documents in a row agrees with reading
one (`src/multi.rs`).

Conversions between number texts and doubles are supplied by the caller as
functions; `app/` provides them with Rust's float parsing and `%.17g`-style
formatting and offers `f64`-based entry points.

Layout:

- `src/value.rs`: the value type, its model, the sorted object map
- `src/grammar.rs`, `src/parser.rs`: the parser's specification and code
- `src/dump.rs`: serialization
- `src/access.rs`, `src/sets.rs`, `src/shape.rs`: construction (also from
  sets of numbers and slices of convertible values), accessors, shape checks
- `src/compare.rs`: equality and order
- `src/number.rs`, `src/text.rs`, `src/bytes.rs`: numbers, text and bytes
- `src/laws.rs`, `src/roundtrip.rs`, `src/depth.rs`, `src/comments.rs`,
  `src/whitespace.rs`, `src/trailing.rs`, `src/multi.rs`: properties of the
  whole
- `tests/`: tests run against the compiled library
- `app/`: the floating-point side
