# lib

Values of a small Lisp-like language, verified with Verus.

- `src/lib.rs`: `Value` (floats held as IEEE-754 bit patterns), its equality
  and clone, and `FlError`.
- `src/list/`: `FlList`, an immutable list stored in shared buckets that grow
  towards the middle (`construct.rs`), with length, indexed access and
  iteration (`access.rs`).
- `src/parser/`: the scanner (`scanner.rs`, `literal.rs`), its tokens
  (`token.rs`) and the parser (`parser.rs`), each specified over
  mathematical sequences of characters and tokens.
- `src/float.rs`: IEEE-754 equality on bit patterns and rounding of decimal
  fractions to the nearest binary64 number; `src/decimal.rs`: decimal
  notation of integers.
- `app/lib.rs`: what Verus cannot hold: `Display`/`Error` for errors,
  `Iterator` adapters, and `f64` conversions.
- `tests/`: tests run against the compiled library.
