# jsbuiltins

Built-in objects of a JavaScript engine, written in Verus and verified:
each function states in its contract what it returns or changes, and
Verus proves the code against it.

## Layout

- `src/` — the verified library.
  - Strings: `utf16`, `string_methods`, `string_trim`, `string_replace`,
    `string_build`, `string_dispatch` (one entry point for the
    `String.prototype` methods), `normalize` (through `unicode-normalization`),
    `regex` (pattern preparation, compilation and replacement through
    `regress`).
  - Binary data: `byte_codec` (integers to and from bytes), `array_buffer`,
    `dataview`, `typed_array` and the `typed_array_*` modules (constructor,
    element reads and stores, methods, search and sort for integer, BigInt
    and float kinds, what a round trip through a Number does to an element
    (`typed_array_move`), `join`, the copying methods
    `slice`/`toReversed`/`toSorted`/`with`, `set`, iterator,
    `from`/`of`), `half` (binary16 conversions), `single` (binary64 to binary32
    rounding), `number_compare` (widening of float elements and `===` /
    SameValueZero on bit patterns), `number_bits` (ToInt32,
    clamping and saturating conversions on binary64 bit patterns),
    `bigint` (ToBigInt64, with `num-bigint`), `atomics` and `atomics_int`.
  - Collections: `set_data` (insertion-ordered Set with the set algebra
    methods), `weak` (WeakMap, WeakSet, WeakRef), `symbol` (the symbol table
    and the `Symbol.for` registry).
  - Objects: `reflect_proto` (`Reflect.getPrototypeOf`, `setPrototypeOf`,
    `has`, `isExtensible` and `preventExtensions` over a model of the
    objects' prototype links, with the proof that no object becomes its own
    ancestor).
  - Host support: `file_store` (the open temporary files and the decisions of
    their methods), `testintl` (the mock `Intl` constructor),
    `repl` (whether a REPL submission is complete, and how a string result
    is shown, through `serde_json`).
- `tests/` — tests on concrete values, including the laws the proofs state.
- `app/` — host glue: conversions of floating-point Numbers into the
  library's arguments, file I/O for the temporary files, and the blocking of
  `Atomics.wait`.

Floating-point values never enter the library: where a Number matters, the
library takes its IEEE 754 bit pattern.
