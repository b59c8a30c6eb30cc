//! Verified building blocks of a JavaScript engine's standard library:
//! UTF-16 string methods (with regular-expression replacement and Unicode
//! normalization), ArrayBuffers, DataViews and TypedArrays down to their
//! element bytes and Number conversions, Atomics, the Set and weak
//! collections, the symbol registry, the `std.tmpfile()` file store, the
//! mock `Intl` of the conformance tests, and the REPL's input scanner.
pub mod array_buffer;
pub mod atomics;
pub mod atomics_int;
pub mod bigint;
pub mod byte_codec;
pub mod dataview;
pub mod error;
pub mod file_store;
pub mod half;
pub mod normalize;
pub mod number_compare;
pub mod number_bits;
pub mod reflect_proto;
pub mod regex;
pub mod repl;
pub mod set_data;
pub mod single;
pub mod string_build;
pub mod string_dispatch;
pub mod string_methods;
pub mod string_replace;
pub mod string_trim;
pub mod symbol;
pub mod testintl;
pub mod typed_array;
pub mod typed_array_copy;
pub mod typed_array_ctor;
pub mod typed_array_elements;
pub mod typed_array_float_search;
pub mod typed_array_float_sort;
pub mod typed_array_iter;
pub mod typed_array_join;
pub mod typed_array_methods;
pub mod typed_array_move;
pub mod typed_array_ops;
pub mod typed_array_search;
pub mod typed_array_set;
pub mod typed_array_sort;
pub mod typed_array_static;
pub mod utf16;
pub mod weak;
