use jsbuiltins::atomics::{
    atomics_notify_plan, atomics_wait_outcome, atomics_wait_validate, take_waiters, CountArg,
    NotifyPlan, WaitOutcome, WaitTimeout,
};
use jsbuiltins::atomics_int::{
    atomics_int_compare_exchange, atomics_int_read_modify_write, atomics_load, atomics_store,
};
use jsbuiltins::bigint::{bigint_arg, string_to_bigint_i64, to_bigint_i64, BigIntArg};
use jsbuiltins::error::ErrorKind;
use jsbuiltins::typed_array::{
    element_size_for_kind, is_bigint_typed_array, is_valid_atomic_type, kind_from_number,
    typedarray_kind_to_number, JSArrayBuffer, JSTypedArray, TypedArrayKind,
};
use jsbuiltins::typed_array_copy::{
    typedarray_slice, typedarray_to_reversed, typedarray_to_sorted, typedarray_with, ElementValue,
};
use jsbuiltins::typed_array_ctor::{handle_typedarray_constructor, source_length, TypedArrayInit};
use jsbuiltins::typed_array_float_sort::typedarray_sort_float;
use jsbuiltins::typed_array_float_search::{
    typedarray_float_includes, typedarray_float_index_of, typedarray_float_last_index_of,
};
use jsbuiltins::typed_array_iter::{
    ensure_typedarray_in_bounds, handle_typedarray_iterator_next, raw_i64_to_bigint, RawBigInt,
};
use jsbuiltins::typed_array_methods::{handle_typedarray_method, TypedArrayMethod, TypedArrayMethodResult};
use jsbuiltins::typed_array_ops::{
    atomic_bigint_update, atomics_bigint_compare_exchange, atomics_bigint_read_modify_write,
    handle_typedarray_accessor, kind_to_constructor_name, to_index, validate_atomic_access,
    validate_integer_typed_array, AccessorValue, AtomicOp, IndexArg, TypedArrayAccessor,
};
use jsbuiltins::typed_array_set::{typedarray_set_typed_array, typedarray_set_values};
use jsbuiltins::typed_array_sort::typedarray_sort_bigint;
use jsbuiltins::typed_array_static::{
    handle_typedarray_static_method, store_bigint_elements, store_number_elements, FromSource, MapFnArg, StaticPlan,
    TypedArrayStaticMethod,
};
use jsbuiltins::typed_array_join::{decimal_of, typedarray_join};
use jsbuiltins::typed_array_search::{
    typedarray_includes, typedarray_index_of, typedarray_last_index_of, typedarray_sort,
};
use num_bigint::BigInt;

fn buffer(bytes: Vec<u8>) -> JSArrayBuffer {
    JSArrayBuffer { data: bytes, max_byte_length: None, shared: false, detached: false }
}

fn array(kind: TypedArrayKind, byte_offset: usize, length: usize) -> JSTypedArray {
    JSTypedArray { kind, byte_offset, length, length_tracking: false }
}

fn this_result(r: Result<TypedArrayMethodResult, ErrorKind>) {
    match r {
        Ok(TypedArrayMethodResult::This) => {}
        _ => panic!("expected the array itself"),
    }
}

#[test]
fn kinds_and_their_numbers() {
    for n in 0..12 {
        let k = kind_from_number(n).unwrap();
        assert_eq!(typedarray_kind_to_number(&k), n);
    }
    assert_eq!(kind_from_number(12), None);
    assert_eq!(element_size_for_kind(&TypedArrayKind::Float64), 8);
    assert_eq!(element_size_for_kind(&TypedArrayKind::Uint8Clamped), 1);
    assert!(is_bigint_typed_array(&TypedArrayKind::BigUint64));
    assert!(!is_bigint_typed_array(&TypedArrayKind::Int32));
    assert!(is_valid_atomic_type(&TypedArrayKind::Int16));
    assert!(!is_valid_atomic_type(&TypedArrayKind::Float32));
    assert!(!is_valid_atomic_type(&TypedArrayKind::Uint8Clamped));
    assert_eq!(kind_to_constructor_name(&TypedArrayKind::BigInt64), "BigInt64Array");
    assert_eq!(kind_to_constructor_name(&TypedArrayKind::Uint8Clamped), "Uint8ClampedArray");
}

#[test]
fn to_index_limits() {
    assert_eq!(to_index(IndexArg::Undefined), Ok(0));
    assert_eq!(to_index(IndexArg::Integral(7)), Ok(7));
    assert_eq!(to_index(IndexArg::Integral(-1)), Err(ErrorKind::RangeError));
    assert_eq!(to_index(IndexArg::Integral(9007199254740992)), Err(ErrorKind::RangeError));
    assert_eq!(to_index(IndexArg::BigInt), Err(ErrorKind::TypeError));
}

#[test]
fn constructor_from_length_and_buffer() {
    let l = handle_typedarray_constructor(true, Some(5), TypedArrayInit::Length(IndexArg::Integral(3))).unwrap();
    assert!(l.fresh_buffer);
    assert_eq!((l.array.kind, l.array.byte_offset, l.array.length), (TypedArrayKind::Int32, 0, 3));
    let e = handle_typedarray_constructor(true, Some(1), TypedArrayInit::Empty).unwrap();
    assert_eq!(e.array.length, 0);
    let from_buf = handle_typedarray_constructor(
        true,
        Some(3),
        TypedArrayInit::FromBuffer {
            buffer_len: 10,
            detached: false,
            resizable: false,
            offset: IndexArg::Integral(2),
            length: None,
        },
    )
    .unwrap();
    assert!(!from_buf.fresh_buffer);
    assert_eq!((from_buf.array.byte_offset, from_buf.array.length), (2, 4));
}

#[test]
fn constructor_errors() {
    assert!(matches!(handle_typedarray_constructor(false, Some(1), TypedArrayInit::Empty), Err(ErrorKind::TypeError)));
    assert!(matches!(handle_typedarray_constructor(true, None, TypedArrayInit::Empty), Err(ErrorKind::TypeError)));
    let misaligned = TypedArrayInit::FromBuffer {
        buffer_len: 8,
        detached: false,
        resizable: false,
        offset: IndexArg::Integral(1),
        length: None,
    };
    assert!(matches!(handle_typedarray_constructor(true, Some(3), misaligned), Err(ErrorKind::RangeError)));
    let odd_len = TypedArrayInit::FromBuffer {
        buffer_len: 7,
        detached: false,
        resizable: false,
        offset: IndexArg::Integral(0),
        length: None,
    };
    assert!(matches!(handle_typedarray_constructor(true, Some(3), odd_len), Err(ErrorKind::RangeError)));
    let detached = TypedArrayInit::FromBuffer {
        buffer_len: 0,
        detached: true,
        resizable: false,
        offset: IndexArg::Integral(0),
        length: None,
    };
    assert!(matches!(handle_typedarray_constructor(true, Some(1), detached), Err(ErrorKind::TypeError)));
    let mixed = TypedArrayInit::FromTypedArray { source: array(TypedArrayKind::Int8, 0, 2), source_buffer_len: 2 };
    assert!(matches!(handle_typedarray_constructor(true, Some(10), mixed), Err(ErrorKind::TypeError)));
    assert!(matches!(
        handle_typedarray_constructor(true, Some(0), TypedArrayInit::Length(IndexArg::Integral(-3))),
        Err(ErrorKind::RangeError)
    ));
}

#[test]
fn source_length_of_tracking_and_fixed_arrays() {
    let tracking = JSTypedArray { kind: TypedArrayKind::Int16, byte_offset: 2, length: 0, length_tracking: true };
    assert_eq!(source_length(&tracking, 9), Some(3));
    assert_eq!(source_length(&tracking, 1), None);
    assert_eq!(source_length(&array(TypedArrayKind::Int32, 0, 2), 8), Some(2));
    assert_eq!(source_length(&array(TypedArrayKind::Int32, 0, 3), 8), None);
}

#[test]
fn fill_at_reverse_copy_within() {
    let ta = array(TypedArrayKind::Uint16, 0, 4);
    let mut b = buffer(vec![1, 0, 2, 0, 3, 0, 4, 0]);
    let fill = TypedArrayMethod::Fill { value: Ok(9), start: Some(IndexArg::Integral(1)), end: Some(IndexArg::Integral(-1)) };
    this_result(handle_typedarray_method(Some((&ta, &mut b)), fill));
    assert_eq!(b.data, vec![1, 0, 9, 0, 9, 0, 4, 0]);
    match handle_typedarray_method(Some((&ta, &mut b)), TypedArrayMethod::At(IndexArg::Integral(-1))) {
        Ok(TypedArrayMethodResult::Element(e)) => assert_eq!(e, Some(4)),
        _ => panic!("expected an element"),
    }
    match handle_typedarray_method(Some((&ta, &mut b)), TypedArrayMethod::At(IndexArg::Integral(4))) {
        Ok(TypedArrayMethodResult::Element(e)) => assert_eq!(e, None),
        _ => panic!("expected undefined"),
    }
    this_result(handle_typedarray_method(Some((&ta, &mut b)), TypedArrayMethod::Reverse));
    assert_eq!(b.data, vec![4, 0, 9, 0, 9, 0, 1, 0]);
    let cw = TypedArrayMethod::CopyWithin {
        target: Some(IndexArg::Integral(0)),
        start: Some(IndexArg::Integral(2)),
        end: None,
    };
    this_result(handle_typedarray_method(Some((&ta, &mut b)), cw));
    assert_eq!(b.data, vec![9, 0, 1, 0, 9, 0, 1, 0]);
}

#[test]
fn subarray_shares_the_buffer() {
    let ta = array(TypedArrayKind::Int32, 4, 3);
    let mut b = buffer(vec![0; 16]);
    match handle_typedarray_method(
        Some((&ta, &mut b)),
        TypedArrayMethod::Subarray { begin: Some(IndexArg::Integral(1)), end: None },
    ) {
        Ok(TypedArrayMethodResult::Subarray { view, length_given }) => {
            assert_eq!((view.byte_offset, view.length), (8, 2));
            assert!(length_given);
        }
        _ => panic!("expected a subarray"),
    }
}

#[test]
fn methods_on_bad_receivers() {
    let ta = array(TypedArrayKind::Int8, 0, 4);
    let mut small = buffer(vec![0; 2]);
    assert!(matches!(handle_typedarray_method(Some((&ta, &mut small)), TypedArrayMethod::Reverse), Err(ErrorKind::TypeError)));
    assert!(matches!(handle_typedarray_method(None, TypedArrayMethod::Reverse), Err(ErrorKind::TypeError)));
    let mut b = buffer(vec![0; 4]);
    let bad = TypedArrayMethod::Fill { value: Ok(1), start: Some(IndexArg::Symbol), end: None };
    assert!(matches!(handle_typedarray_method(Some((&ta, &mut b)), bad), Err(ErrorKind::TypeError)));
    let conv = TypedArrayMethod::Fill { value: Err(ErrorKind::SyntaxError), start: None, end: None };
    assert!(matches!(handle_typedarray_method(Some((&ta, &mut b)), conv), Err(ErrorKind::SyntaxError)));
    assert_eq!(b.data, vec![0; 4]);
}

#[test]
fn accessors_report_lengths() {
    let ta = array(TypedArrayKind::Int16, 2, 3);
    let b = buffer(vec![0; 8]);
    assert_eq!(handle_typedarray_accessor(Some((&ta, &b)), TypedArrayAccessor::Length), Ok(AccessorValue::Number(3)));
    assert_eq!(handle_typedarray_accessor(Some((&ta, &b)), TypedArrayAccessor::ByteLength), Ok(AccessorValue::Number(6)));
    assert_eq!(handle_typedarray_accessor(Some((&ta, &b)), TypedArrayAccessor::ByteOffset), Ok(AccessorValue::Number(2)));
    assert_eq!(
        handle_typedarray_accessor(Some((&ta, &b)), TypedArrayAccessor::ToStringTag),
        Ok(AccessorValue::Tag(TypedArrayKind::Int16))
    );
    let short = buffer(vec![0; 4]);
    assert_eq!(handle_typedarray_accessor(Some((&ta, &short)), TypedArrayAccessor::Length), Ok(AccessorValue::Number(0)));
    assert_eq!(handle_typedarray_accessor(Some((&ta, &short)), TypedArrayAccessor::ByteOffset), Ok(AccessorValue::Number(0)));
    assert_eq!(handle_typedarray_accessor(None, TypedArrayAccessor::ToStringTag), Ok(AccessorValue::Undefined));
    assert_eq!(handle_typedarray_accessor(None, TypedArrayAccessor::Length), Err(ErrorKind::TypeError));
}

#[test]
fn bigint_elements_round_trip() {
    let ta = array(TypedArrayKind::BigInt64, 0, 2);
    let mut b = buffer(vec![0; 16]);
    ta.set_bigint(&mut b, 1, -2);
    assert_eq!(ta.get_bigint_raw(&b, 1), -2);
    assert_eq!(&b.data[8..], &[0xFE, 0xFF, 0xFF, 0xFF, 0xFF, 0xFF, 0xFF, 0xFF]);
    ta.set_bigint(&mut b, 5, 7);
    assert_eq!(b.data[..8].to_vec(), vec![0; 8]);
    assert!(ta.is_valid_integer_index(&b, 1));
    assert!(!ta.is_valid_integer_index(&b, 2));
    assert_eq!(ta.element_size(), 8);
}

#[test]
fn static_from_and_of_plans() {
    let from = TypedArrayStaticMethod::From { mapfn: MapFnArg::Callable, source: FromSource::Iterable(3) };
    assert_eq!(handle_typedarray_static_method(true, from), Ok(StaticPlan { length: 3, mapped: true }));
    let text = TypedArrayStaticMethod::From { mapfn: MapFnArg::Absent, source: FromSource::Text(5) };
    assert_eq!(handle_typedarray_static_method(true, text), Ok(StaticPlan { length: 5, mapped: false }));
    assert_eq!(handle_typedarray_static_method(true, TypedArrayStaticMethod::Of(2)), Ok(StaticPlan { length: 2, mapped: false }));
    assert_eq!(handle_typedarray_static_method(false, TypedArrayStaticMethod::Of(2)), Err(ErrorKind::TypeError));
    let bad_map = TypedArrayStaticMethod::From { mapfn: MapFnArg::NotCallable, source: FromSource::ArrayLike(1) };
    assert_eq!(handle_typedarray_static_method(true, bad_map), Err(ErrorKind::TypeError));
    let bad_source = TypedArrayStaticMethod::From { mapfn: MapFnArg::Absent, source: FromSource::Other };
    assert_eq!(handle_typedarray_static_method(true, bad_source), Err(ErrorKind::TypeError));
    assert_eq!(handle_typedarray_static_method(true, TypedArrayStaticMethod::Unknown), Err(ErrorKind::TypeError));
}

#[test]
fn bigint_values_stored_in_order() {
    let ta = array(TypedArrayKind::BigUint64, 8, 3);
    let mut b = buffer(vec![0xAA; 40]);
    store_bigint_elements(&ta, &mut b, &vec![1, -1]);
    assert_eq!(b.data[..8].to_vec(), vec![0xAA; 8]);
    assert_eq!(b.data[8..16].to_vec(), vec![1, 0, 0, 0, 0, 0, 0, 0]);
    assert_eq!(b.data[16..24].to_vec(), vec![0xFF; 8]);
    assert_eq!(b.data[24..].to_vec(), vec![0xAA; 16]);
    assert_eq!(ta.get_bigint_raw(&b, 1), -1);
}

#[test]
fn atomics_validation() {
    let ta = array(TypedArrayKind::Int32, 0, 2);
    let b = buffer(vec![0; 8]);
    assert_eq!(validate_integer_typed_array(&ta, &b), Ok(()));
    assert_eq!(validate_atomic_access(&ta, &b, IndexArg::Integral(1)), Ok(1));
    assert_eq!(validate_atomic_access(&ta, &b, IndexArg::Integral(2)), Err(ErrorKind::RangeError));
    assert_eq!(validate_atomic_access(&ta, &b, IndexArg::Symbol), Err(ErrorKind::TypeError));
    let floats = array(TypedArrayKind::Float64, 0, 1);
    assert_eq!(validate_integer_typed_array(&floats, &b), Err(ErrorKind::TypeError));
    let gone = JSArrayBuffer { data: vec![], max_byte_length: None, shared: false, detached: true };
    assert_eq!(validate_integer_typed_array(&ta, &gone), Err(ErrorKind::TypeError));
}

#[test]
fn atomics_bigint_updates_wrap() {
    assert_eq!(atomic_bigint_update(AtomicOp::Add, i64::MAX, 1), i64::MIN);
    assert_eq!(atomic_bigint_update(AtomicOp::Sub, i64::MIN, 1), i64::MAX);
    assert_eq!(atomic_bigint_update(AtomicOp::And, 0b1100, 0b1010), 0b1000);
    assert_eq!(atomic_bigint_update(AtomicOp::Or, 0b1100, 0b1010), 0b1110);
    assert_eq!(atomic_bigint_update(AtomicOp::Xor, 0b1100, 0b1010), 0b0110);
    assert_eq!(atomic_bigint_update(AtomicOp::Exchange, 3, 9), 9);
}

#[test]
fn atomics_read_modify_write_and_compare_exchange() {
    let ta = array(TypedArrayKind::BigInt64, 0, 1);
    let mut b = buffer(vec![0; 8]);
    ta.set_bigint(&mut b, 0, 40);
    assert_eq!(atomics_bigint_read_modify_write(&ta, &mut b, 0, AtomicOp::Add, 2), 40);
    assert_eq!(ta.get_bigint_raw(&b, 0), 42);
    assert_eq!(atomics_bigint_compare_exchange(&ta, &mut b, 0, 41, 7), 42);
    assert_eq!(ta.get_bigint_raw(&b, 0), 42);
    assert_eq!(atomics_bigint_compare_exchange(&ta, &mut b, 0, 42, 7), 42);
    assert_eq!(ta.get_bigint_raw(&b, 0), 7);
}

#[test]
fn atomics_wait_decisions() {
    let ta = array(TypedArrayKind::Int32, 0, 2);
    let mut sb = JSArrayBuffer { data: vec![0; 8], max_byte_length: None, shared: true, detached: false };
    sb.data[4] = 0xFB;
    sb.data[5] = 0xFF;
    sb.data[6] = 0xFF;
    sb.data[7] = 0xFF;
    assert_eq!(atomics_wait_validate(&ta, &sb, IndexArg::Integral(1)), Ok(1));
    assert_eq!(atomics_wait_outcome(&ta, &sb, 1, -5, WaitTimeout::NotPositive), WaitOutcome::TimedOut);
    assert_eq!(atomics_wait_outcome(&ta, &sb, 1, 0, WaitTimeout::Forever), WaitOutcome::NotEqual);
    assert_eq!(
        atomics_wait_outcome(&ta, &sb, 1, -5, WaitTimeout::Millis(10)),
        WaitOutcome::Block { byte_index: 4, timeout: Some(10) }
    );
    let unshared = buffer(vec![0; 8]);
    assert_eq!(atomics_wait_validate(&ta, &unshared, IndexArg::Integral(0)), Err(ErrorKind::TypeError));
    let int16 = array(TypedArrayKind::Int16, 0, 2);
    assert_eq!(atomics_wait_validate(&int16, &sb, IndexArg::Integral(0)), Err(ErrorKind::TypeError));
    assert_eq!(atomics_wait_validate(&ta, &sb, IndexArg::Integral(2)), Err(ErrorKind::RangeError));
}

#[test]
fn atomics_notify_plans_and_queue() {
    let ta = array(TypedArrayKind::BigInt64, 0, 2);
    let sb = JSArrayBuffer { data: vec![0; 16], max_byte_length: None, shared: true, detached: false };
    assert_eq!(
        atomics_notify_plan(&ta, &sb, IndexArg::Integral(1), CountArg::Integral(2)),
        Ok(NotifyPlan::Wake { byte_index: 8, count: 2 })
    );
    assert_eq!(
        atomics_notify_plan(&ta, &sb, IndexArg::Integral(0), CountArg::Undefined),
        Ok(NotifyPlan::Wake { byte_index: 0, count: usize::MAX })
    );
    assert_eq!(
        atomics_notify_plan(&ta, &sb, IndexArg::Integral(0), CountArg::Integral(-4)),
        Ok(NotifyPlan::Wake { byte_index: 0, count: 0 })
    );
    let unshared = buffer(vec![0; 16]);
    assert_eq!(atomics_notify_plan(&ta, &unshared, IndexArg::Integral(0), CountArg::PosInfinity), Ok(NotifyPlan::Zero));
    let mut queue = vec!['a', 'b', 'c'];
    assert_eq!(take_waiters(&mut queue, 2), vec!['a', 'b']);
    assert_eq!(queue, vec!['c']);
    assert_eq!(take_waiters(&mut queue, usize::MAX), vec!['c']);
    assert!(queue.is_empty());
}

#[test]
fn to_bigint64_conversions() {
    let big = BigInt::parse_bytes(b"18446744073709551621", 10).unwrap();
    assert_eq!(to_bigint_i64(&bigint_arg(&big)), Ok(5));
    assert_eq!(to_bigint_i64(&bigint_arg(&BigInt::from(-3))), Ok(-3));
    assert_eq!(to_bigint_i64(&bigint_arg(&BigInt::from(-1))), Ok(-1));
    let top = BigInt::parse_bytes(b"9223372036854775808", 10).unwrap();
    assert_eq!(to_bigint_i64(&bigint_arg(&top)), Ok(i64::MIN));
    let raw = BigIntArg::BigInt { negative: true, magnitude: vec![0, 0, 0, 0, 0, 0, 0, 0, 1] };
    assert_eq!(to_bigint_i64(&raw), Ok(0));
    assert_eq!(to_bigint_i64(&BigIntArg::Boolean(true)), Ok(1));
    let s: Vec<u16> = " 0x10 ".encode_utf16().collect();
    assert_eq!(to_bigint_i64(&BigIntArg::String(s)), Ok(16));
    let bad: Vec<u16> = "1.5".encode_utf16().collect();
    assert_eq!(to_bigint_i64(&BigIntArg::String(bad)), Err(ErrorKind::SyntaxError));
    assert_eq!(to_bigint_i64(&BigIntArg::Number), Err(ErrorKind::TypeError));
    assert_eq!(to_bigint_i64(&BigIntArg::Undefined), Err(ErrorKind::TypeError));
}

#[test]
fn string_to_bigint_wraps_modulo_two_to_the_64() {
    let u = |s: &str| -> Vec<u16> { s.encode_utf16().collect() };
    assert_eq!(string_to_bigint_i64(&u("")), Some(0));
    assert_eq!(string_to_bigint_i64(&u("-1")), Some(-1));
    assert_eq!(string_to_bigint_i64(&u("18446744073709551616")), Some(0));
    assert_eq!(string_to_bigint_i64(&u("0b101")), Some(5));
    assert_eq!(string_to_bigint_i64(&u("0o17")), Some(15));
    assert_eq!(string_to_bigint_i64(&u("-0x1")), None);
    assert_eq!(string_to_bigint_i64(&u("12n")), None);
}

#[test]
fn index_of_last_index_of_includes() {
    let ta = array(TypedArrayKind::Int16, 0, 5);
    let b = buffer(vec![1, 0, 0xFF, 0xFF, 1, 0, 7, 0, 0xFF, 0xFF]);
    assert_eq!(typedarray_index_of(&ta, &b, Some(-1), 0), Ok(1));
    assert_eq!(typedarray_index_of(&ta, &b, Some(-1), 2), Ok(4));
    assert_eq!(typedarray_index_of(&ta, &b, Some(-1), -1), Ok(4));
    assert_eq!(typedarray_index_of(&ta, &b, Some(9), 0), Ok(-1));
    assert_eq!(typedarray_index_of(&ta, &b, None, 0), Ok(-1));
    assert_eq!(typedarray_index_of(&ta, &b, Some(1), 100), Ok(-1));
    assert_eq!(typedarray_last_index_of(&ta, &b, Some(1), None), Ok(2));
    assert_eq!(typedarray_last_index_of(&ta, &b, Some(1), Some(1)), Ok(0));
    assert_eq!(typedarray_last_index_of(&ta, &b, Some(1), Some(-10)), Ok(-1));
    assert_eq!(typedarray_last_index_of(&ta, &b, Some(-1), Some(-2)), Ok(1));
    assert_eq!(typedarray_includes(&ta, &b, Some(7), 0), Ok(true));
    assert_eq!(typedarray_includes(&ta, &b, Some(7), 4), Ok(false));
    assert_eq!(typedarray_includes(&ta, &b, Some(65535), 0), Ok(false));
    let u = array(TypedArrayKind::Uint16, 0, 5);
    assert_eq!(typedarray_index_of(&u, &b, Some(65535), 0), Ok(1));
    let short = buffer(vec![0; 4]);
    assert_eq!(typedarray_index_of(&ta, &short, Some(0), 0), Err(ErrorKind::TypeError));
    let big = array(TypedArrayKind::BigUint64, 0, 1);
    let bb = buffer(vec![0xFF; 8]);
    assert_eq!(typedarray_index_of(&big, &bb, Some(u64::MAX as i128), 0), Ok(0));
    assert_eq!(typedarray_index_of(&big, &bb, Some(-1), 0), Ok(-1));
}

#[test]
fn sort_orders_elements_numerically() {
    let ta = array(TypedArrayKind::Int8, 1, 5);
    let mut b = buffer(vec![0xEE, 3, 0xFF, 0x80, 2, 3, 0xEE]);
    assert_eq!(typedarray_sort(&ta, &mut b), Ok(()));
    assert_eq!(b.data, vec![0xEE, 0x80, 0xFF, 2, 3, 3, 0xEE]);
    let u = array(TypedArrayKind::Uint32, 0, 3);
    let mut c = buffer(vec![0, 0, 0, 0x80, 5, 0, 0, 0, 1, 0, 0, 0]);
    assert_eq!(typedarray_sort(&u, &mut c), Ok(()));
    assert_eq!(c.data, vec![1, 0, 0, 0, 5, 0, 0, 0, 0, 0, 0, 0x80]);
    let mut gone = JSArrayBuffer { data: vec![], max_byte_length: None, shared: false, detached: true };
    assert_eq!(typedarray_sort(&ta, &mut gone), Err(ErrorKind::TypeError));
}

#[test]
fn atomics_on_small_integer_arrays() {
    let i8a = array(TypedArrayKind::Int8, 0, 2);
    let mut b = buffer(vec![5, 127]);
    assert_eq!(atomics_int_read_modify_write(&i8a, &mut b, 0, AtomicOp::Add, 3.0f64.to_bits()), 5);
    assert_eq!(b.data, vec![8, 127]);
    assert_eq!(atomics_int_read_modify_write(&i8a, &mut b, 1, AtomicOp::Add, 1.0f64.to_bits()), 127);
    assert_eq!(b.data, vec![8, 0x80]);
    assert_eq!(atomics_int_read_modify_write(&i8a, &mut b, 1, AtomicOp::Xor, (-1.0f64).to_bits()), -128);
    assert_eq!(b.data, vec![8, 0x7F]);
    let u8a = array(TypedArrayKind::Uint8, 0, 1);
    let mut c = buffer(vec![0]);
    assert_eq!(atomics_int_read_modify_write(&u8a, &mut c, 0, AtomicOp::Sub, 1.5f64.to_bits()), 0);
    assert_eq!(c.data, vec![255]);
    let i32a = array(TypedArrayKind::Int32, 0, 1);
    let mut d = buffer(vec![1, 0, 0, 0]);
    assert_eq!(atomics_int_read_modify_write(&i32a, &mut d, 0, AtomicOp::Add, 2f64.powi(60).to_bits()), 1);
    assert_eq!(d.data, vec![0, 0, 0, 0]);
    assert_eq!(atomics_int_read_modify_write(&i32a, &mut d, 0, AtomicOp::Exchange, f64::NAN.to_bits()), 0);
    assert_eq!(atomics_int_read_modify_write(&i32a, &mut d, 0, AtomicOp::Or, 6.0f64.to_bits()), 0);
    assert_eq!(d.data, vec![6, 0, 0, 0]);
}

#[test]
fn compare_exchange_on_small_integer_arrays() {
    let i8a = array(TypedArrayKind::Int8, 0, 1);
    let mut b = buffer(vec![0xFF]);
    assert_eq!(atomics_int_compare_exchange(&i8a, &mut b, 0, 255.0f64.to_bits(), 3.0f64.to_bits()), -1);
    assert_eq!(b.data, vec![3]);
    assert_eq!(atomics_int_compare_exchange(&i8a, &mut b, 0, 4.0f64.to_bits(), 9.0f64.to_bits()), 3);
    assert_eq!(b.data, vec![3]);
    let u16a = array(TypedArrayKind::Uint16, 0, 1);
    let mut c = buffer(vec![0x34, 0x12]);
    assert_eq!(atomics_int_compare_exchange(&u16a, &mut c, 0, (0x1234 as f64 + 65536.0).to_bits(), (-1.0f64).to_bits()), 0x1234);
    assert_eq!(c.data, vec![0xFF, 0xFF]);
}

#[test]
fn typed_array_iterator_steps() {
    let ta = array(TypedArrayKind::Uint16, 2, 2);
    let b = buffer(vec![9, 9, 1, 0, 0xFF, 0xFF]);
    assert_eq!(handle_typedarray_iterator_next(&ta, &b, 0), Ok(Some((1, 1))));
    assert_eq!(handle_typedarray_iterator_next(&ta, &b, 1), Ok(Some((0xFFFF, 2))));
    assert_eq!(handle_typedarray_iterator_next(&ta, &b, 2), Ok(None));
    let short = buffer(vec![0; 4]);
    assert_eq!(handle_typedarray_iterator_next(&ta, &short, 0), Err(ErrorKind::TypeError));
    let gone = JSArrayBuffer { data: vec![0; 6], max_byte_length: None, shared: false, detached: true };
    assert_eq!(handle_typedarray_iterator_next(&ta, &gone, 0), Err(ErrorKind::TypeError));
    assert_eq!(ensure_typedarray_in_bounds(&ta, 6), Ok(()));
    assert_eq!(ensure_typedarray_in_bounds(&ta, 5), Err(ErrorKind::TypeError));
    assert_eq!(raw_i64_to_bigint(-1, &TypedArrayKind::BigUint64), RawBigInt::Unsigned(u64::MAX));
    assert_eq!(raw_i64_to_bigint(-1, &TypedArrayKind::BigInt64), RawBigInt::Signed(-1));
}

fn text(units: &[u16]) -> String {
    String::from_utf16(units).unwrap()
}

#[test]
fn join_writes_elements_in_decimal() {
    let ta = array(TypedArrayKind::Int16, 0, 2);
    let b = buffer(vec![1, 0, 0xFE, 0xFF]);
    assert_eq!(text(&typedarray_join(&ta, &b, None).unwrap()), "1,-2");
    let dash: Vec<u16> = "-".encode_utf16().collect();
    assert_eq!(text(&typedarray_join(&ta, &b, Some(&dash)).unwrap()), "1--2");
    let none: Vec<u16> = Vec::new();
    assert_eq!(text(&typedarray_join(&ta, &b, Some(&none)).unwrap()), "1-2");
    let big = array(TypedArrayKind::BigUint64, 0, 1);
    let bb = buffer(vec![0xFF; 8]);
    assert_eq!(text(&typedarray_join(&big, &bb, None).unwrap()), "18446744073709551615");
    let signed = array(TypedArrayKind::BigInt64, 0, 1);
    let mut min = vec![0u8; 8];
    min[7] = 0x80;
    assert_eq!(text(&typedarray_join(&signed, &buffer(min), None).unwrap()), "-9223372036854775808");
    let empty = array(TypedArrayKind::Uint8, 0, 0);
    assert_eq!(typedarray_join(&empty, &buffer(vec![]), None), Ok(vec![]));
    let gone = JSArrayBuffer { data: vec![1, 0, 2, 0], max_byte_length: None, shared: false, detached: true };
    assert_eq!(typedarray_join(&ta, &gone, None), Err(ErrorKind::TypeError));
    let short = array(TypedArrayKind::Int16, 2, 2);
    assert_eq!(typedarray_join(&short, &buffer(vec![0, 0, 0]), None), Err(ErrorKind::TypeError));
}

#[test]
fn decimal_text_of_whole_numbers() {
    assert_eq!(text(&decimal_of(0)), "0");
    assert_eq!(text(&decimal_of(1234567)), "1234567");
    assert_eq!(text(&decimal_of(-40)), "-40");
}

#[test]
fn to_reversed_makes_a_reversed_copy() {
    let ta = array(TypedArrayKind::Int16, 1, 3);
    let b = buffer(vec![9, 1, 0, 2, 0, 3, 0, 9]);
    assert_eq!(typedarray_to_reversed(&ta, &b), Ok(vec![3, 0, 2, 0, 1, 0]));
    assert_eq!(b.data, vec![9, 1, 0, 2, 0, 3, 0, 9]);
    let tracking = JSTypedArray { kind: TypedArrayKind::Uint8, byte_offset: 1, length: 0, length_tracking: true };
    assert_eq!(typedarray_to_reversed(&tracking, &buffer(vec![0, 1, 2, 3])), Ok(vec![3, 2, 1]));
    let gone = JSArrayBuffer { data: vec![1, 2], max_byte_length: None, shared: false, detached: true };
    assert_eq!(typedarray_to_reversed(&array(TypedArrayKind::Uint8, 0, 2), &gone), Err(ErrorKind::TypeError));
    assert_eq!(typedarray_to_reversed(&ta, &buffer(vec![0; 4])), Err(ErrorKind::TypeError));
}

#[test]
fn slice_copies_a_range_of_elements() {
    let ta = array(TypedArrayKind::Uint8, 0, 5);
    let b = buffer(vec![10, 20, 30, 40, 50]);
    assert_eq!(typedarray_slice(&ta, &b, None, None), Ok(vec![10, 20, 30, 40, 50]));
    assert_eq!(typedarray_slice(&ta, &b, Some(IndexArg::Integral(1)), Some(IndexArg::Integral(3))), Ok(vec![20, 30]));
    assert_eq!(typedarray_slice(&ta, &b, Some(IndexArg::Integral(-2)), None), Ok(vec![40, 50]));
    assert_eq!(typedarray_slice(&ta, &b, Some(IndexArg::Integral(4)), Some(IndexArg::Integral(1))), Ok(vec![]));
    assert_eq!(typedarray_slice(&ta, &b, Some(IndexArg::Integral(-100)), Some(IndexArg::Integral(100))).unwrap().len(), 5);
    assert_eq!(typedarray_slice(&ta, &b, Some(IndexArg::Symbol), None), Err(ErrorKind::TypeError));
    assert_eq!(typedarray_slice(&ta, &b, None, Some(IndexArg::BigInt)), Err(ErrorKind::TypeError));
    let big = array(TypedArrayKind::BigUint64, 0, 2);
    let mut bytes = vec![0xFF; 8];
    bytes.extend_from_slice(&[1, 0, 0, 0, 0, 0, 0, 0]);
    assert_eq!(typedarray_slice(&big, &buffer(bytes), Some(IndexArg::Integral(0)), Some(IndexArg::Integral(1))), Ok(vec![0xFF; 8]));
}

#[test]
fn with_replaces_one_element() {
    let ta = array(TypedArrayKind::Int8, 0, 3);
    let b = buffer(vec![1, 2, 3]);
    assert_eq!(typedarray_with(&ta, &b, 1, ElementValue::Number { bits: 300.0f64.to_bits(), f32_bits: 0 }), Ok(vec![1, 44, 3]));
    assert_eq!(typedarray_with(&ta, &b, -1, ElementValue::Number { bits: (-1.0f64).to_bits(), f32_bits: 0 }), Ok(vec![1, 2, 0xFF]));
    assert_eq!(typedarray_with(&ta, &b, 3, ElementValue::Number { bits: 0, f32_bits: 0 }), Err(ErrorKind::RangeError));
    assert_eq!(typedarray_with(&ta, &b, -4, ElementValue::Number { bits: 0, f32_bits: 0 }), Err(ErrorKind::RangeError));
    assert_eq!(b.data, vec![1, 2, 3]);
    let c = array(TypedArrayKind::Uint8Clamped, 0, 1);
    assert_eq!(typedarray_with(&c, &buffer(vec![0]), 0, ElementValue::Number { bits: 300.0f64.to_bits(), f32_bits: 0 }), Ok(vec![255]));
    let big = array(TypedArrayKind::BigInt64, 0, 1);
    assert_eq!(typedarray_with(&big, &buffer(vec![0; 8]), 0, ElementValue::BigInt(-2)), Ok(vec![0xFE, 0xFF, 0xFF, 0xFF, 0xFF, 0xFF, 0xFF, 0xFF]));
    let gone = JSArrayBuffer { data: vec![1, 2, 3], max_byte_length: None, shared: false, detached: true };
    assert_eq!(typedarray_with(&ta, &gone, 0, ElementValue::Number { bits: 0, f32_bits: 0 }), Err(ErrorKind::TypeError));
}

#[test]
fn set_copies_a_typed_array_source() {
    let target = array(TypedArrayKind::Uint8, 0, 4);
    let mut b = buffer(vec![0, 0, 0, 0]);
    let src = array(TypedArrayKind::Int16, 0, 2);
    let sb = buffer(vec![0x2C, 0x01, 0xFF, 0xFF]);
    assert_eq!(typedarray_set_typed_array(&target, &mut b, Some(IndexArg::Integral(1)), &src, Some(&sb)), Ok(()));
    assert_eq!(b.data, vec![0, 44, 255, 0]);
    let clamped = array(TypedArrayKind::Uint8Clamped, 0, 2);
    let mut c = buffer(vec![7, 7]);
    assert_eq!(typedarray_set_typed_array(&clamped, &mut c, None, &src, Some(&sb)), Ok(()));
    assert_eq!(c.data, vec![255, 0]);
    assert_eq!(
        typedarray_set_typed_array(&target, &mut b, Some(IndexArg::Integral(3)), &src, Some(&sb)),
        Err(ErrorKind::RangeError)
    );
    assert_eq!(
        typedarray_set_typed_array(&target, &mut b, Some(IndexArg::Integral(-1)), &src, Some(&sb)),
        Err(ErrorKind::RangeError)
    );
    assert_eq!(
        typedarray_set_typed_array(&target, &mut b, Some(IndexArg::Symbol), &src, Some(&sb)),
        Err(ErrorKind::TypeError)
    );
    let gone = JSArrayBuffer { data: vec![0; 4], max_byte_length: None, shared: false, detached: true };
    assert_eq!(typedarray_set_typed_array(&target, &mut b, None, &src, Some(&gone)), Err(ErrorKind::TypeError));
    assert_eq!(b.data, vec![0, 44, 255, 0]);
}

#[test]
fn set_reads_an_overlapping_source_first() {
    let whole = array(TypedArrayKind::Int8, 0, 3);
    let shifted = array(TypedArrayKind::Int8, 1, 3);
    let mut b = buffer(vec![1, 2, 3, 4]);
    assert_eq!(typedarray_set_typed_array(&shifted, &mut b, None, &whole, None), Ok(()));
    assert_eq!(b.data, vec![1, 1, 2, 3]);
}

#[test]
fn to_sorted_leaves_the_receiver_alone() {
    let ta = array(TypedArrayKind::Int8, 0, 4);
    let b = buffer(vec![3, 0xFF, 1, 0x80]);
    assert_eq!(typedarray_to_sorted(&ta, &b), Ok(vec![0x80, 0xFF, 1, 3]));
    assert_eq!(b.data, vec![3, 0xFF, 1, 0x80]);
    let u = array(TypedArrayKind::Uint16, 2, 2);
    assert_eq!(typedarray_to_sorted(&u, &buffer(vec![9, 9, 0, 1, 5, 0])), Ok(vec![5, 0, 0, 1]));
    let gone = JSArrayBuffer { data: vec![1], max_byte_length: None, shared: false, detached: true };
    assert_eq!(typedarray_to_sorted(&array(TypedArrayKind::Uint8, 0, 1), &gone), Err(ErrorKind::TypeError));
}

#[test]
fn reversing_twice_restores_the_elements() {
    let ta = array(TypedArrayKind::Uint16, 0, 3);
    let mut b = buffer(vec![1, 0, 2, 0, 3, 0]);
    this_result(handle_typedarray_method(Some((&ta, &mut b)), TypedArrayMethod::Reverse));
    assert_eq!(b.data, vec![3, 0, 2, 0, 1, 0]);
    this_result(handle_typedarray_method(Some((&ta, &mut b)), TypedArrayMethod::Reverse));
    assert_eq!(b.data, vec![1, 0, 2, 0, 3, 0]);
}

#[test]
fn sorting_a_sorted_array_changes_nothing() {
    let ta = array(TypedArrayKind::Int32, 0, 3);
    let mut b = buffer(vec![5, 0, 0, 0, 0xFF, 0xFF, 0xFF, 0xFF, 5, 0, 0, 0]);
    assert_eq!(typedarray_sort(&ta, &mut b), Ok(()));
    let once = b.data.clone();
    assert_eq!(once, vec![0xFF, 0xFF, 0xFF, 0xFF, 5, 0, 0, 0, 5, 0, 0, 0]);
    assert_eq!(typedarray_sort(&ta, &mut b), Ok(()));
    assert_eq!(b.data, once);
    assert_eq!(typedarray_to_sorted(&ta, &b), Ok(once));
}

#[test]
fn set_stores_converted_values() {
    let ta = array(TypedArrayKind::Uint8, 0, 3);
    let mut b = buffer(vec![0, 0, 0]);
    let vals = [
        ElementValue::Number { bits: (-1.0f64).to_bits(), f32_bits: 0 },
        ElementValue::Number { bits: 2.9f64.to_bits(), f32_bits: 0 },
    ];
    assert_eq!(typedarray_set_values(&ta, &mut b, Some(IndexArg::Integral(1)), &vals), Ok(()));
    assert_eq!(b.data, vec![0, 255, 2]);
    assert_eq!(typedarray_set_values(&ta, &mut b, Some(IndexArg::Integral(2)), &vals), Err(ErrorKind::RangeError));
    assert_eq!(typedarray_set_values(&ta, &mut b, Some(IndexArg::BigInt), &vals), Err(ErrorKind::TypeError));
    assert_eq!(typedarray_set_values(&ta, &mut b, Some(IndexArg::Integral(3)), &[]), Ok(()));
    assert_eq!(b.data, vec![0, 255, 2]);
    let f = array(TypedArrayKind::Float32, 0, 1);
    let mut fb = buffer(vec![0; 4]);
    let third = 1.0f64 / 3.0;
    let v = [ElementValue::Number { bits: third.to_bits(), f32_bits: (third as f32).to_bits() }];
    assert_eq!(typedarray_set_values(&f, &mut fb, None, &v), Ok(()));
    assert_eq!(fb.data, (third as f32).to_le_bytes().to_vec());
    let big = array(TypedArrayKind::BigInt64, 0, 1);
    let mut bb = buffer(vec![0; 8]);
    assert_eq!(typedarray_set_values(&big, &mut bb, None, &[ElementValue::BigInt(-1)]), Ok(()));
    assert_eq!(bb.data, vec![0xFF; 8]);
}

#[test]
fn atomics_load_and_store() {
    let ta = array(TypedArrayKind::Int16, 0, 2);
    let mut b = buffer(vec![1, 0, 0xFF, 0xFF]);
    assert_eq!(atomics_load(&ta, &b, IndexArg::Integral(1)), Ok(0xFFFF));
    assert_eq!(atomics_load(&ta, &b, IndexArg::Integral(2)), Err(ErrorKind::RangeError));
    assert_eq!(atomics_load(&ta, &b, IndexArg::Symbol), Err(ErrorKind::TypeError));
    let stored = ElementValue::Number { bits: 70000.0f64.to_bits(), f32_bits: 0 };
    assert_eq!(atomics_store(&ta, &mut b, IndexArg::Integral(0), stored), Ok(()));
    assert_eq!(b.data, vec![0x70, 0x11, 0xFF, 0xFF]);
    assert_eq!(atomics_load(&ta, &b, IndexArg::Integral(0)), Ok(0x1170));
    let f = array(TypedArrayKind::Float64, 0, 1);
    assert_eq!(atomics_load(&f, &buffer(vec![0; 8]), IndexArg::Integral(0)), Err(ErrorKind::TypeError));
    let big = array(TypedArrayKind::BigInt64, 0, 1);
    let mut bb = buffer(vec![0; 8]);
    assert_eq!(atomics_store(&big, &mut bb, IndexArg::Undefined, ElementValue::BigInt(-5)), Ok(()));
    assert_eq!(atomics_load(&big, &bb, IndexArg::Integral(0)), Ok((-5i64) as u64));
    let shrunk = buffer(vec![0; 4]);
    assert_eq!(atomics_load(&big, &shrunk, IndexArg::Integral(0)), Ok(0));
    assert_eq!(atomics_load(&array(TypedArrayKind::Int32, 0, 2), &shrunk, IndexArg::Integral(1)), Err(ErrorKind::TypeError));
}

#[test]
fn copies_through_a_number_round_64_bit_elements() {
    let big = array(TypedArrayKind::BigInt64, 0, 3);
    let mut bytes = Vec::new();
    bytes.extend_from_slice(&((1i64 << 53) + 1).to_le_bytes());
    bytes.extend_from_slice(&i64::MAX.to_le_bytes());
    bytes.extend_from_slice(&(-((1i64 << 53) + 3)).to_le_bytes());
    let b = buffer(bytes.clone());
    let mut want = Vec::new();
    want.extend_from_slice(&(-((1i64 << 53) + 4)).to_le_bytes());
    want.extend_from_slice(&i64::MAX.to_le_bytes());
    want.extend_from_slice(&(1i64 << 53).to_le_bytes());
    assert_eq!(typedarray_to_reversed(&big, &b), Ok(want));
    assert_eq!(typedarray_slice(&big, &b, None, None), Ok(bytes));
    let ubig = array(TypedArrayKind::BigUint64, 0, 1);
    assert_eq!(typedarray_to_reversed(&ubig, &buffer(vec![0xFF; 8])), Ok(vec![0xFF; 8]));
    assert_eq!(typedarray_to_reversed(&ubig, &buffer(((1u64 << 60) + 1).to_le_bytes().to_vec())), Ok((1u64 << 60).to_le_bytes().to_vec()));
}

#[test]
fn copies_through_a_number_keep_floats() {
    let h = array(TypedArrayKind::Float16, 0, 2);
    let b = buffer(vec![0x01, 0xFC, 0x00, 0x3C]);
    assert_eq!(typedarray_to_reversed(&h, &b), Ok(vec![0x00, 0x3C, 0x00, 0xFE]));
    let d = array(TypedArrayKind::Float64, 0, 1);
    let nan = 0x7FF0_0000_0000_0001u64.to_le_bytes().to_vec();
    assert_eq!(typedarray_slice(&d, &buffer(nan.clone()), None, None), Ok(nan.clone()));
    assert_eq!(typedarray_to_reversed(&d, &buffer(nan.clone())), Ok(nan));
    let f = array(TypedArrayKind::Float32, 0, 2);
    let fb = buffer(vec![0, 0, 0x80, 0x3F, 0, 0, 0, 0x40]);
    let third = 1.0f64 / 3.0;
    let v = ElementValue::Number { bits: third.to_bits(), f32_bits: (third as f32).to_bits() };
    let mut want = (third as f32).to_le_bytes().to_vec();
    want.extend_from_slice(&[0, 0, 0, 0x40]);
    assert_eq!(typedarray_with(&f, &fb, 0, v), Ok(want));
}

#[test]
fn reverse_and_copy_within_go_through_numbers() {
    let big = array(TypedArrayKind::BigInt64, 0, 3);
    let mut bytes = Vec::new();
    bytes.extend_from_slice(&((1i64 << 53) + 1).to_le_bytes());
    bytes.extend_from_slice(&((1i64 << 53) + 1).to_le_bytes());
    bytes.extend_from_slice(&7i64.to_le_bytes());
    let mut b = buffer(bytes);
    this_result(handle_typedarray_method(Some((&big, &mut b)), TypedArrayMethod::Reverse));
    let mut want = Vec::new();
    want.extend_from_slice(&7i64.to_le_bytes());
    want.extend_from_slice(&((1i64 << 53) + 1).to_le_bytes());
    want.extend_from_slice(&(1i64 << 53).to_le_bytes());
    assert_eq!(b.data, want);
    let h = array(TypedArrayKind::Float16, 0, 2);
    let mut hb = buffer(vec![0x01, 0x7C, 0x00, 0x3C]);
    let cw = TypedArrayMethod::CopyWithin { target: Some(IndexArg::Integral(1)), start: None, end: None };
    this_result(handle_typedarray_method(Some((&h, &mut hb)), cw));
    assert_eq!(hb.data, vec![0x01, 0x7C, 0x00, 0x7E]);
    let d = array(TypedArrayKind::Float64, 0, 2);
    let mut db = buffer([0x7FF0_0000_0000_0001u64.to_le_bytes(), 1.5f64.to_le_bytes()].concat());
    this_result(handle_typedarray_method(Some((&d, &mut db)), TypedArrayMethod::Reverse));
    assert_eq!(db.data, [1.5f64.to_le_bytes(), 0x7FF0_0000_0000_0001u64.to_le_bytes()].concat());
}

fn f64_bytes(vals: &[f64]) -> Vec<u8> {
    vals.iter().flat_map(|v| v.to_le_bytes()).collect()
}

#[test]
fn float_search_compares_numbers() {
    let ta = array(TypedArrayKind::Float64, 0, 4);
    let b = buffer(f64_bytes(&[1.5, f64::NAN, -0.0, 1.5]));
    let bits = |v: f64| Some(v.to_bits());
    assert_eq!(typedarray_float_index_of(&ta, &b, bits(1.5), 0), Ok(0));
    assert_eq!(typedarray_float_index_of(&ta, &b, bits(1.5), 1), Ok(3));
    assert_eq!(typedarray_float_index_of(&ta, &b, bits(1.5), -1), Ok(3));
    assert_eq!(typedarray_float_index_of(&ta, &b, bits(f64::NAN), 0), Ok(-1));
    assert_eq!(typedarray_float_index_of(&ta, &b, bits(0.0), 0), Ok(2));
    assert_eq!(typedarray_float_index_of(&ta, &b, None, 0), Ok(-1));
    assert_eq!(typedarray_float_last_index_of(&ta, &b, bits(1.5), None), Ok(3));
    assert_eq!(typedarray_float_last_index_of(&ta, &b, bits(1.5), Some(2)), Ok(0));
    assert_eq!(typedarray_float_last_index_of(&ta, &b, bits(1.5), Some(-5)), Ok(-1));
    assert_eq!(typedarray_float_includes(&ta, &b, bits(f64::NAN), 0), Ok(true));
    assert_eq!(typedarray_float_includes(&ta, &b, bits(f64::NAN), 2), Ok(false));
    assert_eq!(typedarray_float_includes(&ta, &b, bits(0.0), 0), Ok(true));
    let f = array(TypedArrayKind::Float32, 0, 2);
    let fb = buffer([0.1f32.to_le_bytes(), f32::INFINITY.to_le_bytes()].concat());
    assert_eq!(typedarray_float_index_of(&f, &fb, bits(0.1f32 as f64), 0), Ok(0));
    assert_eq!(typedarray_float_index_of(&f, &fb, bits(0.1), 0), Ok(-1));
    assert_eq!(typedarray_float_index_of(&f, &fb, bits(f64::INFINITY), 0), Ok(1));
    assert_eq!(typedarray_float_index_of(&f, &fb, bits(f64::NEG_INFINITY), 0), Ok(-1));
    let h = array(TypedArrayKind::Float16, 0, 3);
    let hb = buffer(vec![0x00, 0x3C, 0x00, 0x7E, 0x01, 0x00]);
    assert_eq!(typedarray_float_index_of(&h, &hb, bits(1.0), 0), Ok(0));
    assert_eq!(typedarray_float_index_of(&h, &hb, bits(2f64.powi(-24)), 0), Ok(2));
    assert_eq!(typedarray_float_includes(&h, &hb, bits(f64::NAN), 0), Ok(true));
    let gone = JSArrayBuffer { data: vec![0; 8], max_byte_length: None, shared: false, detached: true };
    assert_eq!(typedarray_float_index_of(&ta, &gone, bits(1.0), 0), Err(ErrorKind::TypeError));
}

#[test]
fn bigint_sort_goes_through_numbers() {
    let ta = array(TypedArrayKind::BigInt64, 0, 3);
    let mut b = buffer([((1i64 << 53) + 1).to_le_bytes(), (-5i64).to_le_bytes(), i64::MAX.to_le_bytes()].concat());
    assert_eq!(typedarray_sort_bigint(&ta, &mut b), Ok(()));
    assert_eq!(b.data, [(-5i64).to_le_bytes(), (1i64 << 53).to_le_bytes(), i64::MAX.to_le_bytes()].concat());
    let u = array(TypedArrayKind::BigUint64, 0, 2);
    let mut c = buffer([u64::MAX.to_le_bytes(), 3u64.to_le_bytes()].concat());
    assert_eq!(typedarray_sort_bigint(&u, &mut c), Ok(()));
    assert_eq!(c.data, [3u64.to_le_bytes(), u64::MAX.to_le_bytes()].concat());
    let mut gone = JSArrayBuffer { data: vec![0; 8], max_byte_length: None, shared: false, detached: true };
    assert_eq!(typedarray_sort_bigint(&u, &mut gone), Err(ErrorKind::TypeError));
}

#[test]
fn float_sort_puts_nans_last() {
    let ta = array(TypedArrayKind::Float64, 0, 7);
    let nan1 = f64::from_bits(0x7FF0_0000_0000_0001);
    let nan2 = f64::from_bits(0x7FF8_0000_0000_0000);
    let mut b = buffer(f64_bytes(&[3.0, nan1, -0.0, 0.0, f64::NEG_INFINITY, nan2, 1.0]));
    assert_eq!(typedarray_sort_float(&ta, &mut b), Ok(()));
    let got: Vec<u64> = b.data.chunks(8).map(|c| u64::from_le_bytes(c.try_into().unwrap())).collect();
    let want: Vec<u64> = [f64::NEG_INFINITY, -0.0, 0.0, 1.0, 3.0, nan1, nan2].iter().map(|v| v.to_bits()).collect();
    assert_eq!(got, want);
    let h = array(TypedArrayKind::Float16, 0, 3);
    let mut hb = buffer(vec![0x01, 0xFC, 0x00, 0x3C, 0x00, 0xC0]);
    assert_eq!(typedarray_sort_float(&h, &mut hb), Ok(()));
    assert_eq!(hb.data, vec![0x00, 0xC0, 0x00, 0x3C, 0x00, 0xFE]);
    let f = array(TypedArrayKind::Float32, 0, 2);
    let mut fb = buffer([2.0f32.to_le_bytes(), (-1.0f32).to_le_bytes()].concat());
    assert_eq!(typedarray_sort_float(&f, &mut fb), Ok(()));
    assert_eq!(fb.data, [(-1.0f32).to_le_bytes(), 2.0f32.to_le_bytes()].concat());
    let mut gone = JSArrayBuffer { data: vec![0; 8], max_byte_length: None, shared: false, detached: true };
    assert_eq!(typedarray_sort_float(&ta, &mut gone), Err(ErrorKind::TypeError));
}

#[test]
fn to_sorted_covers_every_kind() {
    let d = array(TypedArrayKind::Float64, 0, 3);
    let db = buffer(f64_bytes(&[f64::NAN, 2.5, -1.0]));
    let out = typedarray_to_sorted(&d, &db).unwrap();
    let got: Vec<u64> = out.chunks(8).map(|c| u64::from_le_bytes(c.try_into().unwrap())).collect();
    assert_eq!(got, vec![(-1.0f64).to_bits(), 2.5f64.to_bits(), f64::NAN.to_bits()]);
    assert_eq!(db.data, f64_bytes(&[f64::NAN, 2.5, -1.0]));
    let big = array(TypedArrayKind::BigUint64, 0, 2);
    let bb = buffer([9u64.to_le_bytes(), 4u64.to_le_bytes()].concat());
    assert_eq!(typedarray_to_sorted(&big, &bb), Ok([4u64.to_le_bytes(), 9u64.to_le_bytes()].concat()));
}

#[test]
fn set_between_bigint_arrays_goes_through_numbers() {
    let target = array(TypedArrayKind::BigUint64, 0, 2);
    let mut b = buffer(vec![0xAA; 16]);
    let src = array(TypedArrayKind::BigInt64, 0, 2);
    let sb = buffer([(-1i64).to_le_bytes(), ((1i64 << 53) + 1).to_le_bytes()].concat());
    assert_eq!(typedarray_set_typed_array(&target, &mut b, None, &src, Some(&sb)), Ok(()));
    assert_eq!(b.data, [0u64.to_le_bytes(), (1u64 << 53).to_le_bytes()].concat());
    let small = array(TypedArrayKind::Int8, 0, 2);
    assert_eq!(
        typedarray_set_typed_array(&target, &mut b, None, &small, Some(&buffer(vec![1, 2]))),
        Err(ErrorKind::TypeError)
    );
}

#[test]
fn of_stores_numbers_into_the_new_array() {
    let ta = array(TypedArrayKind::Int8, 0, 3);
    let mut b = buffer(vec![0; 3]);
    store_number_elements(&ta, &mut b, &vec![300.0f64.to_bits(), (-1.0f64).to_bits(), 1.5f64.to_bits()]);
    assert_eq!(b.data, vec![44, 255, 1]);
    let f = array(TypedArrayKind::Float32, 0, 2);
    let mut fb = buffer(vec![0; 8]);
    store_number_elements(&f, &mut fb, &vec![0.1f64.to_bits()]);
    assert_eq!(fb.data, [(0.1f64 as f32).to_le_bytes(), [0, 0, 0, 0]].concat());
    let c = array(TypedArrayKind::Uint8Clamped, 1, 1);
    let mut cb = buffer(vec![9, 9]);
    store_number_elements(&c, &mut cb, &vec![2.5f64.to_bits()]);
    assert_eq!(cb.data, vec![9, 2]);
}
