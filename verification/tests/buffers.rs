use jsbuiltins::array_buffer::{
    copy_slice_bytes, handle_arraybuffer_accessor, handle_arraybuffer_constructor,
    handle_arraybuffer_method, handle_arraybuffer_static_method, handle_dataview_constructor,
    handle_sharedarraybuffer_bytelength, handle_sharedarraybuffer_constructor,
    handle_sharedarraybuffer_grow, handle_sharedarraybuffer_growable,
    handle_sharedarraybuffer_maxbytelength, handle_sharedarraybuffer_slice, new_slice_buffer,
    validate_species_buffer, ArrayBufferAccessor, ArrayBufferMethod, ArrayBufferMethodResult,
    ArrayBufferStatic, BufferAccessorValue, SliceRange, ViewCandidate,
};
use jsbuiltins::dataview::{handle_dataview_method, DataViewAnswer, DataViewMethod, DataViewType};
use jsbuiltins::error::ErrorKind;
use jsbuiltins::typed_array::{JSArrayBuffer, JSDataView, JSTypedArray, TypedArrayKind};
use jsbuiltins::typed_array_ops::IndexArg;

fn plain(bytes: Vec<u8>) -> JSArrayBuffer {
    JSArrayBuffer { data: bytes, max_byte_length: None, shared: false, detached: false }
}

fn shared(bytes: Vec<u8>, max: Option<usize>) -> JSArrayBuffer {
    JSArrayBuffer { data: bytes, max_byte_length: max, shared: true, detached: false }
}

fn whole_view(len: usize) -> JSDataView {
    JSDataView { byte_offset: 0, byte_length: len, length_tracking: false }
}

#[test]
fn arraybuffer_constructor_makes_zeroed_bytes() {
    let b = handle_arraybuffer_constructor(IndexArg::Integral(4), None).unwrap();
    assert_eq!(b.data, vec![0, 0, 0, 0]);
    assert_eq!(b.max_byte_length, None);
    assert!(!b.shared && !b.detached);
    let r = handle_arraybuffer_constructor(IndexArg::Integral(2), Some(IndexArg::Integral(8))).unwrap();
    assert_eq!(r.max_byte_length, Some(8));
    let u = handle_arraybuffer_constructor(IndexArg::Undefined, Some(IndexArg::Undefined)).unwrap();
    assert_eq!(u.data.len(), 0);
    assert_eq!(u.max_byte_length, None);
}

#[test]
fn arraybuffer_constructor_errors() {
    assert!(matches!(handle_arraybuffer_constructor(IndexArg::Integral(-1), None), Err(ErrorKind::RangeError)));
    assert!(matches!(handle_arraybuffer_constructor(IndexArg::Symbol, None), Err(ErrorKind::TypeError)));
    assert!(matches!(
        handle_arraybuffer_constructor(IndexArg::Integral(8), Some(IndexArg::Integral(4))),
        Err(ErrorKind::RangeError)
    ));
    assert!(matches!(
        handle_arraybuffer_constructor(IndexArg::Integral(5_000_000_000), None),
        Err(ErrorKind::RangeError)
    ));
}

#[test]
fn shared_constructor_marks_the_buffer_shared() {
    let b = handle_sharedarraybuffer_constructor(IndexArg::Integral(3), Some(IndexArg::Integral(6))).unwrap();
    assert!(b.shared);
    assert_eq!(b.data, vec![0, 0, 0]);
    assert_eq!(handle_sharedarraybuffer_bytelength(Some(&b)), Ok(3));
    assert_eq!(handle_sharedarraybuffer_maxbytelength(Some(&b)), Ok(6));
    assert_eq!(handle_sharedarraybuffer_growable(Some(&b)), Ok(true));
    let p = plain(vec![1]);
    assert_eq!(handle_sharedarraybuffer_bytelength(Some(&p)), Err(ErrorKind::TypeError));
    assert_eq!(handle_sharedarraybuffer_growable(None), Err(ErrorKind::TypeError));
}

#[test]
fn is_view_recognizes_views() {
    let obj = ViewCandidate::Object { typed_array: true, data_view: false };
    assert_eq!(handle_arraybuffer_static_method(ArrayBufferStatic::IsView, obj), Some(true));
    let other = ViewCandidate::Object { typed_array: false, data_view: false };
    assert_eq!(handle_arraybuffer_static_method(ArrayBufferStatic::IsView, other), Some(false));
    assert_eq!(handle_arraybuffer_static_method(ArrayBufferStatic::IsView, ViewCandidate::NotAnObject), Some(false));
    assert_eq!(handle_arraybuffer_static_method(ArrayBufferStatic::Other, obj), None);
}

#[test]
fn arraybuffer_accessors() {
    let b = JSArrayBuffer { data: vec![0; 5], max_byte_length: Some(9), shared: false, detached: false };
    assert_eq!(handle_arraybuffer_accessor(Some(&b), ArrayBufferAccessor::ByteLength), Ok(BufferAccessorValue::Number(5)));
    assert_eq!(handle_arraybuffer_accessor(Some(&b), ArrayBufferAccessor::MaxByteLength), Ok(BufferAccessorValue::Number(9)));
    assert_eq!(handle_arraybuffer_accessor(Some(&b), ArrayBufferAccessor::Resizable), Ok(BufferAccessorValue::Boolean(true)));
    let fixed = plain(vec![0; 2]);
    assert_eq!(handle_arraybuffer_accessor(Some(&fixed), ArrayBufferAccessor::MaxByteLength), Ok(BufferAccessorValue::Number(2)));
    assert_eq!(handle_arraybuffer_accessor(None, ArrayBufferAccessor::ByteLength), Err(ErrorKind::TypeError));
    let s = shared(vec![0], None);
    assert_eq!(handle_arraybuffer_accessor(Some(&s), ArrayBufferAccessor::ByteLength), Err(ErrorKind::TypeError));
    assert_eq!(handle_arraybuffer_accessor(None, ArrayBufferAccessor::Other), Ok(BufferAccessorValue::Undefined));
}

#[test]
fn grow_extends_with_zeros() {
    let mut b = shared(vec![7, 7], Some(6));
    assert_eq!(handle_sharedarraybuffer_grow(Some(&mut b), IndexArg::Integral(4)), Ok(()));
    assert_eq!(b.data, vec![7, 7, 0, 0]);
    assert_eq!(handle_sharedarraybuffer_grow(Some(&mut b), IndexArg::Integral(2)), Err(ErrorKind::RangeError));
    assert_eq!(handle_sharedarraybuffer_grow(Some(&mut b), IndexArg::Integral(7)), Err(ErrorKind::RangeError));
    assert_eq!(b.data, vec![7, 7, 0, 0]);
    let mut fixed = shared(vec![1], None);
    assert_eq!(handle_sharedarraybuffer_grow(Some(&mut fixed), IndexArg::Integral(1)), Err(ErrorKind::TypeError));
    assert_eq!(handle_sharedarraybuffer_grow(None, IndexArg::Integral(1)), Err(ErrorKind::TypeError));
}

#[test]
fn slice_ranges_and_copies() {
    let s = shared(vec![1, 2, 3, 4, 5], None);
    let r = handle_sharedarraybuffer_slice(Some(&s), Some(IndexArg::Integral(1)), Some(IndexArg::Integral(-1))).unwrap();
    assert_eq!(r, SliceRange { start: 1, length: 3 });
    let fresh = new_slice_buffer(&s, r, true);
    assert_eq!(fresh.data, vec![2, 3, 4]);
    assert!(fresh.shared);
    let empty = handle_sharedarraybuffer_slice(Some(&s), Some(IndexArg::Integral(4)), Some(IndexArg::Integral(2))).unwrap();
    assert_eq!(empty.length, 0);
    let p = plain(vec![1]);
    assert_eq!(handle_sharedarraybuffer_slice(Some(&p), None, None), Err(ErrorKind::TypeError));
    let mut target = plain(vec![9, 9, 9, 9]);
    copy_slice_bytes(&s, r, &mut target);
    assert_eq!(target.data, vec![2, 3, 4, 9]);
}

#[test]
fn species_buffer_checks() {
    assert_eq!(validate_species_buffer(Some(4), false, 3), Ok(()));
    assert_eq!(validate_species_buffer(Some(2), false, 3), Err(ErrorKind::TypeError));
    assert_eq!(validate_species_buffer(Some(4), true, 3), Err(ErrorKind::TypeError));
    assert_eq!(validate_species_buffer(None, false, 0), Err(ErrorKind::TypeError));
}

#[test]
fn arraybuffer_slice_and_resize() {
    let mut b = JSArrayBuffer { data: vec![1, 2, 3, 4], max_byte_length: Some(8), shared: false, detached: false };
    let r = handle_arraybuffer_method(
        Some(&mut b),
        ArrayBufferMethod::Slice { start: Some(IndexArg::Integral(-2)), end: None },
    );
    assert_eq!(r, Ok(ArrayBufferMethodResult::Slice(SliceRange { start: 2, length: 2 })));
    assert_eq!(handle_arraybuffer_method(Some(&mut b), ArrayBufferMethod::Resize(Some(IndexArg::Integral(6)))), Ok(ArrayBufferMethodResult::Resized));
    assert_eq!(b.data, vec![1, 2, 3, 4, 0, 0]);
    assert_eq!(handle_arraybuffer_method(Some(&mut b), ArrayBufferMethod::Resize(Some(IndexArg::Integral(1)))), Ok(ArrayBufferMethodResult::Resized));
    assert_eq!(b.data, vec![1]);
    assert_eq!(handle_arraybuffer_method(Some(&mut b), ArrayBufferMethod::Resize(Some(IndexArg::Integral(9)))), Err(ErrorKind::RangeError));
    let mut fixed = plain(vec![1]);
    assert_eq!(handle_arraybuffer_method(Some(&mut fixed), ArrayBufferMethod::Resize(Some(IndexArg::Integral(1)))), Err(ErrorKind::TypeError));
    assert_eq!(handle_arraybuffer_method(None, ArrayBufferMethod::Slice { start: None, end: None }), Err(ErrorKind::TypeError));
}

#[test]
fn dataview_constructor_cases() {
    let b = plain(vec![0; 8]);
    let dv = handle_dataview_constructor(Some(&b), IndexArg::Integral(2), None).unwrap();
    assert_eq!((dv.byte_offset, dv.byte_length, dv.length_tracking), (2, 6, false));
    let dv2 = handle_dataview_constructor(Some(&b), IndexArg::Integral(1), Some(IndexArg::Integral(4))).unwrap();
    assert_eq!((dv2.byte_offset, dv2.byte_length), (1, 4));
    assert!(matches!(handle_dataview_constructor(Some(&b), IndexArg::Integral(9), None), Err(ErrorKind::RangeError)));
    assert!(matches!(
        handle_dataview_constructor(Some(&b), IndexArg::Integral(4), Some(IndexArg::Integral(5))),
        Err(ErrorKind::RangeError)
    ));
    assert!(matches!(handle_dataview_constructor(None, IndexArg::Undefined, None), Err(ErrorKind::TypeError)));
    let resizable = JSArrayBuffer { data: vec![0; 4], max_byte_length: Some(8), shared: false, detached: false };
    let tracking = handle_dataview_constructor(Some(&resizable), IndexArg::Undefined, None).unwrap();
    assert!(tracking.length_tracking);
    let detached = JSArrayBuffer { data: vec![], max_byte_length: None, shared: false, detached: true };
    assert!(matches!(handle_dataview_constructor(Some(&detached), IndexArg::Undefined, None), Err(ErrorKind::TypeError)));
}

#[test]
fn dataview_reads_both_byte_orders() {
    let dv = whole_view(4);
    let mut b = plain(vec![0x12, 0x34, 0xFF, 0xFE]);
    let be = handle_dataview_method(
        Some((&dv, &mut b)),
        DataViewMethod::Read { ty: DataViewType::Uint16, offset: IndexArg::Integral(0), little_endian: false },
    );
    assert_eq!(be, Ok(DataViewAnswer::Unsigned(0x1234)));
    let le = handle_dataview_method(
        Some((&dv, &mut b)),
        DataViewMethod::Read { ty: DataViewType::Uint16, offset: IndexArg::Integral(0), little_endian: true },
    );
    assert_eq!(le, Ok(DataViewAnswer::Unsigned(0x3412)));
    let neg = handle_dataview_method(
        Some((&dv, &mut b)),
        DataViewMethod::Read { ty: DataViewType::Int16, offset: IndexArg::Integral(2), little_endian: true },
    );
    assert_eq!(neg, Ok(DataViewAnswer::Signed(-257)));
    let past = handle_dataview_method(
        Some((&dv, &mut b)),
        DataViewMethod::Read { ty: DataViewType::Int32, offset: IndexArg::Integral(1), little_endian: true },
    );
    assert_eq!(past, Err(ErrorKind::RangeError));
}

#[test]
fn dataview_write_then_read_gives_the_value_back() {
    let dv = whole_view(8);
    let mut b = plain(vec![0; 8]);
    let w = handle_dataview_method(
        Some((&dv, &mut b)),
        DataViewMethod::Write {
            ty: DataViewType::Int32,
            offset: IndexArg::Integral(4),
            value: Ok(0xFFFF_FFFF_FFFF_FFF6),
            little_endian: false,
        },
    );
    assert_eq!(w, Ok(DataViewAnswer::Undefined));
    assert_eq!(b.data, vec![0, 0, 0, 0, 0xFF, 0xFF, 0xFF, 0xF6]);
    let r = handle_dataview_method(
        Some((&dv, &mut b)),
        DataViewMethod::Read { ty: DataViewType::Int32, offset: IndexArg::Integral(4), little_endian: false },
    );
    assert_eq!(r, Ok(DataViewAnswer::Signed(-10)));
    let big = handle_dataview_method(
        Some((&dv, &mut b)),
        DataViewMethod::Write {
            ty: DataViewType::BigUint64,
            offset: IndexArg::Integral(0),
            value: Ok(0x0102_0304_0506_0708),
            little_endian: true,
        },
    );
    assert_eq!(big, Ok(DataViewAnswer::Undefined));
    assert_eq!(b.data, vec![8, 7, 6, 5, 4, 3, 2, 1]);
}

#[test]
fn dataview_errors_and_accessors() {
    let dv = JSDataView { byte_offset: 2, byte_length: 3, length_tracking: false };
    let mut b = plain(vec![0; 8]);
    let conv = handle_dataview_method(
        Some((&dv, &mut b)),
        DataViewMethod::Write { ty: DataViewType::Uint8, offset: IndexArg::Integral(0), value: Err(ErrorKind::TypeError), little_endian: false },
    );
    assert_eq!(conv, Err(ErrorKind::TypeError));
    assert_eq!(b.data, vec![0; 8]);
    let neg = handle_dataview_method(
        Some((&dv, &mut b)),
        DataViewMethod::Read { ty: DataViewType::Uint8, offset: IndexArg::Integral(-1), little_endian: false },
    );
    assert_eq!(neg, Err(ErrorKind::RangeError));
    assert_eq!(handle_dataview_method(Some((&dv, &mut b)), DataViewMethod::ByteLength), Ok(DataViewAnswer::Length(3)));
    assert_eq!(handle_dataview_method(Some((&dv, &mut b)), DataViewMethod::ByteOffset), Ok(DataViewAnswer::Length(2)));
    assert_eq!(handle_dataview_method(Some((&dv, &mut b)), DataViewMethod::Buffer), Ok(DataViewAnswer::Buffer));
    assert_eq!(handle_dataview_method(None, DataViewMethod::ByteLength), Err(ErrorKind::TypeError));
    let mut gone = JSArrayBuffer { data: vec![], max_byte_length: None, shared: false, detached: true };
    let detached = handle_dataview_method(
        Some((&dv, &mut gone)),
        DataViewMethod::Read { ty: DataViewType::Uint8, offset: IndexArg::Integral(0), little_endian: false },
    );
    assert_eq!(detached, Err(ErrorKind::TypeError));
}

#[test]
fn dataview_element_getters_and_setters() {
    let dv = whole_view(8);
    let mut b = plain(vec![0; 8]);
    assert_eq!(dv.set_uint8(&mut b, 0, 0x7F), Ok(()));
    assert_eq!(dv.get_int8(&b, 0), Ok(127));
    assert_eq!(dv.set_int16(&mut b, 6, -2, false), Ok(()));
    assert_eq!(dv.get_uint16(&b, 6, false), Ok(0xFFFE));
    assert_eq!(dv.set_int8(&mut b, 0, -2), Ok(()));
    assert_eq!(dv.get_int8(&b, 0), Ok(-2));
    assert_eq!(dv.get_uint8(&b, 0), Ok(254));
    assert_eq!(dv.set_uint16(&mut b, 1, 0xABCD, true), Ok(()));
    assert_eq!(dv.get_uint16(&b, 1, true), Ok(0xABCD));
    assert_eq!(dv.get_uint16(&b, 1, false), Ok(0xCDAB));
    assert_eq!(dv.set_int32(&mut b, 4, -5, false), Ok(()));
    assert_eq!(dv.get_int32(&b, 4, false), Ok(-5));
    assert_eq!(dv.get_uint32(&b, 4, false), Ok(0xFFFF_FFFB));
    assert_eq!(dv.set_bigint64(&mut b, 0, -1, true), Ok(()));
    assert_eq!(dv.get_bigint64(&b, 0, true), Ok(-1));
    assert_eq!(dv.get_biguint64(&b, 0, false), Ok(u64::MAX));
    assert_eq!(dv.set_float16(&mut b, 0, 0x3C00, true), Ok(()));
    assert_eq!(dv.get_float16(&b, 0, true), Ok(0x3C00));
    assert_eq!(dv.get_int16(&b, 7, true), Err(ErrorKind::RangeError));
    assert_eq!(dv.set_biguint64(&mut b, 1, 5, true), Err(ErrorKind::RangeError));
}

#[test]
fn dataview_reads_back_in_the_other_byte_order() {
    let dv = whole_view(8);
    let mut b = plain(vec![0; 8]);
    assert_eq!(dv.set_int16(&mut b, 2, 0x1234, true), Ok(()));
    assert_eq!(dv.get_int16(&b, 2, true), Ok(0x1234));
    assert_eq!(dv.get_int16(&b, 2, false), Ok(0x3412));
    assert_eq!(dv.set_biguint64(&mut b, 0, 0x0102_0304_0506_0708, false), Ok(()));
    assert_eq!(dv.get_bigint64(&b, 0, false), Ok(0x0102_0304_0506_0708));
    assert_eq!(dv.get_bigint64(&b, 0, true), Ok(0x0807_0605_0403_0201));
    assert_eq!(dv.set_int8(&mut b, 0, -1), Ok(()));
    assert_eq!(dv.get_int8(&b, 0), Ok(-1));
}

#[test]
fn typed_array_value_is_copy() {
    let ta = JSTypedArray { kind: TypedArrayKind::Int8, byte_offset: 0, length: 1, length_tracking: false };
    let copy = ta;
    assert_eq!(copy.length, ta.length);
}
