//! The ArrayBuffer, SharedArrayBuffer and DataView constructors, the
//! buffer accessors, `resize`, `grow`, and the index arithmetic of `slice`.
use crate::error::ErrorKind;
use crate::typed_array::{JSArrayBuffer, JSDataView};
use crate::typed_array_ops::{spec_to_index, to_index, IndexArg};
use vstd::prelude::*;

verus! {

/// The largest byte length this engine allocates.
pub const MAX_BUFFER_LENGTH: u64 = 4294967295;

/// A sequence of `n` zero bytes.
pub open spec fn zeros(n: nat) -> Seq<u8> {
    Seq::new(n, |i: int| 0u8)
}

/// `maxByteLength` as the constructors read it: an absent option and an
/// undefined one both mean a fixed-length buffer.
pub open spec fn spec_max_option(max: Option<IndexArg>) -> Option<IndexArg> {
    match max {
        Some(IndexArg::Undefined) => None,
        other => other,
    }
}

/// The validated `(byteLength, maxByteLength)` of a new buffer, or the
/// error the constructor throws.
pub open spec fn spec_buffer_params(length: IndexArg, max: Option<IndexArg>) -> Result<
    (u64, Option<u64>),
    ErrorKind,
> {
    match spec_to_index(length) {
        Err(e) => Err(e),
        Ok(len) => match spec_max_option(max) {
            None => if len > MAX_BUFFER_LENGTH {
                Err(ErrorKind::RangeError)
            } else {
                Ok((len, None))
            },
            Some(m) => match spec_to_index(m) {
                Err(e) => Err(e),
                Ok(mx) => if mx < len || mx > MAX_BUFFER_LENGTH {
                    Err(ErrorKind::RangeError)
                } else {
                    Ok((len, Some(mx)))
                },
            },
        },
    }
}

/// The buffer a successful constructor call makes.
pub open spec fn spec_new_buffer(buf: JSArrayBuffer, len: u64, max: Option<u64>, shared: bool) -> bool {
    &&& buf.data@ == zeros(len as nat)
    &&& match max {
        None => buf.max_byte_length is None,
        Some(m) => buf.max_byte_length == Some(m as usize),
    }
    &&& buf.shared == shared
    &&& !buf.detached
}

/// A vector of `n` zero bytes.
fn zeroed_bytes(n: usize) -> (v: Vec<u8>)
    ensures
        v@ == zeros(n as nat),
{
    let mut v: Vec<u8> = Vec::new();
    let mut i: usize = 0;
    while i < n
        invariant
            i <= n,
            v@ == zeros(i as nat),
        decreases n - i,
    {
        v.push(0u8);
        i = i + 1;
        assert(v@ =~= zeros(i as nat));
    }
    v
}

fn new_buffer(length: IndexArg, max_byte_length: Option<IndexArg>, shared: bool) -> (r: Result<
    JSArrayBuffer,
    ErrorKind,
>)
    ensures
        match spec_buffer_params(length, max_byte_length) {
            Err(e) => r == Err::<JSArrayBuffer, ErrorKind>(e),
            Ok((len, mx)) => r is Ok && spec_new_buffer(r->Ok_0, len, mx, shared),
        },
{
    let len = match to_index(length) {
        Ok(l) => l,
        Err(e) => return Err(e),
    };
    let max = match max_byte_length {
        None => None,
        Some(IndexArg::Undefined) => None,
        Some(m) => {
            let mx = match to_index(m) {
                Ok(x) => x,
                Err(e) => return Err(e),
            };
            if mx < len {
                return Err(ErrorKind::RangeError);
            }
            if mx > MAX_BUFFER_LENGTH {
                return Err(ErrorKind::RangeError);
            }
            Some(mx as usize)
        },
    };
    if len > MAX_BUFFER_LENGTH {
        return Err(ErrorKind::RangeError);
    }
    let data = zeroed_bytes(len as usize);
    Ok(JSArrayBuffer { data, max_byte_length: max, shared, detached: false })
}

/// `new ArrayBuffer(length [, { maxByteLength }])`: `length` is the first
/// argument as ToIndex reads it, `max_byte_length` the options object's
/// `maxByteLength` (`None` when there is no options object).
pub fn handle_arraybuffer_constructor(length: IndexArg, max_byte_length: Option<IndexArg>) -> (r:
    Result<JSArrayBuffer, ErrorKind>)
    ensures
        match spec_buffer_params(length, max_byte_length) {
            Err(e) => r == Err::<JSArrayBuffer, ErrorKind>(e),
            Ok((len, mx)) => r is Ok && spec_new_buffer(r->Ok_0, len, mx, false),
        },
{
    new_buffer(length, max_byte_length, false)
}

/// `new SharedArrayBuffer(length [, { maxByteLength }])`.
pub fn handle_sharedarraybuffer_constructor(length: IndexArg, max_byte_length: Option<IndexArg>) -> (r:
    Result<JSArrayBuffer, ErrorKind>)
    ensures
        match spec_buffer_params(length, max_byte_length) {
            Err(e) => r == Err::<JSArrayBuffer, ErrorKind>(e),
            Ok((len, mx)) => r is Ok && spec_new_buffer(r->Ok_0, len, mx, true),
        },
{
    new_buffer(length, max_byte_length, true)
}

/// What the first argument of `ArrayBuffer.isView` is.
#[derive(Clone, Copy, Debug, PartialEq, Eq, Structural)]
pub enum ViewCandidate {
    NotAnObject,
    /// An object, with or without the internal slots of a view.
    Object { typed_array: bool, data_view: bool },
}

/// The static methods of `ArrayBuffer`.
#[derive(Clone, Copy, Debug, PartialEq, Eq, Structural)]
pub enum ArrayBufferStatic {
    IsView,
    /// Any other name, which answers `undefined`.
    Other,
}

/// `ArrayBuffer.isView(arg)`; `None` stands for `undefined`.
pub fn handle_arraybuffer_static_method(method: ArrayBufferStatic, arg: ViewCandidate) -> (r: Option<
    bool,
>)
    ensures
        method == ArrayBufferStatic::Other ==> r is None,
        method == ArrayBufferStatic::IsView ==> r == Some(
            match arg {
                ViewCandidate::NotAnObject => false,
                ViewCandidate::Object { typed_array, data_view } => typed_array || data_view,
            },
        ),
{
    match method {
        ArrayBufferStatic::IsView => match arg {
            ViewCandidate::NotAnObject => Some(false),
            ViewCandidate::Object { typed_array, data_view } => Some(typed_array || data_view),
        },
        ArrayBufferStatic::Other => None,
    }
}

/// The DataView a successful constructor call makes, or its error.
/// An absent `byte_length` and an undefined one both mean "to the end of
/// the buffer".
pub open spec fn spec_dataview(
    buffer: Option<JSArrayBuffer>,
    byte_offset: IndexArg,
    byte_length: Option<IndexArg>,
) -> Result<JSDataView, ErrorKind> {
    match buffer {
        None => Err(ErrorKind::TypeError),
        Some(buf) => match spec_to_index(byte_offset) {
            Err(e) => Err(e),
            Ok(off) => if buf.detached {
                Err(ErrorKind::TypeError)
            } else if off > buf.data@.len() {
                Err(ErrorKind::RangeError)
            } else {
                match byte_length {
                    None | Some(IndexArg::Undefined) => Ok(
                        JSDataView {
                            byte_offset: off as usize,
                            byte_length: (buf.data@.len() - off) as usize,
                            length_tracking: buf.max_byte_length is Some,
                        },
                    ),
                    Some(l) => match spec_to_index(l) {
                        Err(e) => Err(e),
                        Ok(len) => if off + len > buf.data@.len() {
                            Err(ErrorKind::RangeError)
                        } else {
                            Ok(
                                JSDataView {
                                    byte_offset: off as usize,
                                    byte_length: len as usize,
                                    length_tracking: false,
                                },
                            )
                        },
                    },
                }
            },
        },
    }
}

/// `new DataView(buffer [, byteOffset [, byteLength]])`: `buffer` is `None`
/// when the first argument is missing or has no `[[ArrayBufferData]]`.
pub fn handle_dataview_constructor(
    buffer: Option<&JSArrayBuffer>,
    byte_offset: IndexArg,
    byte_length: Option<IndexArg>,
) -> (r: Result<JSDataView, ErrorKind>)
    ensures
        r == spec_dataview(
            match buffer {
                None => None,
                Some(b) => Some(*b),
            },
            byte_offset,
            byte_length,
        ),
{
    let buf = match buffer {
        None => return Err(ErrorKind::TypeError),
        Some(b) => b,
    };
    let off = match to_index(byte_offset) {
        Ok(o) => o,
        Err(e) => return Err(e),
    };
    if buf.detached {
        return Err(ErrorKind::TypeError);
    }
    let buf_len = buf.data.len();
    if off > buf_len as u64 {
        return Err(ErrorKind::RangeError);
    }
    let off = off as usize;
    match byte_length {
        None | Some(IndexArg::Undefined) => Ok(
            JSDataView {
                byte_offset: off,
                byte_length: buf_len - off,
                length_tracking: buf.max_byte_length.is_some(),
            },
        ),
        Some(l) => {
            let len = match to_index(l) {
                Ok(x) => x,
                Err(e) => return Err(e),
            };
            if len > (buf_len - off) as u64 {
                return Err(ErrorKind::RangeError);
            }
            Ok(JSDataView { byte_offset: off, byte_length: len as usize, length_tracking: false })
        },
    }
}


/// The accessors of `ArrayBuffer.prototype`.
#[derive(Clone, Copy, Debug, PartialEq, Eq, Structural)]
pub enum ArrayBufferAccessor {
    ByteLength,
    MaxByteLength,
    Resizable,
    /// Any other name, which answers `undefined`.
    Other,
}

/// The value an accessor answers.
#[derive(Clone, Copy, Debug, PartialEq, Eq, Structural)]
pub enum BufferAccessorValue {
    Number(usize),
    Boolean(bool),
    Undefined,
}

/// `maxByteLength` of a buffer: its limit when resizable, else its length.
pub open spec fn spec_max_or_len(buf: JSArrayBuffer) -> nat {
    match buf.max_byte_length {
        Some(m) => m as nat,
        None => buf.data@.len(),
    }
}

/// `get ArrayBuffer.prototype.byteLength / maxByteLength / resizable`;
/// `receiver` is `None` when `this` has no `[[ArrayBufferData]]`.
pub fn handle_arraybuffer_accessor(receiver: Option<&JSArrayBuffer>, property: ArrayBufferAccessor) -> (r:
    Result<BufferAccessorValue, ErrorKind>)
    ensures
        property == ArrayBufferAccessor::Other ==> r == Ok::<BufferAccessorValue, ErrorKind>(
            BufferAccessorValue::Undefined,
        ),
        property != ArrayBufferAccessor::Other ==> match receiver {
            None => r == Err::<BufferAccessorValue, ErrorKind>(ErrorKind::TypeError),
            Some(b) => if b.shared {
                r == Err::<BufferAccessorValue, ErrorKind>(ErrorKind::TypeError)
            } else {
                r == Ok::<BufferAccessorValue, ErrorKind>(
                    match property {
                        ArrayBufferAccessor::ByteLength => BufferAccessorValue::Number(
                            b.data@.len() as usize,
                        ),
                        ArrayBufferAccessor::MaxByteLength => BufferAccessorValue::Number(
                            spec_max_or_len(*b) as usize,
                        ),
                        _ => BufferAccessorValue::Boolean(b.max_byte_length is Some),
                    },
                )
            },
        },
{
    if property == ArrayBufferAccessor::Other {
        return Ok(BufferAccessorValue::Undefined);
    }
    let b = match receiver {
        None => return Err(ErrorKind::TypeError),
        Some(b) => b,
    };
    if b.shared {
        return Err(ErrorKind::TypeError);
    }
    match property {
        ArrayBufferAccessor::ByteLength => Ok(BufferAccessorValue::Number(b.data.len())),
        ArrayBufferAccessor::MaxByteLength => Ok(
            BufferAccessorValue::Number(
                match b.max_byte_length {
                    Some(m) => m,
                    None => b.data.len(),
                },
            ),
        ),
        _ => Ok(BufferAccessorValue::Boolean(b.max_byte_length.is_some())),
    }
}

/// Whether `receiver` is a SharedArrayBuffer.
pub open spec fn is_shared_receiver(receiver: Option<&JSArrayBuffer>) -> bool {
    match receiver {
        None => false,
        Some(b) => b.shared,
    }
}

/// `get SharedArrayBuffer.prototype.byteLength`.
pub fn handle_sharedarraybuffer_bytelength(receiver: Option<&JSArrayBuffer>) -> (r: Result<
    usize,
    ErrorKind,
>)
    ensures
        is_shared_receiver(receiver) ==> r == Ok::<usize, ErrorKind>(
            receiver.unwrap().data@.len() as usize,
        ),
        !is_shared_receiver(receiver) ==> r == Err::<usize, ErrorKind>(ErrorKind::TypeError),
{
    match receiver {
        Some(b) => if b.shared {
            Ok(b.data.len())
        } else {
            Err(ErrorKind::TypeError)
        },
        None => Err(ErrorKind::TypeError),
    }
}

/// `get SharedArrayBuffer.prototype.maxByteLength`.
pub fn handle_sharedarraybuffer_maxbytelength(receiver: Option<&JSArrayBuffer>) -> (r: Result<
    usize,
    ErrorKind,
>)
    ensures
        is_shared_receiver(receiver) ==> r == Ok::<usize, ErrorKind>(
            spec_max_or_len(*receiver.unwrap()) as usize,
        ),
        !is_shared_receiver(receiver) ==> r == Err::<usize, ErrorKind>(ErrorKind::TypeError),
{
    match receiver {
        Some(b) => if b.shared {
            Ok(
                match b.max_byte_length {
                    Some(m) => m,
                    None => b.data.len(),
                },
            )
        } else {
            Err(ErrorKind::TypeError)
        },
        None => Err(ErrorKind::TypeError),
    }
}

/// `get SharedArrayBuffer.prototype.growable`.
pub fn handle_sharedarraybuffer_growable(receiver: Option<&JSArrayBuffer>) -> (r: Result<
    bool,
    ErrorKind,
>)
    ensures
        is_shared_receiver(receiver) ==> r == Ok::<bool, ErrorKind>(
            receiver.unwrap().max_byte_length is Some,
        ),
        !is_shared_receiver(receiver) ==> r == Err::<bool, ErrorKind>(ErrorKind::TypeError),
{
    match receiver {
        Some(b) => if b.shared {
            Ok(b.max_byte_length.is_some())
        } else {
            Err(ErrorKind::TypeError)
        },
        None => Err(ErrorKind::TypeError),
    }
}

/// ToIntegerOrInfinity of a numeric argument (`i64::MIN` / `i64::MAX` for
/// −∞ / +∞); a BigInt or a Symbol does not convert to a number.
pub open spec fn spec_to_integer(arg: IndexArg) -> Result<i64, ErrorKind> {
    match arg {
        IndexArg::Undefined => Ok(0),
        IndexArg::BigInt | IndexArg::Symbol => Err(ErrorKind::TypeError),
        IndexArg::Integral(n) => Ok(n),
    }
}

fn to_integer(arg: IndexArg) -> (r: Result<i64, ErrorKind>)
    ensures
        r == spec_to_integer(arg),
{
    match arg {
        IndexArg::Undefined => Ok(0),
        IndexArg::BigInt | IndexArg::Symbol => Err(ErrorKind::TypeError),
        IndexArg::Integral(n) => Ok(n),
    }
}

/// The new byte length `SharedArrayBuffer.prototype.grow` sets, or its error.
pub open spec fn spec_grow(receiver: Option<JSArrayBuffer>, new_length: IndexArg) -> Result<nat, ErrorKind> {
    match receiver {
        None => Err(ErrorKind::TypeError),
        Some(b) => if !b.shared {
            Err(ErrorKind::TypeError)
        } else {
            match b.max_byte_length {
                None => Err(ErrorKind::TypeError),
                Some(max) => match spec_to_integer(new_length) {
                    Err(e) => Err(e),
                    Ok(n) => if n < 0 || n == i64::MAX || n > max || n < b.data@.len() {
                        Err(ErrorKind::RangeError)
                    } else {
                        Ok(n as nat)
                    },
                },
            }
        },
    }
}

/// A buffer whose bytes were grown or cut to `new_len`, new bytes zero.
pub open spec fn resized_data(old: Seq<u8>, new_len: nat) -> Seq<u8> {
    if new_len <= old.len() {
        old.subrange(0, new_len as int)
    } else {
        old + zeros((new_len - old.len()) as nat)
    }
}

/// Resizing keeps every byte below both lengths, reads zero at every byte
/// past the old length, and has exactly the new length.
pub proof fn law_resized_data(old: Seq<u8>, new_len: nat, i: int)
    requires
        0 <= i < new_len,
    ensures
        resized_data(old, new_len).len() == new_len,
        i < old.len() ==> resized_data(old, new_len)[i] == old[i],
        i >= old.len() ==> resized_data(old, new_len)[i] == 0,
{
}

/// `grow(n)` on a growable SharedArrayBuffer takes any length from its
/// current length up to its maximum, and refuses a shorter or a longer one
/// with a RangeError; `resize(n)` on a resizable, attached ArrayBuffer
/// takes any length up to its maximum (and the engine's limit), and
/// refuses a negative or a larger one with a RangeError.
pub proof fn law_grow_and_resize_lengths(b: JSArrayBuffer, n: i64)
    requires
        b.max_byte_length is Some,
        n < i64::MAX,
    ensures
        b.shared ==> (b.data@.len() <= n <= b.max_byte_length->Some_0 <==> spec_grow(
            Some(b),
            IndexArg::Integral(n),
        ) == Ok::<nat, ErrorKind>(n as nat)),
        b.shared && (n < b.data@.len() || n > b.max_byte_length->Some_0) ==> spec_grow(
            Some(b),
            IndexArg::Integral(n),
        ) == Err::<nat, ErrorKind>(ErrorKind::RangeError),
        !b.detached ==> (0 <= n <= b.max_byte_length->Some_0 && n <= MAX_BUFFER_LENGTH <==> spec_resize(
            b,
            Some(IndexArg::Integral(n)),
        ) == Ok::<nat, ErrorKind>(n as nat)),
        !b.detached && (n < 0 || n > b.max_byte_length->Some_0) ==> spec_resize(
            b,
            Some(IndexArg::Integral(n)),
        ) == Err::<nat, ErrorKind>(ErrorKind::RangeError),
{
}

/// Sets the length of `data`, appending zero bytes or cutting the tail.
fn resize_bytes(data: &mut Vec<u8>, new_len: usize)
    ensures
        final(data)@ == resized_data(old(data)@, new_len as nat),
{
    if new_len <= data.len() {
        data.truncate(new_len);
    } else {
        let ghost start = data@;
        while data.len() < new_len
            invariant
                start.len() <= data@.len() <= new_len,
                data@ == start + zeros((data@.len() - start.len()) as nat),
            decreases new_len - data@.len(),
        {
            let ghost before = data@;
            data.push(0u8);
            assert(data@ =~= start + zeros((data@.len() - start.len()) as nat));
        }
    }
}

/// `SharedArrayBuffer.prototype.grow(newLength)`.
pub fn handle_sharedarraybuffer_grow(receiver: Option<&mut JSArrayBuffer>, new_length: IndexArg) -> (r:
    Result<(), ErrorKind>)
    ensures
        match receiver {
            None => r == Err::<(), ErrorKind>(ErrorKind::TypeError),
            Some(b) => match spec_grow(Some(*b), new_length) {
                Err(e) => r == Err::<(), ErrorKind>(e) && *final(b) == *b,
                Ok(n) => r is Ok && final(b).data@ == resized_data(b.data@, n)
                    && final(b).max_byte_length == b.max_byte_length
                    && final(b).shared == b.shared && final(b).detached == b.detached,
            },
        },
{
    let b = match receiver {
        None => return Err(ErrorKind::TypeError),
        Some(b) => b,
    };
    if !b.shared {
        return Err(ErrorKind::TypeError);
    }
    let max = match b.max_byte_length {
        None => return Err(ErrorKind::TypeError),
        Some(m) => m,
    };
    let n = match to_integer(new_length) {
        Ok(n) => n,
        Err(e) => return Err(e),
    };
    if n < 0 || n == i64::MAX || n as u64 > max as u64 {
        return Err(ErrorKind::RangeError);
    }
    let new_len = n as usize;
    if new_len < b.data.len() {
        return Err(ErrorKind::RangeError);
    }
    resize_bytes(&mut b.data, new_len);
    Ok(())
}

/// The clamped position of a relative index: negative values count from
/// `len`, and the result lies in `0..=len`.
pub open spec fn spec_relative_index(raw: i64, len: int) -> int {
    if raw < 0 {
        if len + raw < 0 {
            0
        } else {
            len + raw
        }
    } else if raw > len {
        len
    } else {
        raw as int
    }
}

fn relative_index(raw: i64, len: usize) -> (r: usize)
    requires
        len <= i64::MAX,
    ensures
        r == spec_relative_index(raw, len as int),
{
    let l = len as i64;
    if raw < 0 {
        if raw < -l {
            0
        } else {
            (l + raw) as usize
        }
    } else if raw > l {
        len
    } else {
        raw as usize
    }
}

/// The bytes a `slice` copies: `length` bytes from `start`.
#[derive(Clone, Copy, Debug, PartialEq, Eq, Structural)]
pub struct SliceRange {
    pub start: usize,
    pub length: usize,
}

/// The range `slice(start, end)` copies from a buffer of `len` bytes;
/// `None` arguments are absent ones.
pub open spec fn spec_slice_range(len: nat, start: Option<IndexArg>, end: Option<IndexArg>) -> Result<
    SliceRange,
    ErrorKind,
> {
    let s = match start {
        None => Ok(0i64),
        Some(a) => spec_to_integer(a),
    };
    let e = match end {
        None | Some(IndexArg::Undefined) => Ok(len as i64),
        Some(a) => spec_to_integer(a),
    };
    match s {
        Err(err) => Err(err),
        Ok(si) => match e {
            Err(err) => Err(err),
            Ok(ei) => {
                let first = spec_relative_index(si, len as int);
                let last = spec_relative_index(ei, len as int);
                Ok(
                    SliceRange {
                        start: first as usize,
                        length: (if last > first {
                            last - first
                        } else {
                            0
                        }) as usize,
                    },
                )
            },
        },
    }
}

/// `slice(start, end)` with `0 <= start <= end <= len` copies exactly the
/// `end - start` bytes from `start`; a negative argument counts from the
/// end (`slice(-k)` copies the last `k` bytes), an absent end means the
/// end of the buffer, and an end before the start copies nothing.
pub proof fn law_slice_range_copies_between(len: nat, start: i64, end: i64, k: i64)
    requires
        len <= i64::MAX,
        0 <= start <= end <= len,
        0 < k <= len,
    ensures
        spec_slice_range(len, Some(IndexArg::Integral(start)), Some(IndexArg::Integral(end))) == Ok::<
            SliceRange,
            ErrorKind,
        >(SliceRange { start: start as usize, length: (end - start) as usize }),
        spec_slice_range(len, Some(IndexArg::Integral(start)), None) == Ok::<SliceRange, ErrorKind>(
            SliceRange { start: start as usize, length: (len - start) as usize },
        ),
        spec_slice_range(len, Some(IndexArg::Integral((-k) as i64)), None) == Ok::<SliceRange, ErrorKind>(
            SliceRange { start: (len - k) as usize, length: k as usize },
        ),
        spec_slice_range(len, Some(IndexArg::Integral(end)), Some(IndexArg::Integral(start))) == Ok::<
            SliceRange,
            ErrorKind,
        >(SliceRange { start: end as usize, length: 0 }),
        spec_slice_range(len, Some(IndexArg::Integral(start)), Some(IndexArg::Integral((-k) as i64)))
            == Ok::<SliceRange, ErrorKind>(
            SliceRange {
                start: start as usize,
                length: (if len - k > start {
                    len - k - start
                } else {
                    0
                }) as usize,
            },
        ),
{
}

/// Whatever the arguments, a slice stays inside the buffer, and a start at
/// or past the end copies nothing.
pub proof fn law_slice_range_inside(len: nat, start: Option<IndexArg>, end: Option<IndexArg>)
    requires
        len <= i64::MAX,
        len <= usize::MAX,
    ensures
        spec_slice_range(len, start, end) matches Ok(r) ==> r.start + r.length <= len,
        match (start, spec_slice_range(len, start, end)) {
            (Some(IndexArg::Integral(a)), Ok(r)) => a >= len ==> r.start == len && r.length == 0,
            _ => true,
        },
{
    if let Some(IndexArg::Integral(a)) = start {
        if a >= len {
            assert(spec_relative_index(a, len as int) == len);
        }
    }
}

fn slice_range(len: usize, start: Option<IndexArg>, end: Option<IndexArg>) -> (r: Result<
    SliceRange,
    ErrorKind,
>)
    requires
        len <= i64::MAX,
    ensures
        r == spec_slice_range(len as nat, start, end),
        r is Ok ==> r->Ok_0.start + r->Ok_0.length <= len,
{
    let s = match start {
        None => 0i64,
        Some(a) => match to_integer(a) {
            Ok(v) => v,
            Err(e) => return Err(e),
        },
    };
    let e = match end {
        None | Some(IndexArg::Undefined) => len as i64,
        Some(a) => match to_integer(a) {
            Ok(v) => v,
            Err(e) => return Err(e),
        },
    };
    let first = relative_index(s, len);
    let last = relative_index(e, len);
    let length = if last > first {
        last - first
    } else {
        0
    };
    Ok(SliceRange { start: first, length })
}

/// `SharedArrayBuffer.prototype.slice(start, end)` up to the species
/// constructor: checks the receiver and finds the bytes to copy.
pub fn handle_sharedarraybuffer_slice(
    receiver: Option<&JSArrayBuffer>,
    start: Option<IndexArg>,
    end: Option<IndexArg>,
) -> (r: Result<SliceRange, ErrorKind>)
    requires
        receiver is Some ==> receiver.unwrap().data@.len() <= i64::MAX,
    ensures
        !is_shared_receiver(receiver) ==> r == Err::<SliceRange, ErrorKind>(ErrorKind::TypeError),
        is_shared_receiver(receiver) ==> r == spec_slice_range(
            receiver.unwrap().data@.len(),
            start,
            end,
        ),
        r is Ok ==> r->Ok_0.start + r->Ok_0.length <= receiver.unwrap().data@.len(),
{
    match receiver {
        None => Err(ErrorKind::TypeError),
        Some(b) => if !b.shared {
            Err(ErrorKind::TypeError)
        } else {
            slice_range(b.data.len(), start, end)
        },
    }
}

/// The checks on the buffer a species constructor returned for `slice`:
/// `target_len` is `None` when it has no `[[ArrayBufferData]]`.
pub fn validate_species_buffer(target_len: Option<usize>, same_object: bool, length: usize) -> (r: Result<
    (),
    ErrorKind,
>)
    ensures
        r is Ok <==> (target_len is Some && !same_object && target_len.unwrap() >= length),
        r is Err ==> r == Err::<(), ErrorKind>(ErrorKind::TypeError),
{
    match target_len {
        None => Err(ErrorKind::TypeError),
        Some(t) => if same_object || t < length {
            Err(ErrorKind::TypeError)
        } else {
            Ok(())
        },
    }
}

/// Copies the sliced bytes to the front of the buffer the species
/// constructor returned.
pub fn copy_slice_bytes(source: &JSArrayBuffer, range: SliceRange, target: &mut JSArrayBuffer)
    requires
        range.start + range.length <= source.data@.len(),
        range.length <= old(target).data@.len(),
    ensures
        final(target).data@ == source.data@.subrange(
            range.start as int,
            range.start + range.length,
        ) + old(target).data@.subrange(range.length as int, old(target).data@.len() as int),
        final(target).max_byte_length == old(target).max_byte_length,
        final(target).shared == old(target).shared,
        final(target).detached == old(target).detached,
{
    let src_len = source.data.len();
    let mut i: usize = 0;
    while i < range.length
        invariant
            i <= range.length,
            range.start + range.length <= source.data@.len(),
            src_len == source.data@.len(),
            range.length <= old(target).data@.len(),
            target.data@.len() == old(target).data@.len(),
            forall|k: int| 0 <= k < i ==> target.data@[k] == source.data@[range.start + k],
            forall|k: int| i <= k < target.data@.len() ==> target.data@[k] == old(target).data@[k],
            target.max_byte_length == old(target).max_byte_length,
            target.shared == old(target).shared,
            target.detached == old(target).detached,
        decreases range.length - i,
    {
        let byte = source.data[range.start + i];
        target.data.set(i, byte);
        i = i + 1;
    }
    assert(target.data@ =~= source.data@.subrange(range.start as int, range.start + range.length)
        + old(target).data@.subrange(range.length as int, old(target).data@.len() as int));
}

/// The buffer `slice` makes when no species constructor is given: the
/// sliced bytes, fixed length.
pub fn new_slice_buffer(source: &JSArrayBuffer, range: SliceRange, shared: bool) -> (r: JSArrayBuffer)
    requires
        range.start + range.length <= source.data@.len(),
    ensures
        r.data@ == source.data@.subrange(range.start as int, range.start + range.length),
        r.max_byte_length is None,
        r.shared == shared,
        !r.detached,
{
    let src_len = source.data.len();
    let mut data: Vec<u8> = Vec::new();
    let mut i: usize = 0;
    while i < range.length
        invariant
            i <= range.length,
            range.start + range.length <= source.data@.len(),
            src_len == source.data@.len(),
            data@ == source.data@.subrange(range.start as int, range.start + i),
        decreases range.length - i,
    {
        data.push(source.data[range.start + i]);
        i = i + 1;
        assert(data@ =~= source.data@.subrange(range.start as int, range.start + i));
    }
    JSArrayBuffer { data, max_byte_length: None, shared, detached: false }
}

/// The methods of `ArrayBuffer.prototype` with their arguments (`None`
/// for an absent one).
#[derive(Clone, Copy, Debug, PartialEq, Eq, Structural)]
pub enum ArrayBufferMethod {
    Slice { start: Option<IndexArg>, end: Option<IndexArg> },
    Resize(Option<IndexArg>),
    /// Any other name, which answers `undefined`.
    Other,
}

/// What an `ArrayBuffer.prototype` method did: `slice` hands back the
/// range its species step copies.
#[derive(Clone, Copy, Debug, PartialEq, Eq, Structural)]
pub enum ArrayBufferMethodResult {
    Slice(SliceRange),
    Resized,
    Undefined,
}

/// The new byte length `ArrayBuffer.prototype.resize` sets, or its error.
pub open spec fn spec_resize(b: JSArrayBuffer, new_length: Option<IndexArg>) -> Result<nat, ErrorKind> {
    match b.max_byte_length {
        None => Err(ErrorKind::TypeError),
        Some(max) => match new_length {
            None => Err(ErrorKind::TypeError),
            Some(a) => match spec_to_integer(a) {
                Err(e) => Err(e),
                Ok(n) => if b.detached {
                    Err(ErrorKind::TypeError)
                } else if n < 0 || n == i64::MAX || n > MAX_BUFFER_LENGTH || n > max {
                    Err(ErrorKind::RangeError)
                } else {
                    Ok(n as nat)
                },
            },
        },
    }
}

/// `ArrayBuffer.prototype.slice` (up to the species constructor) and
/// `ArrayBuffer.prototype.resize`; `receiver` is `None` when `this` has no
/// `[[ArrayBufferData]]`.
pub fn handle_arraybuffer_method(receiver: Option<&mut JSArrayBuffer>, method: ArrayBufferMethod) -> (r:
    Result<ArrayBufferMethodResult, ErrorKind>)
    requires
        match receiver {
            None => true,
            Some(b) => b.data@.len() <= i64::MAX,
        },
    ensures
        method == ArrayBufferMethod::Other ==> r == Ok::<ArrayBufferMethodResult, ErrorKind>(
            ArrayBufferMethodResult::Undefined,
        ),
        match receiver {
            None => method != ArrayBufferMethod::Other ==> r == Err::<
                ArrayBufferMethodResult,
                ErrorKind,
            >(ErrorKind::TypeError),
            Some(b) => match method {
                ArrayBufferMethod::Slice { start, end } => *final(b) == *b && if b.shared {
                    r == Err::<ArrayBufferMethodResult, ErrorKind>(ErrorKind::TypeError)
                } else {
                    match spec_slice_range(b.data@.len(), start, end) {
                        Err(e) => r == Err::<ArrayBufferMethodResult, ErrorKind>(e),
                        Ok(range) => r == Ok::<ArrayBufferMethodResult, ErrorKind>(
                            ArrayBufferMethodResult::Slice(range),
                        ) && range.start + range.length <= b.data@.len(),
                    }
                },
                ArrayBufferMethod::Resize(arg) => match spec_resize(*b, arg) {
                    Err(e) => r == Err::<ArrayBufferMethodResult, ErrorKind>(e) && *final(b)
                        == *b,
                    Ok(n) => r == Ok::<ArrayBufferMethodResult, ErrorKind>(
                        ArrayBufferMethodResult::Resized,
                    ) && final(b).data@ == resized_data(b.data@, n)
                        && final(b).max_byte_length == b.max_byte_length
                        && final(b).shared == b.shared && final(b).detached == b.detached,
                },
                ArrayBufferMethod::Other => *final(b) == *b,
            },
        },
{
    if method == ArrayBufferMethod::Other {
        return Ok(ArrayBufferMethodResult::Undefined);
    }
    let b = match receiver {
        None => return Err(ErrorKind::TypeError),
        Some(b) => b,
    };
    match method {
        ArrayBufferMethod::Slice { start, end } => {
            if b.shared {
                return Err(ErrorKind::TypeError);
            }
            match slice_range(b.data.len(), start, end) {
                Ok(range) => Ok(ArrayBufferMethodResult::Slice(range)),
                Err(e) => Err(e),
            }
        },
        ArrayBufferMethod::Resize(arg) => {
            let max = match b.max_byte_length {
                None => return Err(ErrorKind::TypeError),
                Some(m) => m,
            };
            let a = match arg {
                None => return Err(ErrorKind::TypeError),
                Some(a) => a,
            };
            let n = match to_integer(a) {
                Ok(n) => n,
                Err(e) => return Err(e),
            };
            if b.detached {
                return Err(ErrorKind::TypeError);
            }
            if n < 0 || n == i64::MAX || n as u64 > MAX_BUFFER_LENGTH || n as u64 > max as u64 {
                return Err(ErrorKind::RangeError);
            }
            resize_bytes(&mut b.data, n as usize);
            Ok(ArrayBufferMethodResult::Resized)
        },
        ArrayBufferMethod::Other => Ok(ArrayBufferMethodResult::Undefined),
    }
}

} // verus!
