//! The decisions of `Atomics.wait` and `Atomics.notify`: which arrays they
//! accept, what `wait` answers without blocking, how many waiters `notify`
//! wakes, and the queue of waiters it wakes them from.
use crate::byte_codec::{bytes_value, lemma_le_value_bound, lemma_pow256_values, read_uint};
use crate::error::ErrorKind;
use crate::typed_array::{JSArrayBuffer, JSTypedArray, TypedArrayKind, spec_element_size, to_signed};
use crate::typed_array_ops::{
    IndexArg, element_position, spec_atomic_length, spec_out_of_bounds, spec_to_index,
    validate_atomic_access, validate_integer_typed_array,
};
use vstd::prelude::*;

verus! {

/// `wait` and `notify` only work on Int32Array and BigInt64Array.
pub open spec fn spec_is_waitable_kind(kind: TypedArrayKind) -> bool {
    kind == TypedArrayKind::Int32 || kind == TypedArrayKind::BigInt64
}

/// The errors ValidateIntegerTypedArray and ValidateAtomicAccess raise, in
/// order, followed by the check of `extra` (the wait/notify kind check and,
/// for `wait`, the shared-buffer check).
pub open spec fn spec_validate_index(ta: JSTypedArray, buffer: JSArrayBuffer, index: IndexArg, shared_needed: bool) -> Result<
    usize,
    ErrorKind,
> {
    let atomic_kind = match ta.kind {
        TypedArrayKind::Float16 | TypedArrayKind::Float32 | TypedArrayKind::Float64
        | TypedArrayKind::Uint8Clamped => false,
        _ => true,
    };
    if !atomic_kind || buffer.detached {
        Err(ErrorKind::TypeError)
    } else if !spec_is_waitable_kind(ta.kind) {
        Err(ErrorKind::TypeError)
    } else if shared_needed && !buffer.shared {
        Err(ErrorKind::TypeError)
    } else {
        match spec_to_index(index) {
            Err(e) => Err(e),
            Ok(i) => if i >= spec_atomic_length(ta, buffer.data@.len()) {
                Err(ErrorKind::RangeError)
            } else {
                Ok(i as usize)
            },
        }
    }
}

fn validate_waitable(ta: &JSTypedArray, buffer: &JSArrayBuffer, index: IndexArg, shared_needed: bool) -> (r: Result<
    usize,
    ErrorKind,
>)
    ensures
        r == spec_validate_index(*ta, *buffer, index, shared_needed),
{
    if let Err(e) = validate_integer_typed_array(ta, buffer) {
        return Err(e);
    }
    let waitable = match ta.kind {
        TypedArrayKind::Int32 | TypedArrayKind::BigInt64 => true,
        _ => false,
    };
    if !waitable {
        return Err(ErrorKind::TypeError);
    }
    if shared_needed && !buffer.shared {
        return Err(ErrorKind::TypeError);
    }
    match validate_atomic_access(ta, buffer, index) {
        Ok(i) => Ok(i),
        Err(e) => Err(e),
    }
}

/// The checks `Atomics.wait(ta, index, ...)` makes before it converts the
/// expected value: returns the element index.
pub fn atomics_wait_validate(ta: &JSTypedArray, buffer: &JSArrayBuffer, index: IndexArg) -> (r: Result<
    usize,
    ErrorKind,
>)
    ensures
        r == spec_validate_index(*ta, *buffer, index, true),
{
    validate_waitable(ta, buffer, index, true)
}

/// The timeout of `wait`, as the engine converted it.
#[derive(Clone, Copy, Debug, PartialEq, Eq, Structural)]
pub enum WaitTimeout {
    /// Missing, `undefined` or NaN: wait without limit.
    Forever,
    /// Zero or negative.
    NotPositive,
    /// Positive, in whole milliseconds.
    Millis(u64),
}

/// What `wait` does once the value was compared.
#[derive(Clone, Copy, Debug, PartialEq, Eq, Structural)]
pub enum WaitOutcome {
    /// The element differs from the expected value: answer "not-equal".
    NotEqual,
    /// The timeout is not positive: answer "timed-out".
    TimedOut,
    /// Block on the element at this byte position, for at most `timeout`
    /// milliseconds when there is one.
    Block { byte_index: usize, timeout: Option<u64> },
}

/// The value of the element at a validated index, read as little-endian
/// Int32 or BigInt64.
pub open spec fn spec_wait_current(ta: JSTypedArray, data: Seq<u8>, idx: nat) -> int {
    let p = element_position(ta, idx);
    let es = spec_element_size(ta.kind);
    to_signed(bytes_value(data.subrange(p, p + es), true), es)
}

pub open spec fn spec_wait_outcome(ta: JSTypedArray, data: Seq<u8>, idx: nat, expected: i64, timeout: WaitTimeout) -> WaitOutcome {
    if spec_wait_current(ta, data, idx) != expected {
        WaitOutcome::NotEqual
    } else {
        match timeout {
            WaitTimeout::NotPositive => WaitOutcome::TimedOut,
            WaitTimeout::Forever => WaitOutcome::Block { byte_index: element_position(ta, idx) as usize, timeout: None },
            WaitTimeout::Millis(ms) => WaitOutcome::Block {
                byte_index: element_position(ta, idx) as usize,
                timeout: Some(ms),
            },
        }
    }
}

/// The position of an element below the atomic length fits in `usize`.
proof fn lemma_element_position_fits(ta: JSTypedArray, len: nat, idx: nat)
    requires
        ta.wf(),
        idx < spec_atomic_length(ta, len),
        len <= usize::MAX,
    ensures
        element_position(ta, idx) <= usize::MAX,
{
    let es = spec_element_size(ta.kind);
    assert(es > 0);
    if ta.length_tracking {
        let a: nat = if len > ta.byte_offset {
            (len - ta.byte_offset) as nat
        } else {
            0nat
        };
        let q = a / es;
        assert(q * es <= a) by (nonlinear_arith)
            requires
                es > 0,
                q == a / es,
        ;
        assert(idx * es <= q * es) by (nonlinear_arith)
            requires
                idx <= q,
                es > 0,
        ;
    } else {
        assert(idx * es <= ta.length * es) by (nonlinear_arith)
            requires
                idx <= ta.length,
                es > 0,
        ;
    }
}

/// An index below the atomic length of an array that is not out of bounds
/// names an element that lies inside the buffer.
proof fn lemma_element_in_buffer(ta: JSTypedArray, len: nat, idx: nat)
    requires
        !spec_out_of_bounds(ta, len),
        idx < spec_atomic_length(ta, len),
    ensures
        element_position(ta, idx) + spec_element_size(ta.kind) <= len,
{
    let es = spec_element_size(ta.kind);
    assert(es > 0);
    if ta.length_tracking {
        let a = (len - ta.byte_offset) as nat;
        let q = a / es;
        assert(q * es <= a) by (nonlinear_arith)
            requires
                es > 0,
                q == a / es,
        ;
        assert((idx + 1) * es <= q * es) by (nonlinear_arith)
            requires
                idx + 1 <= q,
                es > 0,
        ;
        assert(idx * es + es == (idx + 1) * es) by (nonlinear_arith);
    } else {
        assert((idx + 1) * es <= ta.length * es) by (nonlinear_arith)
            requires
                idx + 1 <= ta.length,
                es > 0,
        ;
        assert(idx * es + es == (idx + 1) * es) by (nonlinear_arith);
    }
}

/// `Atomics.wait` after the index was validated and the expected value
/// converted: compares the element with `expected` and decides whether to
/// block.
pub fn atomics_wait_outcome(
    ta: &JSTypedArray,
    buffer: &JSArrayBuffer,
    idx: usize,
    expected: i64,
    timeout: WaitTimeout,
) -> (r: WaitOutcome)
    requires
        spec_is_waitable_kind(ta.kind),
        ta.wf(),
        !spec_out_of_bounds(*ta, buffer.data@.len()),
        idx < spec_atomic_length(*ta, buffer.data@.len()),
    ensures
        r == spec_wait_outcome(*ta, buffer.data@, idx as nat, expected, timeout),
{
    proof {
        lemma_pow256_values();
    }
    let es = ta.element_size();
    let dlen = buffer.data.len();
    proof {
        lemma_element_in_buffer(*ta, dlen as nat, idx as nat);
    }
    let byte_index = ta.byte_offset + idx * es;
    let u = read_uint(&buffer.data, byte_index, es, true);
    proof {
        lemma_le_value_bound(buffer.data@.subrange(byte_index as int, byte_index + es));
    }
    let current: i64 = if es == 8 {
        if u >= 0x8000_0000_0000_0000 {
            (u - 0x8000_0000_0000_0000) as i64 - 0x7FFF_FFFF_FFFF_FFFF - 1
        } else {
            u as i64
        }
    } else {
        if u >= 0x8000_0000 {
            u as i64 - 0x1_0000_0000
        } else {
            u as i64
        }
    };
    if current != expected {
        return WaitOutcome::NotEqual;
    }
    match timeout {
        WaitTimeout::NotPositive => WaitOutcome::TimedOut,
        WaitTimeout::Forever => WaitOutcome::Block { byte_index, timeout: None },
        WaitTimeout::Millis(ms) => WaitOutcome::Block { byte_index, timeout: Some(ms) },
    }
}

/// The `count` argument of `notify`, as the engine converted it.
#[derive(Clone, Copy, Debug, PartialEq, Eq, Structural)]
pub enum CountArg {
    /// Missing or `undefined`: every waiter.
    Undefined,
    /// +∞.
    PosInfinity,
    /// The truncated number (NaN counts as 0, −∞ and numbers below
    /// −2^63 as `i64::MIN`, numbers from 2^63 on as `i64::MAX`).
    Integral(i64),
}

/// How many waiters `notify` may wake.
pub open spec fn spec_notify_count(count: CountArg) -> usize {
    match count {
        CountArg::Undefined | CountArg::PosInfinity => usize::MAX,
        CountArg::Integral(n) => if n <= 0 {
            0
        } else {
            n as usize
        },
    }
}

/// What `Atomics.notify` does after its checks.
#[derive(Clone, Copy, Debug, PartialEq, Eq, Structural)]
pub enum NotifyPlan {
    /// The buffer is not shared: answer 0.
    Zero,
    /// Wake at most `count` waiters on the element at `byte_index`.
    Wake { byte_index: usize, count: usize },
}

pub open spec fn spec_notify_plan(ta: JSTypedArray, buffer: JSArrayBuffer, index: IndexArg, count: CountArg) -> Result<
    NotifyPlan,
    ErrorKind,
> {
    match spec_validate_index(ta, buffer, index, false) {
        Err(e) => Err(e),
        Ok(i) => if !buffer.shared {
            Ok(NotifyPlan::Zero)
        } else {
            Ok(
                NotifyPlan::Wake {
                    byte_index: element_position(ta, i as nat) as usize,
                    count: spec_notify_count(count),
                },
            )
        },
    }
}

/// `Atomics.notify(ta, index, count)` up to the wake-up itself.
pub fn atomics_notify_plan(ta: &JSTypedArray, buffer: &JSArrayBuffer, index: IndexArg, count: CountArg) -> (r: Result<
    NotifyPlan,
    ErrorKind,
>)
    requires
        ta.wf(),
    ensures
        r == spec_notify_plan(*ta, *buffer, index, count),
{
    let idx = match validate_waitable(ta, buffer, index, false) {
        Ok(i) => i,
        Err(e) => return Err(e),
    };
    let n: usize = match count {
        CountArg::Undefined | CountArg::PosInfinity => usize::MAX,
        CountArg::Integral(n) => if n <= 0 {
            0
        } else {
            n as usize
        },
    };
    if !buffer.shared {
        return Ok(NotifyPlan::Zero);
    }
    let es = ta.element_size();
    let dlen = buffer.data.len();
    proof {
        lemma_element_position_fits(*ta, dlen as nat, idx as nat);
    }
    Ok(NotifyPlan::Wake { byte_index: ta.byte_offset + idx * es, count: n })
}

/// Wakes waiters in the order they started waiting: takes the first
/// `min(count, queue length)` of them out of `queue` and returns them.
pub fn take_waiters<W>(queue: &mut Vec<W>, count: usize) -> (woken: Vec<W>)
    ensures
        ({
            let k = if count < old(queue)@.len() {
                count as int
            } else {
                old(queue)@.len() as int
            };
            &&& woken@ == old(queue)@.take(k)
            &&& final(queue)@ == old(queue)@.skip(k)
        }),
{
    let mut woken: Vec<W> = Vec::new();
    let ghost q0 = queue@;
    let mut n: usize = 0;
    while n < count && queue.len() > 0
        invariant
            n <= count,
            n <= q0.len(),
            woken@ == q0.take(n as int),
            queue@ == q0.skip(n as int),
        decreases queue.len(),
    {
        let w = queue.remove(0);
        woken.push(w);
        n = n + 1;
        assert(woken@ =~= q0.take(n as int));
        assert(queue@ =~= q0.skip(n as int));
    }
    woken
}

} // verus!
