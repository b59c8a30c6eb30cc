//! Little- and big-endian encoding of unsigned integers in byte buffers, and
//! the two's-complement reading of signed values.
use vstd::arithmetic::div_mod::{lemma_div_denominator, lemma_mod_breakdown, lemma_mod_bound};
use vstd::prelude::*;

verus! {

pub open spec fn pow256(n: nat) -> nat
    decreases n,
{
    if n == 0 {
        1
    } else {
        256 * pow256((n - 1) as nat)
    }
}

/// Value of bytes stored least significant first.
pub open spec fn le_value(b: Seq<u8>) -> nat
    decreases b.len(),
{
    if b.len() == 0 {
        0
    } else {
        (b[0] + 256 * le_value(b.drop_first())) as nat
    }
}

/// Value of bytes stored most significant first.
pub open spec fn be_value(b: Seq<u8>) -> nat
    decreases b.len(),
{
    if b.len() == 0 {
        0
    } else {
        (be_value(b.drop_last()) * 256 + b.last()) as nat
    }
}

pub open spec fn bytes_value(b: Seq<u8>, little_endian: bool) -> nat {
    if little_endian {
        le_value(b)
    } else {
        be_value(b)
    }
}

/// The `i`-th least significant byte of `v`.
pub open spec fn byte_at(v: nat, i: nat) -> u8 {
    ((v / pow256(i)) % 256) as u8
}

/// The `n` low bytes of `v` in the given byte order.
pub open spec fn encode(v: nat, n: nat, little_endian: bool) -> Seq<u8> {
    Seq::new(n, |k: int| if little_endian { byte_at(v, k as nat) } else { byte_at(v, (n - 1 - k) as nat) })
}

pub proof fn lemma_pow256_pos(n: nat)
    ensures
        pow256(n) > 0,
    decreases n,
{
    if n > 0 {
        lemma_pow256_pos((n - 1) as nat);
    }
}

proof fn lemma_byte_at_shift(v: nat, k: nat)
    ensures
        byte_at(v, k + 1) == byte_at(v / 256, k),
{
    lemma_pow256_pos(k);
    lemma_div_denominator(v as int, 256, pow256(k) as int);
    assert(pow256(k + 1) == 256 * pow256(k));
}

/// Reading back the `n` bytes that encode `v` gives `v` modulo `256^n`.
pub proof fn lemma_decode_encode(v: nat, n: nat, little_endian: bool)
    ensures
        bytes_value(encode(v, n, little_endian), little_endian) == v % pow256(n),
    decreases n,
{
    lemma_pow256_pos(n);
    if n == 0 {
        assert(encode(v, 0, little_endian) =~= Seq::<u8>::empty());
    } else {
        let m = (n - 1) as nat;
        lemma_decode_encode(v / 256, m, little_endian);
        lemma_pow256_pos(m);
        lemma_mod_breakdown(v as int, 256, pow256(m) as int);
        assert(byte_at(v, 0) == v % 256) by {
            lemma_mod_bound(v as int, 256);
            assert(pow256(0) == 1);
            assert(v / 1 == v);
        }
        let e = encode(v, n, little_endian);
        let e2 = encode(v / 256, m, little_endian);
        if little_endian {
            assert(e.drop_first() =~= e2) by {
                assert forall|k: int| 0 <= k < m implies e.drop_first()[k] == e2[k] by {
                    lemma_byte_at_shift(v, k as nat);
                }
            }
            assert(le_value(e) == e[0] + 256 * le_value(e.drop_first()));
        } else {
            assert(e.drop_last() =~= e2) by {
                assert forall|k: int| 0 <= k < m implies e.drop_last()[k] == e2[k] by {
                    lemma_byte_at_shift(v, (m - 1 - k) as nat);
                }
            }
            assert(be_value(e) == be_value(e.drop_last()) * 256 + e.last());
        }
        assert(pow256(n) == 256 * pow256(m));
        assert(v % (256 * pow256(m)) == 256 * ((v / 256) % pow256(m)) + v % 256);
    }
}

pub proof fn lemma_le_value_bound(b: Seq<u8>)
    ensures
        le_value(b) < pow256(b.len()),
    decreases b.len(),
{
    if b.len() > 0 {
        lemma_le_value_bound(b.drop_first());
        let r = le_value(b.drop_first());
        let p = pow256((b.len() - 1) as nat);
        assert(b[0] + 256 * r < 256 * p) by (nonlinear_arith)
            requires
                r < p,
                b[0] < 256,
        ;
    }
}

pub proof fn lemma_be_value_bound(b: Seq<u8>)
    ensures
        be_value(b) < pow256(b.len()),
    decreases b.len(),
{
    if b.len() > 0 {
        lemma_be_value_bound(b.drop_last());
        let r = be_value(b.drop_last());
        let p = pow256((b.len() - 1) as nat);
        assert(r * 256 + b.last() < 256 * p) by (nonlinear_arith)
            requires
                r < p,
                b.last() < 256,
        ;
    }
}

pub proof fn lemma_pow256_values()
    ensures
        pow256(1) == 256,
        pow256(2) == 65536,
        pow256(4) == 4294967296,
        pow256(8) == 18446744073709551616,
{
    reveal_with_fuel(pow256, 9);
}

/// The unsigned value of the `n` bytes of `data` at `idx`.
pub fn read_uint(data: &Vec<u8>, idx: usize, n: usize, little_endian: bool) -> (r: u64)
    requires
        1 <= n <= 8,
        idx + n <= data@.len(),
    ensures
        r as nat == bytes_value(data@.subrange(idx as int, idx + n), little_endian),
{
    let ghost b = data@.subrange(idx as int, idx + n);
    let dlen = data.len();
    proof {
        lemma_pow256_values();
        lemma_le_value_bound(b);
        lemma_be_value_bound(b);
        assert(pow256(n as nat) <= pow256(8)) by {
            lemma_pow256_monotone(n as nat, 8);
        }
    }
    let mut v: u64 = 0;
    if little_endian {
        let mut k: usize = n;
        while k > 0
            invariant
                k <= n <= 8,
                idx + n <= dlen,
                dlen == data@.len(),
                b == data@.subrange(idx as int, idx + n),
                v as nat == le_value(b.subrange(k as int, n as int)),
            decreases k,
        {
            let ghost tail = b.subrange(k as int, n as int);
            let ghost ext = b.subrange(k - 1, n as int);
            assert(ext.drop_first() =~= tail);
            proof {
                lemma_le_value_bound(ext);
                lemma_pow256_monotone(ext.len(), 8);
                lemma_pow256_values();
            }
            assert(ext[0] == data@[idx + k - 1]);
            v = data[idx + k - 1] as u64 + 256 * v;
            k = k - 1;
        }
        assert(b.subrange(0, n as int) =~= b);
    } else {
        let mut k: usize = 0;
        while k < n
            invariant
                k <= n <= 8,
                idx + n <= dlen,
                dlen == data@.len(),
                b == data@.subrange(idx as int, idx + n),
                v as nat == be_value(b.subrange(0, k as int)),
            decreases n - k,
        {
            let ghost pre = b.subrange(0, k as int);
            let ghost ext = b.subrange(0, k + 1);
            assert(ext.drop_last() =~= pre);
            proof {
                lemma_be_value_bound(ext);
                lemma_pow256_monotone(ext.len(), 8);
                lemma_pow256_values();
            }
            assert(ext.last() == data@[idx + k]);
            v = v * 256 + data[idx + k] as u64;
            k = k + 1;
        }
        assert(b.subrange(0, n as int) =~= b);
    }
    v
}

pub proof fn lemma_pow256_monotone(a: nat, b: nat)
    requires
        a <= b,
    ensures
        pow256(a) <= pow256(b),
    decreases b,
{
    if a < b {
        lemma_pow256_monotone(a, (b - 1) as nat);
        lemma_pow256_pos((b - 1) as nat);
    }
}

/// Stores the `n` low bytes of `v` at `idx` in the given byte order.
pub fn write_uint(data: &mut Vec<u8>, idx: usize, n: usize, v: u64, little_endian: bool)
    requires
        1 <= n <= 8,
        idx + n <= old(data)@.len(),
    ensures
        final(data)@ == old(data)@.subrange(0, idx as int) + encode(v as nat, n as nat, little_endian)
            + old(data)@.subrange(idx + n, old(data)@.len() as int),
{
    let ghost orig = data@;
    let ghost e = encode(v as nat, n as nat, little_endian);
    let dlen = data.len();
    let mut cur: u64 = v;
    let mut j: usize = 0;
    proof {
        lemma_pow256_pos(0);
    }
    while j < n
        invariant
            j <= n <= 8,
            idx + n <= orig.len(),
            dlen == orig.len(),
            data@.len() == orig.len(),
            e == encode(v as nat, n as nat, little_endian),
            cur as nat == v as nat / pow256(j as nat),
            forall|p: int|
                0 <= p < data@.len() ==> #[trigger] data@[p] == if idx <= p < idx + n && (
                    if little_endian {
                        p - idx < j
                    } else {
                        idx + n - 1 - p < j
                    }
                ) {
                    e[p - idx]
                } else {
                    orig[p]
                },
        decreases n - j,
    {
        let byte: u8 = (cur % 256) as u8;
        assert(byte == byte_at(v as nat, j as nat));
        let pos = if little_endian {
            idx + j
        } else {
            idx + n - 1 - j
        };
        data.set(pos, byte);
        proof {
            lemma_pow256_pos(j as nat);
            lemma_div_denominator(v as int, pow256(j as nat) as int, 256);
            assert(pow256((j + 1) as nat) == 256 * pow256(j as nat));
            assert(pow256(j as nat) * 256 == 256 * pow256(j as nat));
        }
        cur = cur / 256;
        j = j + 1;
    }
    assert(data@ =~= orig.subrange(0, idx as int) + e + orig.subrange(idx + n, orig.len() as int));
}

} // verus!
