//! Fixed-width unsigned integers stored in byte buffers.

use vstd::arithmetic::div_mod::{lemma_div_denominator, lemma_mod_breakdown, lemma_small_mod};
use vstd::arithmetic::power::{lemma_pow0, lemma_pow_positive, pow};
use vstd::prelude::*;

verus! {

/// Byte `k` (counting from the least significant one) of `v`.
pub open spec fn byte_of(v: nat, k: nat) -> u8 {
    ((v / (pow(256, k) as nat)) % 256) as u8
}

/// The `size` bytes that encode `v` (truncated to that width), in the given byte order.
pub open spec fn encode(v: nat, size: nat, le: bool) -> Seq<u8> {
    Seq::new(
        size,
        |j: int|
            if le {
                byte_of(v, j as nat)
            } else {
                byte_of(v, (size - 1 - j) as nat)
            },
    )
}

/// The value of little-endian bytes.
pub open spec fn decode_le(b: Seq<u8>) -> nat
    decreases b.len(),
{
    if b.len() == 0 {
        0
    } else {
        b[0] as nat + 256 * decode_le(b.drop_first())
    }
}

/// The value of big-endian bytes.
pub open spec fn decode_be(b: Seq<u8>) -> nat
    decreases b.len(),
{
    if b.len() == 0 {
        0
    } else {
        decode_be(b.drop_last()) * 256 + b.last() as nat
    }
}

/// The value of bytes in the given byte order.
pub open spec fn decode(b: Seq<u8>, le: bool) -> nat {
    if le {
        decode_le(b)
    } else {
        decode_be(b)
    }
}

/// `buf` with `bytes` written over it from offset `at` on.
pub open spec fn overwrite(buf: Seq<u8>, at: int, bytes: Seq<u8>) -> Seq<u8> {
    Seq::new(buf.len(), |j: int| if at <= j < at + bytes.len() { bytes[j - at] } else { buf[j] })
}

proof fn lemma_pow_step(k: nat)
    ensures
        pow(256, k + 1) == 256 * pow(256, k),
        pow(256, k) > 0,
{
    lemma_pow_positive(256, k);
    reveal(pow);
}

proof fn lemma_byte_shift(v: nat, k: nat)
    ensures
        byte_of(v, k + 1) == byte_of(v / 256, k),
{
    lemma_pow_step(k);
    lemma_div_denominator(v as int, 256, pow(256, k));
}

proof fn lemma_mod_step(v: nat, s: nat)
    ensures
        (v % (pow(256, s + 1) as nat)) == (v % 256) + 256 * ((v / 256) % (pow(256, s) as nat)),
{
    lemma_pow_step(s);
    lemma_mod_breakdown(v as int, 256, pow(256, s));
}

proof fn lemma_decode_le_encode(v: nat, s: nat)
    ensures
        decode_le(encode(v, s, true)) == v % (pow(256, s) as nat),
    decreases s,
{
    if s == 0 {
        lemma_pow0(256);
    } else {
        let e = encode(v, s, true);
        let t = encode(v / 256, (s - 1) as nat, true);
        assert forall|j: int| 0 <= j < s - 1 implies e.drop_first()[j] == t[j] by {
            lemma_byte_shift(v, j as nat);
        }
        assert(e.drop_first() =~= t);
        lemma_decode_le_encode(v / 256, (s - 1) as nat);
        lemma_pow0(256);
        assert(e[0] == byte_of(v, 0));
        assert(v / 1 == v);
        lemma_mod_step(v, (s - 1) as nat);
        assert(decode_le(e) == e[0] as nat + 256 * decode_le(e.drop_first()));
    }
}

proof fn lemma_decode_be_encode(v: nat, s: nat)
    ensures
        decode_be(encode(v, s, false)) == v % (pow(256, s) as nat),
    decreases s,
{
    if s == 0 {
        lemma_pow0(256);
    } else {
        let e = encode(v, s, false);
        let t = encode(v / 256, (s - 1) as nat, false);
        assert forall|j: int| 0 <= j < s - 1 implies e.drop_last()[j] == t[j] by {
            lemma_byte_shift(v, (s - 2 - j) as nat);
        }
        assert(e.drop_last() =~= t);
        lemma_decode_be_encode(v / 256, (s - 1) as nat);
        lemma_pow0(256);
        assert(e.last() == byte_of(v, 0));
        assert(v / 1 == v);
        lemma_mod_step(v, (s - 1) as nat);
        assert(decode_be(e) == decode_be(e.drop_last()) * 256 + e.last() as nat);
    }
}

/// Decoding what `encode` wrote gives the value back, reduced to the width.
pub proof fn lemma_decode_encode(v: nat, size: nat, le: bool)
    ensures
        decode(encode(v, size, le), le) == v % (pow(256, size) as nat),
{
    if le {
        lemma_decode_le_encode(v, size);
    } else {
        lemma_decode_be_encode(v, size);
    }
}

/// A value below `256^size` survives the round trip unchanged.
pub proof fn lemma_decode_encode_exact(v: nat, size: nat, le: bool)
    requires
        v < pow(256, size),
    ensures
        decode(encode(v, size, le), le) == v,
{
    lemma_decode_encode(v, size, le);
    lemma_pow_positive(256, size);
    lemma_small_mod(v, pow(256, size) as nat);
}

/// Writes `value`, truncated to `size` bytes, into `buf[pos..pos + size]` in the given byte order.
pub fn store(buf: &mut [u8], pos: usize, value: u64, size: usize, le: bool)
    requires
        pos + size <= old(buf)@.len(),
    ensures
        final(buf)@ == overwrite(old(buf)@, pos as int, encode(value as nat, size as nat, le)),
{
    let ghost e = encode(value as nat, size as nat, le);
    let n = buf.len();
    proof {
        lemma_pow0(256);
        assert(value as nat / 1 == value as nat);
    }
    let mut x: u64 = value;
    let mut k: usize = 0;
    while k < size
        invariant
            k <= size,
            pos + size <= buf@.len(),
            n == buf@.len(),
            buf@.len() == old(buf)@.len(),
            e == encode(value as nat, size as nat, le),
            x as nat == value as nat / (pow(256, k as nat) as nat),
            forall|j: int|
                0 <= j < buf@.len() ==> #[trigger] buf@[j] == if le {
                    if pos <= j < pos + k {
                        e[j - pos]
                    } else {
                        old(buf)@[j]
                    }
                } else {
                    if pos + size - k <= j < pos + size {
                        e[j - pos]
                    } else {
                        old(buf)@[j]
                    }
                },
        decreases size - k,
    {
        let b: u8 = (x % 256) as u8;
        proof {
            lemma_pow_step(k as nat);
            lemma_div_denominator(value as int, pow(256, k as nat), 256);
        }
        if le {
            buf[pos + k] = b;
        } else {
            buf[pos + size - 1 - k] = b;
        }
        x = x / 256;
        k = k + 1;
    }
    assert(buf@ =~= overwrite(old(buf)@, pos as int, e));
}

/// Reads `size` bytes at `pos` as an unsigned integer in the given byte order.
pub fn load(buf: &[u8], pos: usize, size: usize, le: bool) -> (r: u64)
    requires
        pos + size <= buf@.len(),
        size <= 8,
    ensures
        r as nat == decode(buf@.subrange(pos as int, pos + size), le),
{
    let ghost b = buf@.subrange(pos as int, pos + size);
    let n = buf.len();
    proof {
        lemma_pow0(256);
    }
    let mut acc: u64 = 0;
    let mut k: usize = 0;
    while k < size
        invariant
            k <= size <= 8,
            pos + size <= buf@.len(),
            n == buf@.len(),
            b == buf@.subrange(pos as int, pos + size),
            acc as nat == if le {
                decode_le(b.subrange(size - k, size as int))
            } else {
                decode_be(b.subrange(0, k as int))
            },
            acc < pow(256, k as nat),
        decreases size - k,
    {
        proof {
            lemma_pow_step(k as nat);
            lemma_pow_small(k as nat);
        }
        let ghost prev = acc;
        if le {
            let byte = buf[pos + size - 1 - k];
            acc = acc * 256 + byte as u64;
            proof {
                let t = b.subrange(size - 1 - k, size as int);
                assert(t.drop_first() =~= b.subrange(size - k, size as int));
            }
        } else {
            let byte = buf[pos + k];
            acc = acc * 256 + byte as u64;
            proof {
                let t = b.subrange(0, k + 1);
                assert(t.drop_last() =~= b.subrange(0, k as int));
            }
        }
        k = k + 1;
    }
    assert(b.subrange(0, size as int) =~= b);
    acc
}

proof fn lemma_pow_small(k: nat)
    requires
        k < 8,
    ensures
        pow(256, k) * 256 <= 0x1_0000_0000_0000_0000,
{
    reveal_with_fuel(pow, 8);
    if k == 0 {
    } else if k == 1 {
    } else if k == 2 {
    } else if k == 3 {
    } else if k == 4 {
    } else if k == 5 {
    } else if k == 6 {
    } else {
        assert(k == 7);
    }
}

} // verus!
