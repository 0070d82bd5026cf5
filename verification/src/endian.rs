//! Byte order and the decoding of multi-byte integers from captured memory.

use vstd::prelude::*;

verus! {

/// Byte order used when decoding multi-byte integers from region bytes.
#[derive(Clone, Copy, PartialEq, Eq, Structural, Debug)]
pub enum Endianness {
    Little,
    Big,
}

/// The unsigned value of a byte sequence read least-significant-byte first.
pub open spec fn le_value(s: Seq<u8>) -> nat
    decreases s.len(),
{
    if s.len() == 0 {
        0
    } else {
        s[0] as nat + 256 * le_value(s.subrange(1, s.len() as int))
    }
}

/// The unsigned value of a byte sequence read most-significant-byte first.
pub open spec fn be_value(s: Seq<u8>) -> nat
    decreases s.len(),
{
    if s.len() == 0 {
        0
    } else {
        s[s.len() - 1] as nat + 256 * be_value(s.subrange(0, s.len() - 1))
    }
}

/// The unsigned value of a byte sequence in the given byte order.
pub open spec fn word_value(e: Endianness, s: Seq<u8>) -> nat {
    match e {
        Endianness::Little => le_value(s),
        Endianness::Big => be_value(s),
    }
}

/// The value of a four-byte sequence decoded as a two's-complement
/// signed 32-bit integer in the given byte order.
pub open spec fn i32_value(e: Endianness, s: Seq<u8>) -> int {
    let u = word_value(e, s);
    if u < 0x8000_0000 {
        u as int
    } else {
        u - 0x1_0000_0000
    }
}

/// 256 raised to the given power: the number of distinct values of that
/// many bytes.
pub open spec fn pow256(n: nat) -> nat
    decreases n,
{
    if n == 0 {
        1
    } else {
        256 * pow256((n - 1) as nat)
    }
}

pub proof fn lemma_le_value_bound(s: Seq<u8>)
    ensures
        le_value(s) < pow256(s.len()),
    decreases s.len(),
{
    if s.len() > 0 {
        lemma_le_value_bound(s.subrange(1, s.len() as int));
    }
}

pub proof fn lemma_be_value_bound(s: Seq<u8>)
    ensures
        be_value(s) < pow256(s.len()),
    decreases s.len(),
{
    if s.len() > 0 {
        lemma_be_value_bound(s.subrange(0, s.len() - 1));
    }
}

proof fn lemma_pow256_8_value()
    ensures
        pow256(8) == 0x1_0000_0000_0000_0000,
{
    reveal_with_fuel(pow256, 9);
}

proof fn lemma_pow256_monotone(a: nat, b: nat)
    requires
        a <= b,
    ensures
        pow256(a) <= pow256(b),
    decreases b,
{
    if a < b && b > 0 {
        lemma_pow256_monotone(a, (b - 1) as nat);
    }
}

/// Decodes up to eight bytes as an unsigned little-endian integer.
pub fn decode_le(bytes: &[u8]) -> (r: u64)
    requires
        bytes@.len() <= 8,
    ensures
        r as nat == le_value(bytes@),
{
    proof {
        lemma_pow256_8_value();
    }
    let n = bytes.len();
    let mut r: u64 = 0;
    let mut i: usize = n;
    while i > 0
        invariant
            bytes@.len() == n <= 8,
            i <= n,
            r as nat == le_value(bytes@.subrange(i as int, n as int)),
            (r as nat) < pow256((n - i) as nat),
        decreases i,
    {
        let b = *vstd::slice::slice_index_get(bytes, i - 1);
        proof {
            lemma_pow256_monotone((n - i + 1) as nat, 8);
            lemma_pow256_8_value();
            assert(bytes@.subrange(i - 1, n as int).subrange(1, (n - i + 1) as int)
                =~= bytes@.subrange(i as int, n as int));
        }
        r = r * 256 + b as u64;
        i = i - 1;
    }
    proof {
        assert(bytes@.subrange(0, n as int) =~= bytes@);
    }
    r
}

/// Decodes up to eight bytes as an unsigned big-endian integer.
pub fn decode_be(bytes: &[u8]) -> (r: u64)
    requires
        bytes@.len() <= 8,
    ensures
        r as nat == be_value(bytes@),
{
    proof {
        lemma_pow256_8_value();
    }
    let n = bytes.len();
    let mut r: u64 = 0;
    let mut i: usize = 0;
    while i < n
        invariant
            bytes@.len() == n <= 8,
            i <= n,
            r as nat == be_value(bytes@.subrange(0, i as int)),
            (r as nat) < pow256(i as nat),
        decreases n - i,
    {
        let b = *vstd::slice::slice_index_get(bytes, i);
        proof {
            lemma_pow256_monotone((i + 1) as nat, 8);
            lemma_pow256_8_value();
            assert(bytes@.subrange(0, i + 1).subrange(0, i as int)
                =~= bytes@.subrange(0, i as int));
        }
        r = r * 256 + b as u64;
        i = i + 1;
    }
    proof {
        assert(bytes@.subrange(0, n as int) =~= bytes@);
    }
    r
}

/// Decodes a byte sequence of length at most eight in the given byte order.
pub fn decode_word(bytes: &[u8], e: Endianness) -> (r: u64)
    requires
        bytes@.len() <= 8,
    ensures
        r as nat == word_value(e, bytes@),
{
    match e {
        Endianness::Little => decode_le(bytes),
        Endianness::Big => decode_be(bytes),
    }
}

/// Decodes exactly four bytes as a signed 32-bit displacement in the given
/// byte order.
pub fn decode_i32(bytes: &[u8], e: Endianness) -> (r: i32)
    requires
        bytes@.len() == 4,
    ensures
        r as int == i32_value(e, bytes@),
{
    proof {
        match e {
            Endianness::Little => lemma_le_value_bound(bytes@),
            Endianness::Big => lemma_be_value_bound(bytes@),
        }
        reveal_with_fuel(pow256, 5);
    }
    let u = decode_word(bytes, e);
    if u < 0x8000_0000 {
        u as i32
    } else if u == 0x8000_0000 {
        i32::MIN
    } else {
        let m: u64 = 0x1_0000_0000u64 - u;
        -(m as i32)
    }
}

} // verus!
