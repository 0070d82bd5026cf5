//! Cross-reference discovery inside a byte window: offsets holding an
//! absolute pointer-sized reference to a target address, or a 32-bit
//! displacement that lands on it relative to the program counter.

use vstd::prelude::*;

use crate::endian::{Endianness, decode_i32, decode_word, i32_value, word_value};
use crate::scan::{hits, lemma_hits_from_contains, lemma_hits_from_snoc};

verus! {

/// Whether the eight bytes at `o` hold the target address in the given
/// byte order.
pub open spec fn abs_ref_at(e: Endianness, bytes: Seq<u8>, o: int, target: usize) -> bool {
    &&& 0 <= o
    &&& o + 8 <= bytes.len()
    &&& word_value(e, bytes.subrange(o, o + 8)) == target
}

/// Whether the four bytes at `o`, read as a signed displacement past an
/// instruction of `instr_len` bytes loaded at `base + o`, land on the
/// target address.
pub open spec fn rel_ref_at(
    e: Endianness,
    bytes: Seq<u8>,
    o: int,
    base: usize,
    instr_len: usize,
    target: usize,
) -> bool {
    &&& 0 <= o
    &&& o + 4 <= bytes.len()
    &&& base + o + instr_len + i32_value(e, bytes.subrange(o, o + 4)) == target
}

/// Whether `o` references the target either way.
pub open spec fn any_ref_at(
    e: Endianness,
    bytes: Seq<u8>,
    o: int,
    base: usize,
    instr_len: usize,
    target: usize,
) -> bool {
    abs_ref_at(e, bytes, o, target) || rel_ref_at(e, bytes, o, base, instr_len, target)
}

/// All offsets holding an absolute reference, ascending.
pub open spec fn abs_offsets(e: Endianness, bytes: Seq<u8>, target: usize) -> Seq<int> {
    hits(|o: int| abs_ref_at(e, bytes, o, target), bytes.len() - 8 + 1)
}

/// All offsets holding a relative reference, ascending.
pub open spec fn rel_offsets(
    e: Endianness,
    bytes: Seq<u8>,
    base: usize,
    instr_len: usize,
    target: usize,
) -> Seq<int> {
    hits(|o: int| rel_ref_at(e, bytes, o, base, instr_len, target), bytes.len() - 4 + 1)
}

/// All offsets holding a reference of either kind, ascending and without
/// duplicates.
pub open spec fn any_offsets(
    e: Endianness,
    bytes: Seq<u8>,
    base: usize,
    instr_len: usize,
    target: usize,
) -> Seq<int> {
    hits(|o: int| any_ref_at(e, bytes, o, base, instr_len, target), bytes.len() - 4 + 1)
}

/// An offset is emitted by the absolute scan exactly when it holds an
/// absolute reference.
pub proof fn lemma_abs_offsets_iff(e: Endianness, bytes: Seq<u8>, target: usize, o: int)
    ensures
        abs_offsets(e, bytes, target).contains(o) <==> abs_ref_at(e, bytes, o, target),
{
    lemma_hits_from_contains(
        |x: int| abs_ref_at(e, bytes, x, target),
        bytes.len() - 8 + 1,
        0,
        o,
    );
}

/// An offset is emitted by the relative scan exactly when it holds a
/// relative reference.
pub proof fn lemma_rel_offsets_iff(
    e: Endianness,
    bytes: Seq<u8>,
    base: usize,
    instr_len: usize,
    target: usize,
    o: int,
)
    ensures
        rel_offsets(e, bytes, base, instr_len, target).contains(o) <==> rel_ref_at(
            e,
            bytes,
            o,
            base,
            instr_len,
            target,
        ),
{
    lemma_hits_from_contains(
        |x: int| rel_ref_at(e, bytes, x, base, instr_len, target),
        bytes.len() - 4 + 1,
        0,
        o,
    );
}

/// An offset is emitted by the combined scan exactly when it holds a
/// reference of either kind.
pub proof fn lemma_any_offsets_iff(
    e: Endianness,
    bytes: Seq<u8>,
    base: usize,
    instr_len: usize,
    target: usize,
    o: int,
)
    ensures
        any_offsets(e, bytes, base, instr_len, target).contains(o) <==> any_ref_at(
            e,
            bytes,
            o,
            base,
            instr_len,
            target,
        ),
{
    lemma_hits_from_contains(
        |x: int| any_ref_at(e, bytes, x, base, instr_len, target),
        bytes.len() - 4 + 1,
        0,
        o,
    );
}

/// Whether the eight bytes at `o` decode to the target address.
fn abs_hit_here(e: Endianness, bytes: &[u8], o: usize, target: usize) -> (r: bool)
    requires
        o + 8 <= bytes@.len(),
    ensures
        r == abs_ref_at(e, bytes@, o as int, target),
{
    let n = bytes.len();
    let word = vstd::slice::slice_subrange(bytes, o, o + 8);
    let w = decode_word(word, e);
    w == target as u64
}

/// Whether the four bytes at `o` are a displacement landing on the target.
fn rel_hit_here(
    e: Endianness,
    bytes: &[u8],
    o: usize,
    base: usize,
    instr_len: usize,
    target: usize,
) -> (r: bool)
    requires
        o + 4 <= bytes@.len(),
    ensures
        r == rel_ref_at(e, bytes@, o as int, base, instr_len, target),
{
    let n = bytes.len();
    let disp = vstd::slice::slice_subrange(bytes, o, o + 4);
    let d = decode_i32(disp, e);
    let implied: i128 = base as i128 + o as i128 + instr_len as i128 + d as i128;
    implied == target as i128
}

/// All offsets of absolute references to `target` in `bytes`, ascending.
pub fn find_absolute_offsets(e: Endianness, bytes: &[u8], target: usize) -> (r: Vec<usize>)
    ensures
        r@.map_values(|x: usize| x as int) == abs_offsets(e, bytes@, target),
{
    let ghost p = |o: int| abs_ref_at(e, bytes@, o, target);
    let n = bytes.len();
    let mut r: Vec<usize> = Vec::new();
    if n < 8 {
        proof {
            assert(r@.map_values(|x: usize| x as int) =~= hits(p, n - 8 + 1));
        }
        return r;
    }
    let mut o: usize = 0;
    while o <= n - 8
        invariant
            n == bytes@.len(),
            8 <= n,
            o <= n - 8 + 1,
            r@.map_values(|x: usize| x as int) == hits(p, o as int),
            p == (|x: int| abs_ref_at(e, bytes@, x, target)),
        decreases n - 8 - o + 1,
    {
        proof {
            lemma_hits_from_snoc(p, o as int, 0);
        }
        if abs_hit_here(e, bytes, o, target) {
            r.push(o);
            proof {
                assert(r@.map_values(|x: usize| x as int) =~= r@.drop_last().map_values(
                    |x: usize| x as int,
                ).push(o as int));
            }
        }
        o = o + 1;
    }
    r
}

/// All offsets of relative references to `target` in `bytes`, ascending.
pub fn find_relative_offsets(
    e: Endianness,
    bytes: &[u8],
    base: usize,
    instr_len: usize,
    target: usize,
) -> (r: Vec<usize>)
    ensures
        r@.map_values(|x: usize| x as int) == rel_offsets(e, bytes@, base, instr_len, target),
{
    let ghost p = |o: int| rel_ref_at(e, bytes@, o, base, instr_len, target);
    let n = bytes.len();
    let mut r: Vec<usize> = Vec::new();
    if n < 4 {
        proof {
            assert(r@.map_values(|x: usize| x as int) =~= hits(p, n - 4 + 1));
        }
        return r;
    }
    let mut o: usize = 0;
    while o <= n - 4
        invariant
            n == bytes@.len(),
            4 <= n,
            o <= n - 4 + 1,
            r@.map_values(|x: usize| x as int) == hits(p, o as int),
            p == (|x: int| rel_ref_at(e, bytes@, x, base, instr_len, target)),
        decreases n - 4 - o + 1,
    {
        proof {
            lemma_hits_from_snoc(p, o as int, 0);
        }
        if rel_hit_here(e, bytes, o, base, instr_len, target) {
            r.push(o);
            proof {
                assert(r@.map_values(|x: usize| x as int) =~= r@.drop_last().map_values(
                    |x: usize| x as int,
                ).push(o as int));
            }
        }
        o = o + 1;
    }
    r
}

/// All offsets of references of either kind to `target` in `bytes`,
/// ascending and without duplicates.
pub fn find_any_offsets(
    e: Endianness,
    bytes: &[u8],
    base: usize,
    instr_len: usize,
    target: usize,
) -> (r: Vec<usize>)
    ensures
        r@.map_values(|x: usize| x as int) == any_offsets(e, bytes@, base, instr_len, target),
{
    let ghost p = |o: int| any_ref_at(e, bytes@, o, base, instr_len, target);
    let n = bytes.len();
    let mut r: Vec<usize> = Vec::new();
    if n < 4 {
        proof {
            assert(r@.map_values(|x: usize| x as int) =~= hits(p, n - 4 + 1));
        }
        return r;
    }
    let mut o: usize = 0;
    while o <= n - 4
        invariant
            n == bytes@.len(),
            4 <= n,
            o <= n - 4 + 1,
            r@.map_values(|x: usize| x as int) == hits(p, o as int),
            p == (|x: int| any_ref_at(e, bytes@, x, base, instr_len, target)),
        decreases n - 4 - o + 1,
    {
        proof {
            lemma_hits_from_snoc(p, o as int, 0);
        }
        let abs_hit = if n >= 8 && o <= n - 8 {
            abs_hit_here(e, bytes, o, target)
        } else {
            proof {
                assert(!abs_ref_at(e, bytes@, o as int, target));
            }
            false
        };
        let hit = abs_hit || rel_hit_here(e, bytes, o, base, instr_len, target);
        if hit {
            r.push(o);
            proof {
                assert(r@.map_values(|x: usize| x as int) =~= r@.drop_last().map_values(
                    |x: usize| x as int,
                ).push(o as int));
            }
        }
        o = o + 1;
    }
    r
}

} // verus!
