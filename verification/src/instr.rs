//! x86 instruction lengths, obtained from the `lde` length disassembler.

use vstd::prelude::*;

verus! {

/// The instruction set a pointer walk decodes for.
#[derive(Clone, Copy, PartialEq, Eq, Structural, Debug)]
pub enum Isa {
    X86,
    X64,
}

/// The length `lde` reports for the first 32-bit-mode instruction of a
/// byte sequence.
pub uninterp spec fn x86_len_of(s: Seq<u8>) -> u32;

/// The length `lde` reports for the first 64-bit-mode instruction of a
/// byte sequence.
pub uninterp spec fn x64_len_of(s: Seq<u8>) -> u32;

/// Relies on `lde::X86::ld`: the length in bytes of the first `x86`
/// instruction of the slice, `0` when none can be decoded. The result
/// depends on the bytes alone.
#[verifier::external_body]
fn ld_x86(bytes: &[u8]) -> (r: u32)
    ensures
        r == x86_len_of(bytes@),
{
    <lde::X86 as lde::Isa>::ld(bytes)
}

/// Relies on `lde::X64::ld`: the length in bytes of the first `x86_64`
/// instruction of the slice, `0` when none can be decoded. The result
/// depends on the bytes alone.
#[verifier::external_body]
fn ld_x64(bytes: &[u8]) -> (r: u32)
    ensures
        r == x64_len_of(bytes@),
{
    <lde::X64 as lde::Isa>::ld(bytes)
}

/// The length of the first instruction of a byte sequence under the given
/// instruction set.
pub open spec fn instr_len(isa: Isa, s: Seq<u8>) -> u32 {
    match isa {
        Isa::X86 => x86_len_of(s),
        Isa::X64 => x64_len_of(s),
    }
}

/// Decodes the length of the first instruction in `bytes`; `0` means the
/// bytes do not start with a decodable instruction.
pub fn decode_instr_len(isa: Isa, bytes: &[u8]) -> (r: u32)
    ensures
        r == instr_len(isa, bytes@),
{
    match isa {
        Isa::X86 => ld_x86(bytes),
        Isa::X64 => ld_x64(bytes),
    }
}

} // verus!
