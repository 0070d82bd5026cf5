//! A pointer into a snapshot: an address paired with the shared region
//! index, performing bounds-checked reads and invalidating walks.

use std::rc::Rc;

use vstd::prelude::*;

use crate::cached_map::{CachedMap, MapName};
use crate::cached_maps::{CachedMaps, FindAddress, lemma_region_unique};
use crate::endian::{Endianness, decode_i32, decode_word, i32_value, word_value};
use crate::instr::{Isa, decode_instr_len, instr_len};
use crate::scan::{concat_over, lemma_concat_over_snoc, lemma_hits_from_sorted};
use crate::search_constraints::SearchConstraints;
use crate::sigscan::{
    SigElem, Signature, all_matches, lemma_first_match, lemma_last_match, lemma_no_match,
    matches_at,
};
use crate::xref::{abs_offsets, any_offsets, find_absolute_offsets, find_any_offsets,
    find_relative_offsets, rel_offsets};

verus! {

/// A handle on one address of the shared snapshot. `invalid` records that
/// some walk could not advance; it persists until `revalidate`.
#[derive(Debug)]
pub struct SafePointer {
    pub maps: Rc<CachedMaps>,
    pub address: usize,
    pub invalid: bool,
}

impl Clone for SafePointer {
    fn clone(&self) -> (r: Self)
        ensures
            r == *self,
    {
        SafePointer { maps: self.maps.clone(), address: self.address, invalid: self.invalid }
    }
}

/// The pointer with its invalid flag set and all else unchanged.
pub open spec fn invalidated(p: SafePointer) -> SafePointer {
    SafePointer { invalid: true, ..p }
}

/// Advancing a pointer and moving it back by the same amount restores
/// its address, whenever the advance does not overflow.
pub proof fn lemma_add_sub_roundtrip(p: SafePointer, n: usize)
    requires
        p.address + n <= usize::MAX,
    ensures
        spec_sub(spec_add(p, n), n) == p,
{
}

/// `dereference` is the left inverse of storing an address: when the
/// window at the pointer encodes the address `a2`, the dereferenced
/// pointer sits at `a2` and stays usable.
pub proof fn lemma_dereference_follows_encoding(
    p: SafePointer,
    q: SafePointer,
    e: Endianness,
    a2: usize,
)
    requires
        deref_rel(p, q, e),
        p.spec_is_valid(8),
        word_value(e, p.read_window(8)) == a2,
    ensures
        q.address == a2,
        q.invalid == p.invalid,
        q.maps == p.maps,
{
}

/// `relative_to_absolute` over a zero displacement advances the address
/// by exactly the four bytes of the displacement itself.
pub proof fn lemma_relative_displacement_zero(p: SafePointer, q: SafePointer, e: Endianness)
    requires
        rel_to_abs_rel(p, q, e),
        p.spec_is_valid(4),
        i32_value(e, p.read_window(4)) == 0,
        p.address + 4 <= usize::MAX,
    ensures
        q.address == p.address + 4,
        q.invalid == p.invalid,
{
}

/// How `dereference` relates the pointer before and after: on an in-bounds
/// eight-byte read whose value fits an address, the address becomes that
/// value; otherwise the pointer invalidates and the address is unchanged.
pub open spec fn deref_rel(p: SafePointer, q: SafePointer, e: Endianness) -> bool {
    if p.spec_is_valid(8) && word_value(e, p.read_window(8)) <= usize::MAX {
        q == SafePointer { address: word_value(e, p.read_window(8)) as usize, ..p }
    } else {
        q == invalidated(p)
    }
}

/// How `relative_to_absolute` relates the pointer before and after: on an
/// in-bounds four-byte read, the address advances past the displacement
/// and then by the signed displacement itself; on a read failure or when
/// the resulting address leaves the address space, the pointer
/// invalidates with its address unchanged.
pub open spec fn rel_to_abs_rel(p: SafePointer, q: SafePointer, e: Endianness) -> bool {
    let t = p.address + 4 + i32_value(e, p.read_window(4));
    if p.spec_is_valid(4) && 0 <= t <= usize::MAX {
        q == SafePointer { address: t as usize, ..p }
    } else {
        q == invalidated(p)
    }
}

/// How `next_instruction` relates the pointer before and after: the
/// address advances by the length of the instruction at it, decoded from
/// the rest of its region; a missing region, an undecodable instruction
/// or an overflowing address invalidates.
pub open spec fn next_instruction_rel(p: SafePointer, q: SafePointer, isa: Isa) -> bool {
    if p.snapshot().has_region(p.address) {
        let r = p.snapshot().region_at(p.address);
        let suffix = r.bytes@.subrange(p.address - r.from_address, r.bytes@.len() as int);
        let len = instr_len(isa, suffix);
        if len != 0 && p.address + len <= usize::MAX {
            q == SafePointer { address: (p.address + len) as usize, ..p }
        } else {
            q == invalidated(p)
        }
    } else {
        q == invalidated(p)
    }
}

/// How `prev_occurrence` relates the pointer before and after: within the
/// clamped window below the address of the region containing it, the
/// address moves to the last match of the pattern; every failure
/// invalidates with the address unchanged.
pub open spec fn prev_occurrence_rel(
    p: SafePointer,
    q: SafePointer,
    elems: Seq<SigElem>,
    c: SearchConstraints,
) -> bool {
    if p.snapshot().has_region(p.address) {
        let r = p.snapshot().region_at(p.address);
        if c.spec_allows(r) {
            match c.spec_clamp((r.from_address, p.address)) {
                Some((lo, hi)) => {
                    let window = region_window(r, lo, hi);
                    let ms = all_matches(elems, window);
                    if ms.len() > 0 {
                        q == SafePointer { address: (lo + ms.last()) as usize, ..p }
                    } else {
                        q == invalidated(p)
                    }
                },
                None => q == invalidated(p),
            }
        } else {
            q == invalidated(p)
        }
    } else {
        q == invalidated(p)
    }
}

/// How `next_occurrence` relates the pointer before and after: within the
/// clamped window from the address to the end of the region containing
/// it, the address moves to the first match of the pattern; every failure
/// invalidates with the address unchanged.
pub open spec fn next_occurrence_rel(
    p: SafePointer,
    q: SafePointer,
    elems: Seq<SigElem>,
    c: SearchConstraints,
) -> bool {
    if p.snapshot().has_region(p.address) {
        let r = p.snapshot().region_at(p.address);
        if c.spec_allows(r) {
            match c.spec_clamp((p.address, r.to_address)) {
                Some((lo, hi)) => {
                    let window = region_window(r, lo, hi);
                    let ms = all_matches(elems, window);
                    if ms.len() > 0 {
                        q == SafePointer { address: (lo + ms.first()) as usize, ..p }
                    } else {
                        q == invalidated(p)
                    }
                },
                None => q == invalidated(p),
            }
        } else {
            q == invalidated(p)
        }
    } else {
        q == invalidated(p)
    }
}

/// Whether the pointer currently matches the pattern: an in-bounds read
/// of the pattern's length whose bytes the pattern accepts.
pub open spec fn spec_does_match(p: SafePointer, elems: Seq<SigElem>) -> bool {
    p.spec_is_valid(elems.len()) && matches_at(elems, p.read_window(elems.len()), 0)
}

/// The bytes of a region between two absolute addresses inside it.
pub open spec fn region_window(r: CachedMap, lo: usize, hi: usize) -> Seq<u8> {
    r.bytes@.subrange(lo - r.from_address, hi - r.from_address)
}

/// Which kind of cross-reference a discovery walk looks for.
#[derive(Clone, Copy, PartialEq, Eq, Structural, Debug)]
pub enum XrefKind {
    /// Eight bytes holding the target address.
    Absolute,
    /// A 32-bit displacement landing on the target.
    Relative,
    /// Either kind, de-duplicated by offset.
    Combined,
}

/// The offsets of the wanted kind of reference inside a byte window whose
/// first byte was loaded at `base`.
pub open spec fn kind_offsets(
    k: XrefKind,
    e: Endianness,
    bytes: Seq<u8>,
    base: usize,
    il: usize,
    target: usize,
) -> Seq<int> {
    match k {
        XrefKind::Absolute => abs_offsets(e, bytes, target),
        XrefKind::Relative => rel_offsets(e, bytes, base, il, target),
        XrefKind::Combined => any_offsets(e, bytes, base, il, target),
    }
}

/// The addresses a reference walk yields from one region: when the
/// constraints allow the region, each emitted window offset `o` names the
/// address `r.from_address + o`.
pub open spec fn region_ref_addrs(
    k: XrefKind,
    r: CachedMap,
    e: Endianness,
    c: SearchConstraints,
    il: usize,
    target: usize,
) -> Seq<int> {
    if c.spec_allows(r) {
        match c.spec_clamp((r.from_address, r.to_address)) {
            Some((lo, hi)) => kind_offsets(
                k,
                e,
                region_window(r, lo, hi),
                r.from_address,
                il,
                target,
            ).map_values(|o: int| r.from_address + o),
            None => Seq::empty(),
        }
    } else {
        Seq::empty()
    }
}

/// The addresses a reference walk yields over a whole snapshot, region by
/// region in index order.
pub open spec fn ref_addrs(
    k: XrefKind,
    regions: Seq<CachedMap>,
    e: Endianness,
    c: SearchConstraints,
    il: usize,
    target: usize,
) -> Seq<int> {
    concat_over(regions, |r: CachedMap| region_ref_addrs(k, r, e, c, il, target))
}

/// The addresses of the pointers of a sequence, in order.
pub open spec fn pointer_addrs(s: Seq<SafePointer>) -> Seq<int> {
    s.map_values(|p: SafePointer| p.address as int)
}

/// An absolute-reference walk over a region emits `r.from_address + o`
/// exactly when the eight bytes at window offset `o` hold the target.
pub proof fn lemma_region_abs_refs(
    r: CachedMap,
    e: Endianness,
    c: SearchConstraints,
    il: usize,
    target: usize,
    o: int,
    lo: usize,
    hi: usize,
)
    requires
        c.spec_allows(r),
        c.spec_clamp((r.from_address, r.to_address)) == Some((lo, hi)),
    ensures
        region_ref_addrs(XrefKind::Absolute, r, e, c, il, target).contains(r.from_address + o)
            <==> crate::xref::abs_ref_at(e, region_window(r, lo, hi), o, target),
{
    let window = region_window(r, lo, hi);
    let offsets = abs_offsets(e, window, target);
    let mapped = offsets.map_values(|x: int| r.from_address + x);
    crate::xref::lemma_abs_offsets_iff(e, window, target, o);
    if offsets.contains(o) {
        let i = choose|i: int| 0 <= i < offsets.len() && offsets[i] == o;
        assert(mapped[i] == r.from_address + o);
    }
    if mapped.contains(r.from_address + o) {
        let i = choose|i: int| 0 <= i < mapped.len() && mapped[i] == r.from_address + o;
        assert(offsets[i] == o);
        assert(offsets.contains(o));
    }
}

/// A relative-reference walk over a region emits `r.from_address + o`
/// exactly when the displacement at window offset `o`, relative to an
/// instruction loaded at `r.from_address + o`, lands on the target.
pub proof fn lemma_region_rel_refs(
    r: CachedMap,
    e: Endianness,
    c: SearchConstraints,
    il: usize,
    target: usize,
    o: int,
    lo: usize,
    hi: usize,
)
    requires
        c.spec_allows(r),
        c.spec_clamp((r.from_address, r.to_address)) == Some((lo, hi)),
    ensures
        region_ref_addrs(XrefKind::Relative, r, e, c, il, target).contains(r.from_address + o)
            <==> crate::xref::rel_ref_at(
            e,
            region_window(r, lo, hi),
            o,
            r.from_address,
            il,
            target,
        ),
{
    let window = region_window(r, lo, hi);
    let offsets = rel_offsets(e, window, r.from_address, il, target);
    let mapped = offsets.map_values(|x: int| r.from_address + x);
    crate::xref::lemma_rel_offsets_iff(e, window, r.from_address, il, target, o);
    if offsets.contains(o) {
        let i = choose|i: int| 0 <= i < offsets.len() && offsets[i] == o;
        assert(mapped[i] == r.from_address + o);
    }
    if mapped.contains(r.from_address + o) {
        let i = choose|i: int| 0 <= i < mapped.len() && mapped[i] == r.from_address + o;
        assert(offsets[i] == o);
        assert(offsets.contains(o));
    }
}

/// Every emitted offset lies inside the scanned window.
proof fn lemma_kind_offsets_bounds(
    k: XrefKind,
    e: Endianness,
    bytes: Seq<u8>,
    base: usize,
    il: usize,
    target: usize,
)
    ensures
        forall|i: int|
            0 <= i < kind_offsets(k, e, bytes, base, il, target).len() ==> 0 <= #[trigger] kind_offsets(
                k,
                e,
                bytes,
                base,
                il,
                target,
            )[i] <= bytes.len(),
{
    match k {
        XrefKind::Absolute => {
            lemma_hits_from_sorted(
                |o: int| crate::xref::abs_ref_at(e, bytes, o, target),
                bytes.len() - 8 + 1,
                0,
            );
        },
        XrefKind::Relative => {
            lemma_hits_from_sorted(
                |o: int| crate::xref::rel_ref_at(e, bytes, o, base, il, target),
                bytes.len() - 4 + 1,
                0,
            );
        },
        XrefKind::Combined => {
            lemma_hits_from_sorted(
                |o: int| crate::xref::any_ref_at(e, bytes, o, base, il, target),
                bytes.len() - 4 + 1,
                0,
            );
        },
    }
}

/// The offsets of the wanted kind of reference in `bytes`, ascending.
fn kind_find(
    k: XrefKind,
    e: Endianness,
    bytes: &[u8],
    base: usize,
    il: usize,
    target: usize,
) -> (r: Vec<usize>)
    ensures
        r@.map_values(|x: usize| x as int) == kind_offsets(k, e, bytes@, base, il, target),
{
    match k {
        XrefKind::Absolute => find_absolute_offsets(e, bytes, target),
        XrefKind::Relative => find_relative_offsets(e, bytes, base, il, target),
        XrefKind::Combined => find_any_offsets(e, bytes, base, il, target),
    }
}

/// The result of `add`: the address advanced by `n`, or clamped to the
/// top of the address space and invalidated on overflow.
pub open spec fn spec_add(p: SafePointer, n: usize) -> SafePointer {
    if p.address + n <= usize::MAX {
        SafePointer { address: (p.address + n) as usize, ..p }
    } else {
        SafePointer { address: usize::MAX, invalid: true, ..p }
    }
}

/// The result of `sub`: the address moved back by `n`, or clamped to zero
/// and invalidated on underflow.
pub open spec fn spec_sub(p: SafePointer, n: usize) -> SafePointer {
    if p.address - n >= 0 {
        SafePointer { address: (p.address - n) as usize, ..p }
    } else {
        SafePointer { address: 0, invalid: true, ..p }
    }
}

impl SafePointer {
    /// The shared snapshot the pointer reads from.
    pub open spec fn snapshot(self) -> CachedMaps {
        *self.maps
    }

    pub open spec fn wf(self) -> bool {
        self.snapshot().wf()
    }

    /// A read of `length` bytes is in bounds: the pointer is not
    /// invalidated and the window lies inside the region containing the
    /// address.
    pub open spec fn spec_is_valid(self, length: nat) -> bool {
        &&& !self.invalid
        &&& self.snapshot().has_region(self.address)
        &&& self.address + length <= self.snapshot().region_at(self.address).to_address
    }

    /// The bytes a read of `length` bytes returns.
    pub open spec fn read_window(self, length: nat) -> Seq<u8> {
        let r = self.snapshot().region_at(self.address);
        r.bytes@.subrange(
            self.address - r.from_address,
            self.address - r.from_address + length,
        )
    }

    pub fn new(maps: Rc<CachedMaps>, address: usize) -> (r: SafePointer)
        ensures
            r == (SafePointer { maps, address, invalid: false }),
    {
        SafePointer { maps, address, invalid: false }
    }

    /// Advances the address; on overflow the address clamps to the top of
    /// the address space and the pointer invalidates.
    pub fn add(&mut self, operand: usize)
        ensures
            *final(self) == spec_add(*old(self), operand),
    {
        match self.address.checked_add(operand) {
            Some(a) => {
                self.address = a;
            },
            None => {
                self.address = usize::MAX;
                self.invalid = true;
            },
        }
    }

    /// Moves the address back; on underflow the address clamps to zero
    /// and the pointer invalidates.
    pub fn sub(&mut self, operand: usize)
        ensures
            *final(self) == spec_sub(*old(self), operand),
    {
        match self.address.checked_sub(operand) {
            Some(a) => {
                self.address = a;
            },
            None => {
                self.address = 0;
                self.invalid = true;
            },
        }
    }

    /// Clears the invalid flag.
    pub fn revalidate(&mut self)
        ensures
            *final(self) == (SafePointer { invalid: false, ..*old(self) }),
    {
        self.invalid = false;
    }

    /// Sets the invalid flag.
    pub fn invalidate(&mut self)
        ensures
            *final(self) == invalidated(*old(self)),
    {
        self.invalid = true;
    }

    pub fn get_address(&self) -> (r: usize)
        ensures
            r == self.address,
    {
        self.address
    }

    pub fn is_invalidated(&self) -> (r: bool)
        ensures
            r == self.invalid,
    {
        self.invalid
    }

    /// Whether a read of `length` bytes is in bounds.
    pub fn is_valid(&self, length: usize) -> (r: bool)
        requires
            self.wf(),
        ensures
            r == self.spec_is_valid(length as nat),
    {
        if self.invalid {
            return false;
        }
        let maps: &CachedMaps = &self.maps;
        match maps.find_map(self.address) {
            None => false,
            Some(region) => {
                proof {
                    let i = choose|i: int|
                        0 <= i < maps.maps@.len() && #[trigger] maps.maps@[i] == *region;
                    lemma_region_unique(*maps, self.address, i);
                }
                region.to_address - self.address >= length
            },
        }
    }

    /// Returns the `length` bytes at the address, or nothing when the
    /// read is out of bounds or the pointer is invalidated.
    pub fn read(&self, length: usize) -> (r: Option<&[u8]>)
        requires
            self.wf(),
        ensures
            match r {
                Some(bytes) => self.spec_is_valid(length as nat) && bytes@ == self.read_window(
                    length as nat,
                ),
                None => !self.spec_is_valid(length as nat),
            },
    {
        if self.invalid {
            return None;
        }
        let maps: &CachedMaps = &self.maps;
        match maps.find_map(self.address) {
            None => None,
            Some(region) => {
                proof {
                    let i = choose|i: int|
                        0 <= i < maps.maps@.len() && #[trigger] maps.maps@[i] == *region;
                    lemma_region_unique(*maps, self.address, i);
                    assert(region.wf());
                }
                if region.to_address - self.address >= length {
                    let offset = self.address - region.from_address;
                    let bytes = region.get_bytes();
                    Some(vstd::slice::slice_subrange(bytes, offset, offset + length))
                } else {
                    None
                }
            },
        }
    }

    /// The name of the region containing the address, when one does.
    pub fn get_module_name(&self) -> (r: Option<&MapName>)
        requires
            self.wf(),
        ensures
            match r {
                Some(name) => self.snapshot().has_region(self.address) && *name
                    == self.snapshot().region_at(self.address).name,
                None => !self.snapshot().has_region(self.address),
            },
    {
        let maps: &CachedMaps = &self.maps;
        match maps.find_map(self.address) {
            None => None,
            Some(region) => {
                proof {
                    let i = choose|i: int|
                        0 <= i < maps.maps@.len() && #[trigger] maps.maps@[i] == *region;
                    lemma_region_unique(*maps, self.address, i);
                }
                Some(region.get_name())
            },
        }
    }

    /// Replaces the address with the pointer-sized word read at it;
    /// invalidates when the read fails or the word does not fit an
    /// address.
    pub fn dereference(&mut self, e: Endianness)
        requires
            old(self).wf(),
        ensures
            deref_rel(*old(self), *final(self), e),
    {
        let word: Option<u64> = match self.read(8) {
            Some(bytes) => Some(decode_word(bytes, e)),
            None => None,
        };
        match word {
            Some(v) => {
                if v <= usize::MAX as u64 {
                    self.address = v as usize;
                } else {
                    self.invalid = true;
                }
            },
            None => {
                self.invalid = true;
            },
        }
    }

    /// Reads a signed 32-bit displacement, advances past it, then applies
    /// it; invalidates when the read fails or the result leaves the
    /// address space.
    pub fn relative_to_absolute(&mut self, e: Endianness)
        requires
            old(self).wf(),
        ensures
            rel_to_abs_rel(*old(self), *final(self), e),
    {
        let disp: Option<i32> = match self.read(4) {
            Some(bytes) => Some(decode_i32(bytes, e)),
            None => None,
        };
        match disp {
            Some(d) => {
                let t: i128 = self.address as i128 + 4 + d as i128;
                if 0 <= t && t <= usize::MAX as i128 {
                    self.address = t as usize;
                } else {
                    self.invalid = true;
                }
            },
            None => {
                self.invalid = true;
            },
        }
    }

    /// Advances the address past the instruction at it; invalidates when
    /// no region contains the address or no instruction decodes there.
    pub fn next_instruction(&mut self, isa: Isa)
        requires
            old(self).wf(),
        ensures
            next_instruction_rel(*old(self), *final(self), isa),
    {
        let addr = self.address;
        let len: Option<u32> = {
            let maps: &CachedMaps = &self.maps;
            match maps.find_map(addr) {
                None => None,
                Some(region) => {
                    proof {
                        let i = choose|i: int|
                            0 <= i < maps.maps@.len() && #[trigger] maps.maps@[i] == *region;
                        lemma_region_unique(*maps, addr, i);
                        assert(region.wf());
                    }
                    let bytes = region.get_bytes();
                    let offset = addr - region.get_from_address();
                    let suffix = vstd::slice::slice_subrange(bytes, offset, bytes.len());
                    Some(decode_instr_len(isa, suffix))
                },
            }
        };
        match len {
            None => {
                self.invalid = true;
            },
            Some(l) => {
                if l == 0 {
                    self.invalid = true;
                } else {
                    match self.address.checked_add(l as usize) {
                        Some(a) => {
                            self.address = a;
                        },
                        None => {
                            self.invalid = true;
                        },
                    }
                }
            },
        }
    }

    /// Moves the address to the last match of the pattern in the allowed
    /// window below it inside its region; invalidates on any failure.
    pub fn prev_occurrence(&mut self, signature: &Signature, constraints: &SearchConstraints)
        requires
            old(self).wf(),
        ensures
            prev_occurrence_rel(*old(self), *final(self), signature.elements@, *constraints),
    {
        let addr = self.address;
        let found: Option<usize> = {
            let maps: &CachedMaps = &self.maps;
            match maps.find_map(addr) {
                None => None,
                Some(region) => {
                    proof {
                        let i = choose|i: int|
                            0 <= i < maps.maps@.len() && #[trigger] maps.maps@[i] == *region;
                        lemma_region_unique(*maps, addr, i);
                        assert(region.wf());
                    }
                    if !constraints.allows_map(region) {
                        None
                    } else {
                        match constraints.clamp_address_range(
                            (region.get_from_address(), addr),
                        ) {
                            None => None,
                            Some((lo, hi)) => {
                                let off_lo = lo - region.get_from_address();
                                let off_hi = hi - region.get_from_address();
                                let window = vstd::slice::slice_subrange(
                                    region.get_bytes(),
                                    off_lo,
                                    off_hi,
                                );
                                match signature.prev(window) {
                                    Some(h) => {
                                        proof {
                                            lemma_last_match(
                                                signature.elements@,
                                                window@,
                                                h as int,
                                            );
                                        }
                                        Some(lo + h)
                                    },
                                    None => {
                                        proof {
                                            lemma_no_match(signature.elements@, window@);
                                        }
                                        None
                                    },
                                }
                            },
                        }
                    }
                },
            }
        };
        match found {
            Some(a) => {
                self.address = a;
            },
            None => {
                self.invalid = true;
            },
        }
    }

    /// Moves the address to the first match of the pattern in the allowed
    /// window from it to the end of its region; invalidates on any
    /// failure.
    pub fn next_occurrence(&mut self, signature: &Signature, constraints: &SearchConstraints)
        requires
            old(self).wf(),
        ensures
            next_occurrence_rel(*old(self), *final(self), signature.elements@, *constraints),
    {
        let addr = self.address;
        let found: Option<usize> = {
            let maps: &CachedMaps = &self.maps;
            match maps.find_map(addr) {
                None => None,
                Some(region) => {
                    proof {
                        let i = choose|i: int|
                            0 <= i < maps.maps@.len() && #[trigger] maps.maps@[i] == *region;
                        lemma_region_unique(*maps, addr, i);
                        assert(region.wf());
                    }
                    if !constraints.allows_map(region) {
                        None
                    } else {
                        match constraints.clamp_address_range((addr, region.get_to_address())) {
                            None => None,
                            Some((lo, hi)) => {
                                let off_lo = lo - region.get_from_address();
                                let off_hi = hi - region.get_from_address();
                                let window = vstd::slice::slice_subrange(
                                    region.get_bytes(),
                                    off_lo,
                                    off_hi,
                                );
                                match signature.next(window) {
                                    Some(h) => {
                                        proof {
                                            lemma_first_match(
                                                signature.elements@,
                                                window@,
                                                h as int,
                                            );
                                        }
                                        Some(lo + h)
                                    },
                                    None => {
                                        proof {
                                            lemma_no_match(signature.elements@, window@);
                                        }
                                        None
                                    },
                                }
                            },
                        }
                    }
                },
            }
        };
        match found {
            Some(a) => {
                self.address = a;
            },
            None => {
                self.invalid = true;
            },
        }
    }

    /// Whether the bytes at the pointer match the pattern; false when the
    /// read is out of bounds or the pointer is invalidated.
    pub fn does_match(&self, signature: &Signature) -> (r: bool)
        requires
            self.wf(),
        ensures
            r == spec_does_match(*self, signature.elements@),
    {
        let len = signature.len();
        match self.read(len) {
            Some(bytes) => signature.matches(bytes),
            None => false,
        }
    }

    /// The pointers at every reference of the wanted kind to this
    /// pointer's address, region by region.
    pub(crate) fn find_references_impl(
        &self,
        k: XrefKind,
        e: Endianness,
        il: usize,
        constraints: &SearchConstraints,
    ) -> (r: Vec<SafePointer>)
        requires
            self.wf(),
        ensures
            pointer_addrs(r@) == ref_addrs(
                k,
                self.snapshot().maps@,
                e,
                *constraints,
                il,
                self.address,
            ),
            forall|i: int|
                0 <= i < r@.len() ==> (#[trigger] r@[i]).maps == self.maps && !r@[i].invalid,
    {
        let ghost f = |rg: CachedMap| region_ref_addrs(k, rg, e, *constraints, il, self.address);
        let target = self.address;
        let maps: &CachedMaps = &self.maps;
        let n = maps.len();
        let mut result: Vec<SafePointer> = Vec::new();
        proof {
            assert(maps.maps@.take(0) =~= Seq::<CachedMap>::empty());
            assert(pointer_addrs(result@) =~= concat_over(maps.maps@.take(0), f));
        }
        let mut idx: usize = 0;
        while idx < n
            invariant
                self.wf(),
                maps == &self.maps,
                target == self.address,
                n == maps.maps@.len(),
                idx <= n,
                pointer_addrs(result@) == concat_over(maps.maps@.take(idx as int), f),
                forall|i: int|
                    0 <= i < result@.len() ==> (#[trigger] result@[i]).maps == self.maps
                        && !result@[i].invalid,
                f == (|rg: CachedMap| region_ref_addrs(
                    k,
                    rg,
                    e,
                    *constraints,
                    il,
                    self.address,
                )),
            decreases n - idx,
        {
            let region = maps.get(idx);
            proof {
                lemma_concat_over_snoc(maps.maps@.take(idx + 1), f);
                assert(maps.maps@.take(idx + 1).drop_last() =~= maps.maps@.take(idx as int));
                assert(maps.maps@.take(idx + 1).last() == maps.maps@[idx as int]);
                assert(maps.maps@[idx as int].wf());
            }
            let allowed = constraints.allows_map(region);
            if allowed {
                match constraints.clamp_address_range(
                    (region.get_from_address(), region.get_to_address()),
                ) {
                    None => {
                        proof {
                            assert(f(maps.maps@[idx as int]) =~= Seq::<int>::empty());
                            assert(concat_over(maps.maps@.take(idx as int), f) + Seq::<
                                int,
                            >::empty() =~= concat_over(maps.maps@.take(idx as int), f));
                        }
                    },
                    Some((lo, hi)) => {
                        let off_lo = lo - region.get_from_address();
                        let off_hi = hi - region.get_from_address();
                        let window = vstd::slice::slice_subrange(
                            region.get_bytes(),
                            off_lo,
                            off_hi,
                        );
                        let offsets = kind_find(k, e, window, region.get_from_address(), il,
                            target);
                        proof {
                            lemma_kind_offsets_bounds(
                                k,
                                e,
                                window@,
                                region.from_address,
                                il,
                                target,
                            );
                        }
                        let ghost hits_here = kind_offsets(
                            k,
                            e,
                            window@,
                            region.from_address,
                            il,
                            target,
                        );
                        let ghost before = result@;
                        let m = offsets.len();
                        let mut j: usize = 0;
                        while j < m
                            invariant
                                self.wf(),
                                maps == &self.maps,
                                target == self.address,
                                m == offsets@.len(),
                                j <= m,
                                offsets@.map_values(|x: usize| x as int) == hits_here,
                                forall|i: int|
                                    0 <= i < hits_here.len() ==> 0 <= #[trigger] hits_here[i]
                                        <= window@.len(),
                                window@.len() <= maps.maps@[idx as int].to_address
                                    - maps.maps@[idx as int].from_address,
                                idx < maps.maps@.len(),
                                region == &maps.maps@[idx as int],
                                result@.len() == before.len() + j,
                                result@.subrange(0, before.len() as int) == before,
                                forall|i: int|
                                    0 <= i < j ==> (#[trigger] result@[before.len() + i]).address
                                        as int == maps.maps@[idx as int].from_address
                                        + hits_here[i],
                                forall|i: int|
                                    0 <= i < result@.len() ==> (#[trigger] result@[i]).maps
                                        == self.maps && !result@[i].invalid,
                            decreases m - j,
                        {
                            let o = offsets[j];
                            proof {
                                assert(offsets@.map_values(|x: usize| x as int)[j as int]
                                    == hits_here[j as int]);
                                assert(region.from_address + o <= region.to_address);
                            }
                            let p_new = SafePointer::new(
                                self.maps.clone(),
                                region.get_from_address() + o,
                            );
                            result.push(p_new);
                            proof {
                                assert(result@.subrange(0, before.len() as int) =~= before);
                            }
                            j = j + 1;
                        }
                        proof {
                            let rg = maps.maps@[idx as int];
                            let piece = hits_here.map_values(
                                |o: int| maps.maps@[idx as int].from_address + o,
                            );
                            assert(window@ =~= region_window(rg, lo, hi));
                            assert((*constraints).spec_allows(rg));
                            assert((*constraints).spec_clamp((rg.from_address, rg.to_address))
                                == Some((lo, hi)));
                            assert(hits_here == kind_offsets(
                                k,
                                e,
                                region_window(rg, lo, hi),
                                rg.from_address,
                                il,
                                target,
                            ));
                            assert(region_ref_addrs(k, rg, e, *constraints, il, target)
                                == kind_offsets(
                                k,
                                e,
                                region_window(rg, lo, hi),
                                rg.from_address,
                                il,
                                target,
                            ).map_values(|o: int| rg.from_address + o));
                            assert(f(rg) =~= piece);
                            assert forall|i: int| 0 <= i < before.len() implies result@[i]
                                == before[i] by {
                                assert(result@.subrange(0, before.len() as int)[i]
                                    == result@[i]);
                            }
                            assert(pointer_addrs(before) == concat_over(
                                maps.maps@.take(idx as int),
                                f,
                            ));
                            assert(result@.len() == before.len() + hits_here.len());
                            assert forall|i: int| 0 <= i < result@.len() implies pointer_addrs(
                                result@,
                            )[i] == (concat_over(maps.maps@.take(idx as int), f) + piece)[i] by {
                                if i < before.len() {
                                    assert(pointer_addrs(before)[i] == before[i].address as int);
                                } else {
                                    assert(result@[before.len() + (i - before.len())].address
                                        as int == maps.maps@[idx as int].from_address
                                        + hits_here[i - before.len()]);
                                }
                            }
                            assert(pointer_addrs(result@) =~= concat_over(
                                maps.maps@.take(idx as int),
                                f,
                            ) + piece);
                        }
                    },
                }
            } else {
                proof {
                    assert(f(maps.maps@[idx as int]) =~= Seq::<int>::empty());
                    assert(concat_over(maps.maps@.take(idx as int), f) + Seq::<int>::empty()
                        =~= concat_over(maps.maps@.take(idx as int), f));
                }
            }
            idx = idx + 1;
        }
        proof {
            assert(maps.maps@.take(n as int) =~= maps.maps@);
        }
        result
    }

    /// The pointers at every reference of either kind to this pointer's
    /// address inside the allowed parts of the snapshot.
    pub fn find_all_references(
        &self,
        e: Endianness,
        instruction_length: usize,
        constraints: &SearchConstraints,
    ) -> (r: Vec<SafePointer>)
        requires
            self.wf(),
        ensures
            pointer_addrs(r@) == ref_addrs(
                XrefKind::Combined,
                self.snapshot().maps@,
                e,
                *constraints,
                instruction_length,
                self.address,
            ),
            forall|i: int|
                0 <= i < r@.len() ==> (#[trigger] r@[i]).maps == self.maps && !r@[i].invalid,
    {
        self.find_references_impl(XrefKind::Combined, e, instruction_length, constraints)
    }

    /// The pointers at every relative reference to this pointer's address
    /// inside the allowed parts of the snapshot.
    pub fn find_relative_references(
        &self,
        e: Endianness,
        instruction_length: usize,
        constraints: &SearchConstraints,
    ) -> (r: Vec<SafePointer>)
        requires
            self.wf(),
        ensures
            pointer_addrs(r@) == ref_addrs(
                XrefKind::Relative,
                self.snapshot().maps@,
                e,
                *constraints,
                instruction_length,
                self.address,
            ),
            forall|i: int|
                0 <= i < r@.len() ==> (#[trigger] r@[i]).maps == self.maps && !r@[i].invalid,
    {
        self.find_references_impl(XrefKind::Relative, e, instruction_length, constraints)
    }

    /// The pointers at every absolute reference to this pointer's address
    /// inside the allowed parts of the snapshot.
    pub fn find_absolute_references(
        &self,
        e: Endianness,
        constraints: &SearchConstraints,
    ) -> (r: Vec<SafePointer>)
        requires
            self.wf(),
        ensures
            pointer_addrs(r@) == ref_addrs(
                XrefKind::Absolute,
                self.snapshot().maps@,
                e,
                *constraints,
                0,
                self.address,
            ),
            forall|i: int|
                0 <= i < r@.len() ==> (#[trigger] r@[i]).maps == self.maps && !r@[i].invalid,
    {
        self.find_references_impl(XrefKind::Absolute, e, 0, constraints)
    }
}

} // verus!
