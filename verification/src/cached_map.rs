//! One captured memory region: its address bounds, permissions, name and a
//! full copy of its bytes.

use vstd::prelude::*;

use crate::byteseq::{basename, matches_basename};

verus! {

/// The permission bits of a region.
#[derive(Clone, Copy, PartialEq, Eq, Structural, Debug)]
pub struct Permissions {
    pub read: bool,
    pub write: bool,
    pub execute: bool,
    pub shared: bool,
    pub private: bool,
}

/// The kernel's categorisation of a region, with paths held as plain
/// strings.
#[derive(Clone, Debug)]
pub enum MapName {
    /// Backed by a file at this path.
    Path(String),
    /// The process's heap.
    Heap,
    /// The main thread's stack.
    Stack,
    /// A thread's stack, by thread id.
    TStack(u32),
    /// The virtual dynamically linked shared object.
    Vdso,
    /// Shared kernel variables.
    Vvar,
    /// Obsolete virtual syscalls.
    Vsyscall,
    /// A rollup over mappings.
    Rollup,
    /// An anonymous mapping.
    Anonymous,
    /// A shared memory segment, by key.
    Vsys(i32),
    /// Some other pseudo-path.
    Other(String),
}

/// Whether a region name's basename equals `target`: for file-backed and
/// pseudo-path names the final `/`-separated segment of the path is
/// compared; every other kind of name matches nothing.
pub open spec fn name_matches(name: MapName, target: Seq<u8>) -> bool {
    match name {
        MapName::Path(p) => basename(vstd::utf8::encode_utf8(p@)) == target,
        MapName::Other(p) => basename(vstd::utf8::encode_utf8(p@)) == target,
        _ => false,
    }
}

/// Decides `name_matches` for a name held in a region.
pub fn name_matches_exec(name: &MapName, target: &[u8]) -> (r: bool)
    ensures
        r == name_matches(*name, target@),
{
    match name {
        MapName::Path(p) => matches_basename(p.as_str().as_bytes(), target),
        MapName::Other(p) => matches_basename(p.as_str().as_bytes(), target),
        _ => false,
    }
}

/// An immutable record of one contiguous region `[from_address,
/// to_address)` and the bytes captured from it.
#[derive(Debug)]
pub struct CachedMap {
    pub from_address: usize,
    pub to_address: usize,
    pub permissions: Permissions,
    pub name: MapName,
    pub bytes: Vec<u8>,
}

impl CachedMap {
    /// The region's invariant: non-empty bounds and exactly one captured
    /// byte per address.
    pub open spec fn wf(self) -> bool {
        &&& self.from_address < self.to_address
        &&& self.bytes@.len() == self.to_address - self.from_address
    }

    /// Whether `address` lies inside the region.
    pub open spec fn spec_contains(self, address: usize) -> bool {
        self.from_address <= address < self.to_address
    }

    pub fn new(
        from_address: usize,
        to_address: usize,
        permissions: Permissions,
        name: MapName,
        bytes: Vec<u8>,
    ) -> (r: CachedMap)
        requires
            from_address < to_address,
            bytes@.len() == to_address - from_address,
        ensures
            r == (CachedMap { from_address, to_address, permissions, name, bytes }),
            r.wf(),
    {
        CachedMap { from_address, to_address, permissions, name, bytes }
    }

    pub fn get_from_address(&self) -> (r: usize)
        ensures
            r == self.from_address,
    {
        self.from_address
    }

    pub fn get_to_address(&self) -> (r: usize)
        ensures
            r == self.to_address,
    {
        self.to_address
    }

    pub fn get_size(&self) -> (r: usize)
        requires
            self.wf(),
        ensures
            r == self.to_address - self.from_address,
    {
        self.to_address - self.from_address
    }

    pub fn get_permissions(&self) -> (r: Permissions)
        ensures
            r == self.permissions,
    {
        self.permissions
    }

    pub fn get_name(&self) -> (r: &MapName)
        ensures
            *r == self.name,
    {
        &self.name
    }

    pub fn get_bytes(&self) -> (r: &[u8])
        ensures
            r@ == self.bytes@,
    {
        self.bytes.as_slice()
    }

    /// Whether `address` lies inside the region.
    pub fn contains(&self, address: usize) -> (r: bool)
        ensures
            r == self.spec_contains(address),
    {
        self.from_address <= address && address < self.to_address
    }
}

} // verus!
