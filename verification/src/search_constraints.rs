//! Composable filters over regions: an address window, required permission
//! bits and region-name predicates, plus a range-clamping helper.

use vstd::prelude::*;

use crate::cached_map::{CachedMap, MapName, name_matches, name_matches_exec};

verus! {

/// A filter over regions. A region passes when the address window overlaps
/// it, each permission tri-state is unset or equals the region's bit, and
/// its name's basename equals every required name.
#[derive(Debug)]
pub struct SearchConstraints {
    pub address_range: (usize, usize),
    pub name_predicates: Vec<String>,
    pub readable: Option<bool>,
    pub writable: Option<bool>,
    pub executable: Option<bool>,
}

/// Whether a permission requirement accepts an actual permission bit.
pub open spec fn perm_ok(want: Option<bool>, actual: bool) -> bool {
    match want {
        None => true,
        Some(b) => b == actual,
    }
}

impl SearchConstraints {
    /// The constraint that allows every region.
    pub open spec fn is_everything(self) -> bool {
        &&& self.address_range.0 == 0
        &&& self.address_range.1 == usize::MAX
        &&& self.name_predicates@.len() == 0
        &&& self.readable is None
        &&& self.writable is None
        &&& self.executable is None
    }

    /// Whether the address window admits `address`.
    pub open spec fn spec_allows_address(self, address: usize) -> bool {
        self.address_range.0 <= address < self.address_range.1
    }

    /// Whether every required name matches the region name.
    pub open spec fn spec_names_allow(self, name: MapName) -> bool {
        forall|i: int|
            0 <= i < self.name_predicates@.len() ==> name_matches(
                name,
                vstd::utf8::encode_utf8((#[trigger] self.name_predicates@[i])@),
            )
    }

    /// Whether the address window overlaps the half-open range
    /// `[from, to)`.
    pub open spec fn spec_overlaps(self, from: usize, to: usize) -> bool {
        max_usize(self.address_range.0, from) < min_usize(self.address_range.1, to)
    }

    /// Whether the constraint allows the region.
    pub open spec fn spec_allows(self, map: CachedMap) -> bool {
        &&& self.spec_names_allow(map.name)
        &&& self.spec_overlaps(map.from_address, map.to_address)
        &&& perm_ok(self.readable, map.permissions.read)
        &&& perm_ok(self.writable, map.permissions.write)
        &&& perm_ok(self.executable, map.permissions.execute)
    }

    /// The intersection of the address window with `[range.0, range.1)`,
    /// or nothing when they are disjoint.
    pub open spec fn spec_clamp(self, range: (usize, usize)) -> Option<(usize, usize)> {
        let lo = max_usize(self.address_range.0, range.0);
        let hi = min_usize(self.address_range.1, range.1);
        if lo < hi {
            Some((lo, hi))
        } else {
            None
        }
    }

    pub fn get_address_range(&self) -> (r: (usize, usize))
        ensures
            r == self.address_range,
    {
        self.address_range
    }

    /// Intersects the constraint's address window with the given absolute
    /// range; `None` signals an empty intersection.
    pub fn clamp_address_range(&self, range: (usize, usize)) -> (r: Option<(usize, usize)>)
        ensures
            r == self.spec_clamp(range),
    {
        let lo = if self.address_range.0 > range.0 {
            self.address_range.0
        } else {
            range.0
        };
        let hi = if self.address_range.1 < range.1 {
            self.address_range.1
        } else {
            range.1
        };
        if lo < hi {
            Some((lo, hi))
        } else {
            None
        }
    }

    pub fn get_readable(&self) -> (r: Option<bool>)
        ensures
            r == self.readable,
    {
        self.readable
    }

    pub fn get_writable(&self) -> (r: Option<bool>)
        ensures
            r == self.writable,
    {
        self.writable
    }

    pub fn get_executable(&self) -> (r: Option<bool>)
        ensures
            r == self.executable,
    {
        self.executable
    }

    /// The identity constraint.
    pub fn everything() -> (r: SearchConstraints)
        ensures
            r.is_everything(),
    {
        SearchConstraints {
            address_range: (0, usize::MAX),
            name_predicates: Vec::new(),
            readable: None,
            writable: None,
            executable: None,
        }
    }

    /// Requires the region name's basename to equal `name`.
    pub fn with_name(self, name: String) -> (r: SearchConstraints)
        ensures
            r.name_predicates@ == self.name_predicates@.push(name),
            r.address_range == self.address_range,
            r.readable == self.readable,
            r.writable == self.writable,
            r.executable == self.executable,
    {
        let mut s = self;
        s.name_predicates.push(name);
        s
    }

    /// Sets the window's lower bound, raising the upper bound to it when
    /// needed.
    pub fn from(self, value: usize) -> (r: SearchConstraints)
        ensures
            r.address_range.0 == value,
            r.address_range.1 == max_usize(self.address_range.1, value),
            r.name_predicates@ == self.name_predicates@,
            r.readable == self.readable,
            r.writable == self.writable,
            r.executable == self.executable,
    {
        let mut s = self;
        s.address_range.0 = value;
        if s.address_range.1 < value {
            s.address_range.1 = value;
        }
        s
    }

    /// Sets the window's upper bound, lowering the lower bound to it when
    /// needed.
    pub fn to(self, value: usize) -> (r: SearchConstraints)
        ensures
            r.address_range.1 == value,
            r.address_range.0 == min_usize(self.address_range.0, value),
            r.name_predicates@ == self.name_predicates@,
            r.readable == self.readable,
            r.writable == self.writable,
            r.executable == self.executable,
    {
        let mut s = self;
        s.address_range.1 = value;
        if s.address_range.0 > value {
            s.address_range.0 = value;
        }
        s
    }

    pub fn thats_readable(self) -> (r: SearchConstraints)
        ensures
            r == (SearchConstraints { readable: Some(true), ..self }),
    {
        SearchConstraints { readable: Some(true), ..self }
    }

    pub fn thats_not_readable(self) -> (r: SearchConstraints)
        ensures
            r == (SearchConstraints { readable: Some(false), ..self }),
    {
        SearchConstraints { readable: Some(false), ..self }
    }

    pub fn thats_writable(self) -> (r: SearchConstraints)
        ensures
            r == (SearchConstraints { writable: Some(true), ..self }),
    {
        SearchConstraints { writable: Some(true), ..self }
    }

    pub fn thats_not_writable(self) -> (r: SearchConstraints)
        ensures
            r == (SearchConstraints { writable: Some(false), ..self }),
    {
        SearchConstraints { writable: Some(false), ..self }
    }

    pub fn thats_executable(self) -> (r: SearchConstraints)
        ensures
            r == (SearchConstraints { executable: Some(true), ..self }),
    {
        SearchConstraints { executable: Some(true), ..self }
    }

    pub fn thats_not_executable(self) -> (r: SearchConstraints)
        ensures
            r == (SearchConstraints { executable: Some(false), ..self }),
    {
        SearchConstraints { executable: Some(false), ..self }
    }

    /// Whether the address window admits `address`.
    pub fn allows_address(&self, address: usize) -> (r: bool)
        ensures
            r == self.spec_allows_address(address),
    {
        self.address_range.0 <= address && address < self.address_range.1
    }

    /// Whether the constraint allows the region.
    pub fn allows_map(&self, map: &CachedMap) -> (r: bool)
        ensures
            r == self.spec_allows(*map),
    {
        if !self.test(map) {
            return false;
        }
        let lo = if self.address_range.0 > map.from_address {
            self.address_range.0
        } else {
            map.from_address
        };
        let hi = if self.address_range.1 < map.to_address {
            self.address_range.1
        } else {
            map.to_address
        };
        if !(lo < hi) {
            return false;
        }
        match self.readable {
            Some(b) => if b != map.permissions.read {
                return false;
            },
            None => {},
        }
        match self.writable {
            Some(b) => if b != map.permissions.write {
                return false;
            },
            None => {},
        }
        match self.executable {
            Some(b) => if b != map.permissions.execute {
                return false;
            },
            None => {},
        }
        true
    }

    /// Whether every required name matches the region's name.
    pub fn test(&self, map: &CachedMap) -> (r: bool)
        ensures
            r == self.spec_names_allow(map.name),
    {
        let n = self.name_predicates.len();
        let mut i: usize = 0;
        while i < n
            invariant
                n == self.name_predicates@.len(),
                i <= n,
                forall|j: int|
                    0 <= j < i ==> name_matches(
                        map.name,
                        vstd::utf8::encode_utf8((#[trigger] self.name_predicates@[j])@),
                    ),
            decreases n - i,
        {
            let wanted = &self.name_predicates[i];
            if !name_matches_exec(&map.name, wanted.as_str().as_bytes()) {
                return false;
            }
            i = i + 1;
        }
        true
    }
}

/// The greater of two addresses.
pub open spec fn max_usize(a: usize, b: usize) -> usize {
    if a > b {
        a
    } else {
        b
    }
}

/// The smaller of two addresses.
pub open spec fn min_usize(a: usize, b: usize) -> usize {
    if a < b {
        a
    } else {
        b
    }
}

/// The identity constraint allows every well-formed region.
pub proof fn lemma_everything_allows(c: SearchConstraints, m: CachedMap)
    requires
        c.is_everything(),
        m.wf(),
    ensures
        c.spec_allows(m),
{
}

/// A window disjoint from a range clamps it to nothing.
pub proof fn lemma_clamp_disjoint_empty(c: SearchConstraints, range: (usize, usize))
    requires
        range.1 <= c.address_range.0 || c.address_range.1 <= range.0,
    ensures
        c.spec_clamp(range) is None,
{
}

} // verus!
