//! The snapshot index: captured regions ordered by start address and
//! disjoint, with logarithmic lookup of the region containing an address.

use vstd::prelude::*;

use crate::cached_map::CachedMap;

verus! {

/// The ordered, disjoint collection of captured regions.
#[derive(Debug)]
pub struct CachedMaps {
    pub maps: Vec<CachedMap>,
}

impl CachedMaps {
    /// The index's invariant: every region is well formed and regions are
    /// sorted by start address with no overlap.
    pub open spec fn wf(self) -> bool {
        &&& forall|i: int| 0 <= i < self.maps@.len() ==> (#[trigger] self.maps@[i]).wf()
        &&& forall|i: int, j: int|
            0 <= i < j < self.maps@.len() ==> (#[trigger] self.maps@[i]).to_address
                <= (#[trigger] self.maps@[j]).from_address
    }

    /// Whether some region of the snapshot contains `address`.
    pub open spec fn has_region(self, address: usize) -> bool {
        exists|i: int|
            0 <= i < self.maps@.len() && (#[trigger] self.maps@[i]).spec_contains(address)
    }

    /// The region of the snapshot containing `address`, when one does.
    pub open spec fn region_at(self, address: usize) -> CachedMap {
        self.maps@[choose|i: int|
            0 <= i < self.maps@.len() && (#[trigger] self.maps@[i]).spec_contains(address)]
    }

    pub fn new() -> (r: CachedMaps)
        ensures
            r.maps@.len() == 0,
            r.wf(),
    {
        CachedMaps { maps: Vec::new() }
    }

    pub fn len(&self) -> (r: usize)
        ensures
            r == self.maps@.len(),
    {
        self.maps.len()
    }

    /// The region at index `i`.
    pub fn get(&self, i: usize) -> (r: &CachedMap)
        requires
            i < self.maps@.len(),
        ensures
            *r == self.maps@[i as int],
    {
        &self.maps[i]
    }

    /// Adds a region that does not overlap any region already present,
    /// keeping the order by start address.
    pub fn insert(&mut self, region: CachedMap)
        requires
            old(self).wf(),
            region.wf(),
            forall|i: int|
                0 <= i < old(self).maps@.len() ==> (#[trigger] old(
                    self,
                ).maps@[i]).to_address <= region.from_address || region.to_address <= old(
                    self,
                ).maps@[i].from_address,
        ensures
            final(self).wf(),
            exists|k: int|
                0 <= k <= old(self).maps@.len() && final(self).maps@ == old(self).maps@.insert(
                    k,
                    region,
                ),
    {
        let n = self.maps.len();
        let mut k: usize = 0;
        while k < n && self.maps[k].from_address < region.from_address
            invariant
                n == self.maps@.len(),
                k <= n,
                forall|i: int|
                    0 <= i < k ==> (#[trigger] self.maps@[i]).from_address < region.from_address,
            decreases n - k,
        {
            k = k + 1;
        }
        let ghost old_maps = self.maps@;
        self.maps.insert(k, region);
        proof {
            let new_maps = old_maps.insert(k as int, region);
            assert(self.maps@ == new_maps);
            assert forall|i: int, j: int| 0 <= i < j < new_maps.len() implies (
            #[trigger] new_maps[i]).to_address <= (#[trigger] new_maps[j]).from_address by {
                if i < k && j == k {
                    assert(old_maps[i].from_address < region.from_address);
                    assert(old_maps[i].to_address <= region.from_address || region.to_address
                        <= old_maps[i].from_address);
                } else if i == k && j > k {
                    assert(new_maps[j] == old_maps[j - 1]);
                    if k < old_maps.len() {
                        assert(!(old_maps[k as int].from_address < region.from_address));
                        if j - 1 > k {
                            assert(old_maps[k as int].to_address <= old_maps[j - 1].from_address);
                        }
                        assert(old_maps[j - 1].to_address <= region.from_address
                            || region.to_address <= old_maps[j - 1].from_address);
                    }
                } else if i < k && j < k {
                    assert(new_maps[i] == old_maps[i]);
                } else {
                }
            }
        }
    }
}

/// Lookup of the region containing an address.
pub trait FindAddress {
    /// The regions held, in index order.
    spec fn regions(&self) -> Seq<CachedMap>;

    /// The holder's invariant: regions well formed, sorted and disjoint.
    spec fn regions_wf(&self) -> bool;

    /// Returns the region containing `address`, or nothing when no region
    /// does.
    fn find_map(&self, address: usize) -> (r: Option<&CachedMap>)
        requires
            self.regions_wf(),
        ensures
            match r {
                Some(m) => m.spec_contains(address) && exists|i: int|
                    0 <= i < self.regions().len() && #[trigger] self.regions()[i] == *m,
                None => forall|i: int|
                    0 <= i < self.regions().len() ==> !(#[trigger] self.regions()[i]).spec_contains(
                        address,
                    ),
            },
    ;
}

impl FindAddress for CachedMaps {
    open spec fn regions(&self) -> Seq<CachedMap> {
        self.maps@
    }

    open spec fn regions_wf(&self) -> bool {
        self.wf()
    }

    fn find_map(&self, address: usize) -> (r: Option<&CachedMap>) {
        let n = self.maps.len();
        // Binary search for the greatest start address at most `address`.
        let mut lo: usize = 0;
        let mut hi: usize = n;
        while lo < hi
            invariant
                self.wf(),
                n == self.maps@.len(),
                lo <= hi <= n,
                forall|i: int|
                    0 <= i < lo ==> (#[trigger] self.maps@[i]).from_address <= address,
                forall|i: int|
                    hi <= i < n ==> (#[trigger] self.maps@[i]).from_address > address,
            decreases hi - lo,
        {
            let mid = lo + (hi - lo) / 2;
            if self.maps[mid].from_address <= address {
                lo = mid + 1;
            } else {
                hi = mid;
            }
        }
        // Regions below `lo` start at or before `address`; the candidate is
        // the last of them.
        if lo == 0 {
            return None;
        }
        let candidate = &self.maps[lo - 1];
        if address < candidate.to_address {
            proof {
                assert(self.regions()[lo - 1] == *candidate);
            }
            Some(candidate)
        } else {
            proof {
                assert forall|i: int| 0 <= i < self.maps@.len() implies !(
                #[trigger] self.maps@[i]).spec_contains(address) by {
                    if i < lo - 1 {
                        assert(self.maps@[i].to_address <= self.maps@[lo - 1].from_address);
                    }
                }
            }
            None
        }
    }
}

/// The region containing an address is unique: any index whose region
/// contains the address names `region_at`.
pub proof fn lemma_region_unique(m: CachedMaps, address: usize, i: int)
    requires
        m.wf(),
        0 <= i < m.maps@.len(),
        m.maps@[i].spec_contains(address),
    ensures
        m.region_at(address) == m.maps@[i],
{
    let j = choose|j: int|
        0 <= j < m.maps@.len() && (#[trigger] m.maps@[j]).spec_contains(address);
    if i < j {
        assert(m.maps@[i].to_address <= m.maps@[j].from_address);
    } else if j < i {
        assert(m.maps@[j].to_address <= m.maps@[i].from_address);
    }
}

} // verus!
