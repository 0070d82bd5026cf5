//! The entry point: builds the shared snapshot from fully read region
//! records and hands out seeded sessions.

use std::rc::Rc;

use vstd::prelude::*;

use crate::cached_map::CachedMap;
use crate::cached_maps::CachedMaps;
use crate::safe_pointer::SafePointer;
use crate::scan::{concat_over, lemma_concat_over_snoc, lemma_hits_from_sorted};
use crate::search_constraints::SearchConstraints;
use crate::session::Session;
use crate::sigscan::{SigElem, Signature, all_matches, matches_at};

verus! {

/// The addresses at which a pattern matches inside one region, under the
/// constraints: when the region is allowed, each match offset `h` of the
/// clamped window names the absolute address `lo + h`.
pub open spec fn region_sig_addrs(
    r: CachedMap,
    elems: Seq<SigElem>,
    c: SearchConstraints,
) -> Seq<int> {
    if c.spec_allows(r) {
        match c.spec_clamp((r.from_address, r.to_address)) {
            Some((lo, hi)) => all_matches(
                elems,
                crate::safe_pointer::region_window(r, lo, hi),
            ).map_values(|h: int| lo + h),
            None => Seq::empty(),
        }
    } else {
        Seq::empty()
    }
}

/// The addresses of every match over a whole snapshot, region by region
/// in index order.
pub open spec fn sig_scan_addrs(
    regions: Seq<CachedMap>,
    elems: Seq<SigElem>,
    c: SearchConstraints,
) -> Seq<int> {
    concat_over(regions, |r: CachedMap| region_sig_addrs(r, elems, c))
}

/// When a pattern matches at window offset `h` of an allowed region, a
/// signature scan over the snapshot emits the absolute address `lo + h`.
pub proof fn lemma_signature_emits(
    regions: Seq<CachedMap>,
    elems: Seq<SigElem>,
    c: SearchConstraints,
    i: int,
    h: int,
    lo: usize,
    hi: usize,
)
    requires
        0 <= i < regions.len(),
        c.spec_allows(regions[i]),
        c.spec_clamp((regions[i].from_address, regions[i].to_address)) == Some((lo, hi)),
        matches_at(elems, crate::safe_pointer::region_window(regions[i], lo, hi), h),
    ensures
        sig_scan_addrs(regions, elems, c).contains(lo + h),
{
    let f = |r: CachedMap| region_sig_addrs(r, elems, c);
    let window = crate::safe_pointer::region_window(regions[i], lo, hi);
    let ms = all_matches(elems, window);
    crate::sigscan::lemma_all_matches_iff(elems, window, h);
    let j = choose|j: int| 0 <= j < ms.len() && ms[j] == h;
    let mapped = ms.map_values(|x: int| lo + x);
    assert(mapped[j] == lo + h);
    assert(f(regions[i]).contains(lo + h));
    crate::scan::lemma_concat_over_contains(regions, f, lo + h);
}

/// Over an empty snapshot a signature scan emits nothing.
pub proof fn lemma_empty_snapshot_signature(elems: Seq<SigElem>, c: SearchConstraints)
    ensures
        sig_scan_addrs(Seq::<CachedMap>::empty(), elems, c).len() == 0,
{
}

/// Builds snapshots and seeds sessions over them.
#[derive(Debug)]
pub struct BcrlFactory {
    pub maps: Rc<CachedMaps>,
}

impl BcrlFactory {
    pub open spec fn snapshot(self) -> CachedMaps {
        *self.maps
    }

    pub open spec fn wf(self) -> bool {
        self.snapshot().wf()
    }

    /// Builds a snapshot from fully read regions. A region that is ill
    /// formed or overlaps one already kept is skipped; when the input
    /// regions are well formed and pairwise disjoint, all are kept.
    pub fn from_regions(regions: Vec<CachedMap>) -> (r: BcrlFactory)
        ensures
            r.wf(),
            forall|i: int|
                0 <= i < r.snapshot().maps@.len() ==> regions@.contains(
                    #[trigger] r.snapshot().maps@[i],
                ),
            ((forall|i: int| 0 <= i < regions@.len() ==> (#[trigger] regions@[i]).wf())
                && (forall|i: int, j: int|
                #![trigger regions@[i], regions@[j]]
                0 <= i < j < regions@.len() ==> regions@[i].to_address
                    <= regions@[j].from_address || regions@[j].to_address
                    <= regions@[i].from_address)) ==> forall|i: int|
                0 <= i < regions@.len() ==> r.snapshot().maps@.contains(#[trigger] regions@[i]),
    {
        let ghost input = regions@;
        let mut regions = regions;
        let mut maps = CachedMaps::new();
        let ghost kept_disjoint_wf = (forall|i: int|
            0 <= i < input.len() ==> (#[trigger] input[i]).wf()) && (forall|i: int, j: int|
            #![trigger input[i], input[j]]
            0 <= i < j < input.len() ==> input[i].to_address <= input[j].from_address
                || input[j].to_address <= input[i].from_address);
        let mut k: usize = 0;
        let n = regions.len();
        while k < n
            invariant
                n == input.len(),
                regions@ == input.skip(k as int),
                k <= n,
                maps.wf(),
                forall|i: int|
                    0 <= i < maps.maps@.len() ==> input.contains(#[trigger] maps.maps@[i]),
                kept_disjoint_wf == ((forall|i: int|
                    0 <= i < input.len() ==> (#[trigger] input[i]).wf()) && (forall|
                    i: int,
                    j: int,
                |
                    #![trigger input[i], input[j]]
                    0 <= i < j < input.len() ==> input[i].to_address <= input[j].from_address
                        || input[j].to_address <= input[i].from_address)),
                kept_disjoint_wf ==> forall|i: int|
                    0 <= i < k ==> maps.maps@.contains(#[trigger] input[i]),
                kept_disjoint_wf ==> forall|i: int|
                    0 <= i < maps.maps@.len() ==> exists|j: int|
                        0 <= j < k && #[trigger] maps.maps@[i] == input[j],
            decreases n - k,
        {
            let region = regions.remove(0);
            proof {
                assert(region == input[k as int]);
                assert(input.skip(k as int).remove(0) =~= input.skip(k + 1));
            }
            let ok_shape = region.from_address < region.to_address && region.bytes.len()
                == region.to_address - region.from_address;
            if ok_shape {
                let disjoint = all_disjoint(&maps, &region);
                if disjoint {
                    let ghost old_maps = maps.maps@;
                    maps.insert(region);
                    proof {
                        let m = choose|m: int|
                            0 <= m <= old_maps.len() && maps.maps@ == old_maps.insert(
                                m,
                                input[k as int],
                            );
                        assert forall|i: int| 0 <= i < maps.maps@.len() implies input.contains(
                            #[trigger] maps.maps@[i],
                        ) by {
                            if i < m {
                                assert(maps.maps@[i] == old_maps[i]);
                            } else if i == m {
                                assert(maps.maps@[i] == input[k as int]);
                            } else {
                                assert(maps.maps@[i] == old_maps[i - 1]);
                            }
                        }
                        if kept_disjoint_wf {
                            assert forall|i: int| 0 <= i < k + 1 implies maps.maps@.contains(
                                #[trigger] input[i],
                            ) by {
                                if i < k {
                                    let w = choose|w: int|
                                        0 <= w < old_maps.len() && old_maps[w] == input[i];
                                    if w < m {
                                        assert(maps.maps@[w] == input[i]);
                                    } else {
                                        assert(maps.maps@[w + 1] == input[i]);
                                    }
                                } else {
                                    assert(maps.maps@[m] == input[i]);
                                }
                            }
                            assert forall|i: int| 0 <= i < maps.maps@.len() implies exists|
                                j: int,
                            |
                                0 <= j < k + 1 && #[trigger] maps.maps@[i] == input[j] by {
                                if i < m {
                                    assert(maps.maps@[i] == old_maps[i]);
                                } else if i == m {
                                    assert(maps.maps@[i] == input[k as int]);
                                } else {
                                    assert(maps.maps@[i] == old_maps[i - 1]);
                                }
                            }
                        }
                    }
                } else {
                    proof {
                        if kept_disjoint_wf {
                            disjoint_input_all_kept(maps.maps@, input, k as int);
                        }
                    }
                }
            } else {
                proof {
                    if kept_disjoint_wf {
                        assert(!input[k as int].wf());
                    }
                }
            }
            k = k + 1;
        }
        BcrlFactory { maps: Rc::new(maps) }
    }

    /// Whether snapshot capture keeps a region backed by the given
    /// device: with `capture_dynamic` unset, regions whose backing device
    /// id is zero (anonymous mappings such as the heap and the stack) are
    /// skipped.
    pub fn captures_region(dev_major: i32, dev_minor: i32, capture_dynamic: bool) -> (r: bool)
        ensures
            r == (capture_dynamic || dev_major != 0 || dev_minor != 0),
    {
        capture_dynamic || dev_major != 0 || dev_minor != 0
    }

    /// The shared snapshot itself.
    pub fn get_cache(&self) -> (r: Rc<CachedMaps>)
        ensures
            *r == self.snapshot(),
    {
        self.maps.clone()
    }

    /// A session holding one pointer for every match of the pattern in
    /// the allowed parts of the snapshot.
    pub fn signature(&self, pattern: Signature, constraints: SearchConstraints) -> (r: Session)
        requires
            self.wf(),
        ensures
            crate::safe_pointer::pointer_addrs(r.pool@) == sig_scan_addrs(
                self.snapshot().maps@,
                pattern.elements@,
                constraints,
            ),
            forall|i: int|
                0 <= i < r.pool@.len() ==> (#[trigger] r.pool@[i]).maps == self.maps
                    && !r.pool@[i].invalid,
    {
        let ghost f = |rg: CachedMap| region_sig_addrs(rg, pattern.elements@, constraints);
        let maps: &CachedMaps = &self.maps;
        let n = maps.len();
        let mut pool: Vec<SafePointer> = Vec::new();
        proof {
            assert(maps.maps@.take(0) =~= Seq::<CachedMap>::empty());
            assert(crate::safe_pointer::pointer_addrs(pool@) =~= concat_over(
                maps.maps@.take(0),
                f,
            ));
        }
        let mut idx: usize = 0;
        while idx < n
            invariant
                self.wf(),
                maps == &self.maps,
                n == maps.maps@.len(),
                idx <= n,
                crate::safe_pointer::pointer_addrs(pool@) == concat_over(
                    maps.maps@.take(idx as int),
                    f,
                ),
                forall|i: int|
                    0 <= i < pool@.len() ==> (#[trigger] pool@[i]).maps == self.maps
                        && !pool@[i].invalid,
                f == (|rg: CachedMap| region_sig_addrs(rg, pattern.elements@, constraints)),
            decreases n - idx,
        {
            let region = maps.get(idx);
            proof {
                lemma_concat_over_snoc(maps.maps@.take(idx + 1), f);
                assert(maps.maps@.take(idx + 1).drop_last() =~= maps.maps@.take(idx as int));
                assert(maps.maps@.take(idx + 1).last() == maps.maps@[idx as int]);
                assert(maps.maps@[idx as int].wf());
            }
            let allowed = constraints.allows_map(region);
            if allowed {
                match constraints.clamp_address_range(
                    (region.get_from_address(), region.get_to_address()),
                ) {
                    None => {
                        proof {
                            assert(f(maps.maps@[idx as int]) =~= Seq::<int>::empty());
                            assert(concat_over(maps.maps@.take(idx as int), f) + Seq::<
                                int,
                            >::empty() =~= concat_over(maps.maps@.take(idx as int), f));
                        }
                    },
                    Some((lo, hi)) => {
                        let off_lo = lo - region.get_from_address();
                        let off_hi = hi - region.get_from_address();
                        let window = vstd::slice::slice_subrange(
                            region.get_bytes(),
                            off_lo,
                            off_hi,
                        );
                        let offsets = pattern.all(window);
                        proof {
                            lemma_hits_from_sorted(
                                |o: int| matches_at(pattern.elements@, window@, o),
                                window@.len() - pattern.elements@.len() + 1,
                                0,
                            );
                        }
                        let ghost hits_here = all_matches(pattern.elements@, window@);
                        let ghost before = pool@;
                        let m = offsets.len();
                        let mut j: usize = 0;
                        while j < m
                            invariant
                                self.wf(),
                                maps == &self.maps,
                                m == offsets@.len(),
                                j <= m,
                                offsets@.map_values(|x: usize| x as int) == hits_here,
                                forall|i: int|
                                    0 <= i < hits_here.len() ==> 0 <= #[trigger] hits_here[i]
                                        <= window@.len(),
                                window@.len() == hi - lo,
                                lo < hi <= usize::MAX,
                                idx < maps.maps@.len(),
                                pool@.len() == before.len() + j,
                                pool@.subrange(0, before.len() as int) == before,
                                forall|i: int|
                                    0 <= i < j ==> (#[trigger] pool@[before.len() + i]).address
                                        as int == lo + hits_here[i],
                                forall|i: int|
                                    0 <= i < pool@.len() ==> (#[trigger] pool@[i]).maps
                                        == self.maps && !pool@[i].invalid,
                            decreases m - j,
                        {
                            let o = offsets[j];
                            proof {
                                assert(offsets@.map_values(|x: usize| x as int)[j as int]
                                    == hits_here[j as int]);
                            }
                            let p_new = SafePointer::new(self.maps.clone(), lo + o);
                            pool.push(p_new);
                            proof {
                                assert(pool@.subrange(0, before.len() as int) =~= before);
                            }
                            j = j + 1;
                        }
                        proof {
                            let rg = maps.maps@[idx as int];
                            let piece = hits_here.map_values(|h: int| lo + h);
                            assert(window@ =~= crate::safe_pointer::region_window(rg, lo, hi));
                            assert(f(rg) =~= piece);
                            assert(crate::safe_pointer::pointer_addrs(before) == concat_over(
                                maps.maps@.take(idx as int),
                                f,
                            ));
                            assert(pool@.len() == before.len() + hits_here.len());
                            assert forall|i: int|
                                0 <= i < pool@.len() implies crate::safe_pointer::pointer_addrs(
                                pool@,
                            )[i] == (concat_over(maps.maps@.take(idx as int), f) + piece)[i] by {
                                if i < before.len() {
                                    assert(crate::safe_pointer::pointer_addrs(before)[i]
                                        == before[i].address as int);
                                } else {
                                    assert(pool@[before.len() + (i - before.len())].address
                                        as int == lo + hits_here[i - before.len()]);
                                }
                            }
                            assert(crate::safe_pointer::pointer_addrs(pool@) =~= concat_over(
                                maps.maps@.take(idx as int),
                                f,
                            ) + piece);
                        }
                    },
                }
            } else {
                proof {
                    assert(f(maps.maps@[idx as int]) =~= Seq::<int>::empty());
                    assert(concat_over(maps.maps@.take(idx as int), f) + Seq::<int>::empty()
                        =~= concat_over(maps.maps@.take(idx as int), f));
                }
            }
            idx = idx + 1;
        }
        proof {
            assert(maps.maps@.take(n as int) =~= maps.maps@);
        }
        Session { pool }
    }

    /// A session holding one pointer per given address, in order.
    pub fn pointers(&self, addresses: Vec<usize>) -> (r: Session)
        ensures
            r.pool@.len() == addresses@.len(),
            forall|i: int|
                0 <= i < addresses@.len() ==> #[trigger] r.pool@[i] == (SafePointer {
                    maps: self.maps,
                    address: addresses@[i],
                    invalid: false,
                }),
    {
        let n = addresses.len();
        let mut pool: Vec<SafePointer> = Vec::new();
        let mut i: usize = 0;
        while i < n
            invariant
                n == addresses@.len(),
                i <= n,
                pool@.len() == i,
                forall|j: int|
                    0 <= j < i ==> #[trigger] pool@[j] == (SafePointer {
                        maps: self.maps,
                        address: addresses@[j],
                        invalid: false,
                    }),
            decreases n - i,
        {
            let a = addresses[i];
            pool.push(SafePointer::new(self.maps.clone(), a));
            i = i + 1;
        }
        Session { pool }
    }

    /// A session holding a single pointer at the given address.
    pub fn pointer(&self, address: usize) -> (r: Session)
        ensures
            r.pool@.len() == 1,
            r.pool@[0] == (SafePointer { maps: self.maps, address, invalid: false }),
    {
        let mut pool: Vec<SafePointer> = Vec::new();
        pool.push(SafePointer::new(self.maps.clone(), address));
        Session { pool }
    }
}

/// Whether the region overlaps none of the regions already kept.
fn all_disjoint(maps: &CachedMaps, region: &CachedMap) -> (r: bool)
    ensures
        r == forall|i: int|
            0 <= i < maps.maps@.len() ==> (#[trigger] maps.maps@[i]).to_address
                <= region.from_address || region.to_address <= maps.maps@[i].from_address,
{
    let n = maps.len();
    let mut i: usize = 0;
    while i < n
        invariant
            n == maps.maps@.len(),
            i <= n,
            forall|j: int|
                0 <= j < i ==> (#[trigger] maps.maps@[j]).to_address <= region.from_address
                    || region.to_address <= maps.maps@[j].from_address,
        decreases n - i,
    {
        let m = maps.get(i);
        let separate = m.get_to_address() <= region.get_from_address()
            || region.get_to_address() <= m.get_from_address();
        if !separate {
            return false;
        }
        i = i + 1;
    }
    true
}

/// When every kept region comes from the input before index `k` and the
/// input is pairwise disjoint, the input's member `k` overlaps no kept
/// region.
proof fn disjoint_input_all_kept(kept: Seq<CachedMap>, input: Seq<CachedMap>, k: int)
    requires
        0 <= k < input.len(),
        forall|i: int| 0 <= i < kept.len() ==> exists|j: int|
            0 <= j < k && #[trigger] kept[i] == input[j],
        forall|i: int, j: int|
            #![trigger input[i], input[j]]
            0 <= i < j < input.len() ==> input[i].to_address <= input[j].from_address
                || input[j].to_address <= input[i].from_address,
    ensures
        forall|i: int|
            0 <= i < kept.len() ==> (#[trigger] kept[i]).to_address <= input[k].from_address
                || input[k].to_address <= kept[i].from_address,
{
    assert forall|i: int| 0 <= i < kept.len() implies (#[trigger] kept[i]).to_address
        <= input[k].from_address || input[k].to_address <= kept[i].from_address by {
        let j = choose|j: int| 0 <= j < k && kept[i] == input[j];
        assert(input[j].to_address <= input[k].from_address || input[k].to_address
            <= input[j].from_address);
    }
}

} // verus!
