use bcrl_rs::cached_map::{CachedMap, MapName, Permissions};
use bcrl_rs::cached_maps::{CachedMaps, FindAddress};
use bcrl_rs::endian::Endianness;
use bcrl_rs::factory::BcrlFactory;
use bcrl_rs::instr::Isa;
use bcrl_rs::safe_pointer::SafePointer;
use bcrl_rs::search_constraints::SearchConstraints;
use bcrl_rs::sigscan::Signature;

fn rx() -> Permissions {
    Permissions { read: true, write: false, execute: true, shared: false, private: true }
}

fn region(from: usize, to: usize, bytes: Vec<u8>) -> CachedMap {
    CachedMap {
        from_address: from,
        to_address: to,
        permissions: rx(),
        name: MapName::Anonymous,
        bytes,
    }
}

#[test]
fn test_step_forwards_and_get_pointer() {
    let factory = BcrlFactory::from_regions(Vec::new());
    assert_eq!(factory.pointer(0x1000).step_forwards(4).get_pointer(), Ok(0x1004));
}

#[test]
fn test_dereference_without_backing_bytes_empties_pool() {
    let factory = BcrlFactory::from_regions(Vec::new());
    assert_eq!(factory.pointer(0x1000).dereference(Endianness::Little).get_pointer(), Err(0));
}

#[test]
fn test_get_pointer_counts_many() {
    let factory = BcrlFactory::from_regions(Vec::new());
    assert_eq!(factory.pointers(vec![0x10, 0x20, 0x30]).get_pointer(), Err(3));
    assert_eq!(factory.pointers(Vec::new()).get_pointer(), Err(0));
}

#[test]
fn test_add_sub_roundtrip_and_saturation() {
    let factory = BcrlFactory::from_regions(Vec::new());
    let mut p = SafePointer::new(factory.get_cache(), 0x5000);
    p.add(0x40);
    p.sub(0x40);
    assert_eq!(p.get_address(), 0x5000);
    assert!(!p.is_invalidated());

    let mut q = SafePointer::new(factory.get_cache(), 2);
    q.sub(5);
    assert_eq!(q.get_address(), 0);
    assert!(q.is_invalidated());
    q.revalidate();
    assert!(!q.is_invalidated());

    let mut r = SafePointer::new(factory.get_cache(), usize::MAX - 1);
    r.add(5);
    assert_eq!(r.get_address(), usize::MAX);
    assert!(r.is_invalidated());
}

#[test]
fn test_read_boundaries() {
    let factory = BcrlFactory::from_regions(vec![region(0x1000, 0x1010, vec![7; 16])]);
    let cache = factory.get_cache();

    // A read of the whole region from its first byte succeeds.
    let p = SafePointer::new(cache.clone(), 0x1000);
    assert!(p.is_valid(16));
    assert_eq!(p.read(16), Some(&[7u8; 16][..]));

    // The first address past the region holds nothing.
    let q = SafePointer::new(cache.clone(), 0x1010);
    assert!(!q.is_valid(1));
    assert_eq!(q.read(1), None);

    // A read may not span past the region's end.
    let s = SafePointer::new(cache, 0x100F);
    assert!(s.is_valid(1));
    assert!(!s.is_valid(2));
    assert_eq!(s.read(2), None);
}

#[test]
fn test_find_map_locates_containing_region() {
    let factory = BcrlFactory::from_regions(vec![
        region(0x1000, 0x1010, vec![0; 16]),
        region(0x3000, 0x3010, vec![1; 16]),
    ]);
    let cache = factory.get_cache();
    let maps: &CachedMaps = &cache;
    assert_eq!(maps.find_map(0x0FFF).map(|m| m.get_from_address()), None);
    assert_eq!(maps.find_map(0x1000).map(|m| m.get_from_address()), Some(0x1000));
    assert_eq!(maps.find_map(0x100F).map(|m| m.get_from_address()), Some(0x1000));
    assert_eq!(maps.find_map(0x1010).map(|m| m.get_from_address()), None);
    assert_eq!(maps.find_map(0x3005).map(|m| m.get_from_address()), Some(0x3000));
}

#[test]
fn test_next_instruction_x64() {
    // REX prefix plus `push rbp`: a two-byte instruction.
    let mut bytes = vec![0x40, 0x55];
    bytes.extend_from_slice(&[0x90; 14]);
    let factory = BcrlFactory::from_regions(vec![region(0x6000, 0x6010, bytes)]);
    assert_eq!(factory.pointer(0x6000).next_instruction(Isa::X64).get_pointer(), Ok(0x6002));
}

#[test]
fn test_next_instruction_x86() {
    // `push esi`: a one-byte instruction.
    let mut bytes = vec![0x56];
    bytes.extend_from_slice(&[0x90; 15]);
    let factory = BcrlFactory::from_regions(vec![region(0x6000, 0x6010, bytes)]);
    assert_eq!(factory.pointer(0x6000).next_instruction(Isa::X86).get_pointer(), Ok(0x6001));
}

#[test]
fn test_does_match_at_pointer() {
    let factory = BcrlFactory::from_regions(vec![region(0x1000, 0x1010, b"abcdefgh01234567".to_vec())]);
    let p = SafePointer::new(factory.get_cache(), 0x1002);
    assert!(p.does_match(&Signature::string("cde", false)));
    assert!(!p.does_match(&Signature::string("abc", false)));
}

#[test]
fn test_get_module_name() {
    let factory = BcrlFactory::from_regions(vec![CachedMap {
        from_address: 0x1000,
        to_address: 0x1010,
        permissions: rx(),
        name: MapName::Path("/lib/x.so".to_string()),
        bytes: vec![0; 16],
    }]);
    let p = SafePointer::new(factory.get_cache(), 0x1004);
    match p.get_module_name() {
        Some(MapName::Path(path)) => assert_eq!(path, "/lib/x.so"),
        other => panic!("unexpected name: {:?}", other),
    }
    let q = SafePointer::new(factory.get_cache(), 0x2000);
    assert!(q.get_module_name().is_none());
}

#[test]
fn test_session_filter_is_ordered_subsequence() {
    let factory = BcrlFactory::from_regions(Vec::new());
    let pool = factory
        .pointers(vec![1, 2, 3, 4, 5, 6])
        .filter(|p| p.get_address() % 2 == 0)
        .get_pool();
    assert_eq!(pool, vec![2, 4, 6]);
}

#[test]
fn test_session_mutate_drops_invalidated() {
    let factory = BcrlFactory::from_regions(Vec::new());
    let pool = factory
        .pointers(vec![10, 2, 30])
        .mutate(|p| {
            let mut p = p;
            p.sub(5);
            p
        })
        .get_pool();
    assert_eq!(pool, vec![5, 25]);
}

#[test]
fn test_session_map_keeps_every_pointer() {
    let factory = BcrlFactory::from_regions(Vec::new());
    let pool = factory
        .pointers(vec![10, 2, 30])
        .map(|p| {
            let mut p = p;
            p.sub(5);
            p
        })
        .get_pool();
    assert_eq!(pool, vec![5, 0, 25]);
}

#[test]
fn test_session_repeat_n() {
    let factory = BcrlFactory::from_regions(Vec::new());
    let result = factory
        .pointer(0x1000)
        .repeat_n(3, |p| {
            let mut p = p;
            p.add(2);
            p
        })
        .get_pointer();
    assert_eq!(result, Ok(0x1006));
}

#[test]
fn test_session_inspect_leaves_pool_unchanged() {
    let factory = BcrlFactory::from_regions(Vec::new());
    let pool = factory.pointers(vec![7, 8]).inspect(|_p| {}).get_pool();
    assert_eq!(pool, vec![7, 8]);
}

#[test]
fn test_next_instruction_invalid_opcode_empties_pool() {
    // 0x06 is not a valid first byte of an x86-64 instruction.
    let factory = BcrlFactory::from_regions(vec![region(0x6000, 0x6010, vec![0x06; 16])]);
    assert_eq!(factory.pointer(0x6000).next_instruction(Isa::X64).get_pointer(), Err(0));
}

#[test]
fn test_filter_module_matches_other_names() {
    let factory = BcrlFactory::from_regions(vec![
        CachedMap {
            from_address: 0x1000,
            to_address: 0x1010,
            permissions: rx(),
            name: MapName::Other("anon_inode:io_uring".to_string()),
            bytes: vec![0; 16],
        },
        CachedMap {
            from_address: 0x2000,
            to_address: 0x2010,
            permissions: rx(),
            name: MapName::Stack,
            bytes: vec![0; 16],
        },
    ]);
    let pool = factory
        .pointers(vec![0x1004, 0x2004])
        .filter_module("anon_inode:io_uring")
        .get_pool();
    assert_eq!(pool, vec![0x1004]);
}

#[test]
fn test_overlapping_region_is_skipped() {
    let factory = BcrlFactory::from_regions(vec![
        region(0x1000, 0x1010, vec![0; 16]),
        region(0x1008, 0x1018, vec![1; 16]),
    ]);
    let cache = factory.get_cache();
    let maps: &CachedMaps = &cache;
    assert_eq!(maps.len(), 1);
    assert_eq!(maps.find_map(0x1014).map(|m| m.get_from_address()), None);
}

#[test]
fn test_ill_formed_region_is_skipped() {
    let factory = BcrlFactory::from_regions(vec![region(0x1000, 0x1010, vec![0; 3])]);
    let cache = factory.get_cache();
    let maps: &CachedMaps = &cache;
    assert_eq!(maps.len(), 0);
}
