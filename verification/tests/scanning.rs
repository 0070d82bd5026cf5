use bcrl_rs::cached_map::{CachedMap, MapName, Permissions};
use bcrl_rs::endian::Endianness;
use bcrl_rs::factory::BcrlFactory;
use bcrl_rs::search_constraints::SearchConstraints;
use bcrl_rs::sigscan::Signature;

fn rx() -> Permissions {
    Permissions { read: true, write: false, execute: true, shared: false, private: true }
}

fn rw() -> Permissions {
    Permissions { read: true, write: true, execute: false, shared: false, private: true }
}

fn region(from: usize, to: usize, perms: Permissions, name: MapName, bytes: Vec<u8>) -> CachedMap {
    CachedMap { from_address: from, to_address: to, permissions: perms, name, bytes }
}

fn hello_region() -> CachedMap {
    let mut bytes = b"Hello, world!".to_vec();
    bytes.extend_from_slice(&[0, 0, 0]);
    region(0x1000, 0x1010, rx(), MapName::Anonymous, bytes)
}

#[test]
fn test_signature_scan_finds_string() {
    let factory = BcrlFactory::from_regions(vec![hello_region()]);
    let pool = factory
        .signature(
            Signature::string("Hello, world!", false),
            SearchConstraints::everything().thats_readable(),
        )
        .get_pool();
    assert_eq!(pool, vec![0x1000]);
}

#[test]
fn test_signature_scan_skips_disallowed_region() {
    let factory = BcrlFactory::from_regions(vec![hello_region()]);
    let pool = factory
        .signature(
            Signature::string("Hello, world!", false),
            SearchConstraints::everything().thats_writable(),
        )
        .get_pool();
    assert!(pool.is_empty());
}

#[test]
fn test_empty_snapshot_signature_yields_empty_pool() {
    let factory = BcrlFactory::from_regions(Vec::new());
    let pool = factory
        .signature(Signature::string("Hello", false), SearchConstraints::everything())
        .get_pool();
    assert!(pool.is_empty());
}

#[test]
fn test_dereference_reaches_stored_pointer() {
    let r2 = region(
        0x2000,
        0x2008,
        rw(),
        MapName::Heap,
        vec![0x00, 0x10, 0, 0, 0, 0, 0, 0],
    );
    let factory = BcrlFactory::from_regions(vec![hello_region(), r2]);
    let result = factory.pointer(0x2000).dereference(Endianness::Little).get_pointer();
    assert_eq!(result, Ok(0x1000));

    let mut p = bcrl_rs::safe_pointer::SafePointer::new(factory.get_cache(), 0x2000);
    p.dereference(Endianness::Little);
    assert_eq!(p.get_address(), 0x1000);
    let bytes = p.read(5).expect("read of five bytes inside the region");
    assert_eq!(bytes, b"Hello");
}

#[test]
fn test_relative_to_absolute_call_displacement() {
    // A `call rel32` with displacement -5 at offset 0.
    let mut bytes = vec![0xE8, 0xFB, 0xFF, 0xFF, 0xFF];
    bytes.extend_from_slice(&[0; 11]);
    let factory =
        BcrlFactory::from_regions(vec![region(0x4000, 0x4010, rx(), MapName::Anonymous, bytes)]);
    let result = factory.pointer(0x4001).relative_to_absolute(Endianness::Little).get_pointer();
    assert_eq!(result, Ok(0x4000));
}

#[test]
fn test_relative_to_absolute_zero_displacement_advances_by_four() {
    let factory = BcrlFactory::from_regions(vec![region(
        0x4000,
        0x4010,
        rx(),
        MapName::Anonymous,
        vec![0; 16],
    )]);
    let result = factory.pointer(0x4002).relative_to_absolute(Endianness::Little).get_pointer();
    assert_eq!(result, Ok(0x4006));
}

#[test]
fn test_find_absolute_references() {
    let mut bytes = vec![0u8; 8];
    bytes.extend_from_slice(&[0xEF, 0xBE, 0xAD, 0xDE, 0x00, 0x00, 0x00, 0x00]);
    let factory =
        BcrlFactory::from_regions(vec![region(0x7000, 0x7010, rw(), MapName::Heap, bytes)]);
    let pool = factory
        .pointer(0xDEADBEEF)
        .find_absolute_references(Endianness::Little, SearchConstraints::everything())
        .get_pool();
    assert_eq!(pool, vec![0x7008]);
}

#[test]
fn test_find_relative_references() {
    // call rel32 at 0x4000 with displacement -5 lands back on 0x4000; the
    // displacement bytes sit at offset 1 and the instruction spans 4 more
    // bytes from there.
    let mut bytes = vec![0xE8, 0xFB, 0xFF, 0xFF, 0xFF];
    bytes.extend_from_slice(&[0; 11]);
    let factory =
        BcrlFactory::from_regions(vec![region(0x4000, 0x4010, rx(), MapName::Anonymous, bytes)]);
    let pool = factory
        .pointer(0x4000)
        .find_relative_references(4, Endianness::Little, SearchConstraints::everything())
        .get_pool();
    assert_eq!(pool, vec![0x4001]);
}

#[test]
fn test_find_all_references_combines_both_kinds() {
    // An absolute 8-byte reference to 0x4000 at offset 8 and a relative
    // one at offset 1.
    let mut bytes = vec![0xE8, 0xFB, 0xFF, 0xFF, 0xFF, 0, 0, 0];
    bytes.extend_from_slice(&[0x00, 0x40, 0, 0, 0, 0, 0, 0]);
    let factory =
        BcrlFactory::from_regions(vec![region(0x4000, 0x4010, rx(), MapName::Anonymous, bytes)]);
    let pool = factory
        .pointer(0x4000)
        .find_all_references(4, Endianness::Little, SearchConstraints::everything())
        .get_pool();
    assert_eq!(pool, vec![0x4001, 0x4008]);
}

#[test]
fn test_filter_module_keeps_matching_basename() {
    let libc = region(
        0x1000,
        0x1010,
        rx(),
        MapName::Path("/usr/lib/libc.so.6".to_string()),
        vec![0; 16],
    );
    let ld = region(
        0x2000,
        0x2010,
        rx(),
        MapName::Path("/usr/lib/ld.so".to_string()),
        vec![0; 16],
    );
    let factory = BcrlFactory::from_regions(vec![libc, ld]);
    let pool = factory.pointers(vec![0x1004, 0x2004]).filter_module("libc.so.6").get_pool();
    assert_eq!(pool, vec![0x1004]);
}

#[test]
fn test_signature_filter_keeps_matching_pointers() {
    let factory = BcrlFactory::from_regions(vec![hello_region()]);
    let sig = Signature::string("world", false);
    let pool = factory.pointers(vec![0x1000, 0x1007]).signature_filter(sig).get_pool();
    assert_eq!(pool, vec![0x1007]);
}

#[test]
fn test_next_occurrence_moves_to_first_match() {
    let mut bytes = vec![0x00, 0xAB, 0x00, 0xAB];
    bytes.extend_from_slice(&[0; 12]);
    let factory =
        BcrlFactory::from_regions(vec![region(0x1000, 0x1010, rx(), MapName::Anonymous, bytes)]);
    let sig = Signature::ida("AB").expect("well-formed pattern");
    let result = factory
        .pointer(0x1000)
        .next_occurrence(sig, SearchConstraints::everything())
        .get_pointer();
    assert_eq!(result, Ok(0x1001));
}

#[test]
fn test_prev_occurrence_moves_to_last_match() {
    let mut bytes = vec![0x00, 0xAB, 0x00, 0xAB];
    bytes.extend_from_slice(&[0; 12]);
    let factory =
        BcrlFactory::from_regions(vec![region(0x1000, 0x1010, rx(), MapName::Anonymous, bytes)]);
    let sig = Signature::ida("AB").expect("well-formed pattern");
    let result = factory
        .pointer(0x1004)
        .prev_occurrence(sig, SearchConstraints::everything())
        .get_pointer();
    assert_eq!(result, Ok(0x1003));
}

#[test]
fn test_signature_scan_respects_address_window() {
    let mut bytes = vec![0u8; 16];
    bytes[2] = 0xAB;
    bytes[8] = 0xAB;
    let factory =
        BcrlFactory::from_regions(vec![region(0x1000, 0x1010, rx(), MapName::Anonymous, bytes)]);
    let sig = Signature::ida("AB").expect("well-formed pattern");
    let pool = factory
        .signature(sig, SearchConstraints::everything().from(0x1006))
        .get_pool();
    assert_eq!(pool, vec![0x1008]);
}

#[test]
fn test_occurrence_rejected_by_constraints_invalidates() {
    let mut bytes = vec![0u8; 16];
    bytes[2] = 0xAB;
    let factory =
        BcrlFactory::from_regions(vec![region(0x1000, 0x1010, rx(), MapName::Anonymous, bytes)]);
    let sig = Signature::ida("AB").expect("well-formed pattern");
    let result = factory
        .pointer(0x1000)
        .next_occurrence(sig, SearchConstraints::everything().thats_writable())
        .get_pointer();
    assert_eq!(result, Err(0));
}

#[test]
fn test_occurrence_outside_any_region_invalidates() {
    let factory = BcrlFactory::from_regions(Vec::new());
    let sig = Signature::ida("AB").expect("well-formed pattern");
    let result = factory
        .pointer(0x1000)
        .next_occurrence(sig, SearchConstraints::everything())
        .get_pointer();
    assert_eq!(result, Err(0));
}
