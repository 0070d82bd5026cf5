use bcrl_rs::cached_map::{CachedMap, MapName, Permissions};
use bcrl_rs::factory::BcrlFactory;
use bcrl_rs::endian::{Endianness, decode_i32, decode_word};
use bcrl_rs::search_constraints::SearchConstraints;
use bcrl_rs::sigscan::Signature;

fn rx() -> Permissions {
    Permissions { read: true, write: false, execute: true, shared: false, private: true }
}

fn some_region() -> CachedMap {
    CachedMap {
        from_address: 0x1000,
        to_address: 0x1010,
        permissions: rx(),
        name: MapName::Path("/usr/lib/libx.so".to_string()),
        bytes: vec![0; 16],
    }
}

#[test]
fn test_everything_allows_every_region() {
    let c = SearchConstraints::everything();
    assert!(c.allows_map(&some_region()));
    let mut other = some_region();
    other.permissions = Permissions {
        read: false,
        write: true,
        execute: false,
        shared: true,
        private: false,
    };
    other.name = MapName::Heap;
    assert!(SearchConstraints::everything().allows_map(&other));
}

#[test]
fn test_permission_constraints() {
    let r = some_region();
    assert!(SearchConstraints::everything().thats_readable().allows_map(&r));
    assert!(SearchConstraints::everything().thats_not_writable().allows_map(&r));
    assert!(!SearchConstraints::everything().thats_writable().allows_map(&r));
    assert!(SearchConstraints::everything().thats_executable().allows_map(&r));
    assert!(!SearchConstraints::everything().thats_not_executable().allows_map(&r));
    assert!(!SearchConstraints::everything().thats_not_readable().allows_map(&r));
}

#[test]
fn test_name_constraint() {
    let r = some_region();
    assert!(SearchConstraints::everything().with_name("libx.so".to_string()).allows_map(&r));
    assert!(!SearchConstraints::everything().with_name("liby.so".to_string()).allows_map(&r));
    assert!(SearchConstraints::everything().with_name("libx.so".to_string()).test(&r));
}

#[test]
fn test_clamp_intersects() {
    let c = SearchConstraints::everything().from(0x100).to(0x200);
    assert_eq!(c.clamp_address_range((0x80, 0x180)), Some((0x100, 0x180)));
    assert_eq!(c.clamp_address_range((0x180, 0x400)), Some((0x180, 0x200)));
    assert_eq!(c.clamp_address_range((0x110, 0x120)), Some((0x110, 0x120)));
}

#[test]
fn test_clamp_disjoint_window_is_empty() {
    let c = SearchConstraints::everything().from(0x100).to(0x200);
    assert_eq!(c.clamp_address_range((0x300, 0x400)), None);
    assert_eq!(c.clamp_address_range((0x10, 0x100)), None);
}

#[test]
fn test_window_excludes_region() {
    let r = some_region();
    let c = SearchConstraints::everything().from(0x2000).to(0x3000);
    assert!(!c.allows_map(&r));
    assert!(c.allows_address(0x2500));
    assert!(!c.allows_address(0x1000));
}

#[test]
fn test_from_to_keep_window_ordered() {
    let c = SearchConstraints::everything().to(0x100).from(0x200);
    let range = c.get_address_range();
    assert!(range.0 <= range.1);
}

#[test]
fn test_captures_region_device_filter() {
    assert!(BcrlFactory::captures_region(8, 1, false));
    assert!(!BcrlFactory::captures_region(0, 0, false));
    assert!(BcrlFactory::captures_region(0, 0, true));
}

#[test]
fn test_decode_word_both_orders() {
    let bytes = [1u8, 2, 3, 4, 5, 6, 7, 8];
    assert_eq!(decode_word(&bytes, Endianness::Little), 0x0807060504030201);
    assert_eq!(decode_word(&bytes, Endianness::Big), 0x0102030405060708);
}

#[test]
fn test_decode_i32_negative() {
    assert_eq!(decode_i32(&[0xFB, 0xFF, 0xFF, 0xFF], Endianness::Little), -5);
    assert_eq!(decode_i32(&[0xFF, 0xFF, 0xFF, 0xFB], Endianness::Big), -5);
    assert_eq!(decode_i32(&[0x00, 0x00, 0x00, 0x80], Endianness::Little), i32::MIN);
    assert_eq!(decode_i32(&[0x2A, 0x00, 0x00, 0x00], Endianness::Little), 42);
}

#[test]
fn test_ida_signature_parsing() {
    let sig = Signature::ida("12 34 ?? 56").expect("well-formed pattern");
    assert_eq!(sig.len(), 4);
    assert!(sig.matches(&[0x12, 0x34, 0xAA, 0x56]));
    assert!(sig.matches(&[0x12, 0x34, 0x00, 0x56]));
    assert!(!sig.matches(&[0x12, 0x34, 0xAA, 0x57]));

    let single = Signature::ida("? aB").expect("well-formed pattern");
    assert_eq!(single.len(), 2);
    assert!(single.matches(&[0x99, 0xAB]));
}

#[test]
fn test_ida_signature_rejects_bad_tokens() {
    assert!(Signature::ida("GG").is_none());
    assert!(Signature::ida("123").is_none());
    assert!(Signature::ida("1").is_none());
}

#[test]
fn test_string_signature_with_terminator() {
    let sig = Signature::string("AB", true);
    assert_eq!(sig.len(), 3);
    assert!(sig.matches(&[0x41, 0x42, 0x00]));
    assert!(!sig.matches(&[0x41, 0x42, 0x01]));
}

#[test]
fn test_signature_search_directions() {
    let sig = Signature::ida("AB").expect("well-formed pattern");
    let bytes = [0xAB, 0x00, 0xAB, 0x01];
    assert_eq!(sig.next(&bytes), Some(0));
    assert_eq!(sig.prev(&bytes), Some(2));
    assert_eq!(sig.all(&bytes), vec![0, 2]);
    assert_eq!(sig.next(&[0x01, 0x02]), None);
    assert_eq!(sig.prev(&[0x01, 0x02]), None);
    assert!(sig.all(&[0x01, 0x02]).is_empty());
}
