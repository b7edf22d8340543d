use bytell_map::jump_distance;
use bytell_map::split_hash;
use bytell_map::DirectHasher;
use bytell_map::HashMap;
use bytell_map::Metadata;

#[test]
fn metadata_empty_sentinel() {
    let m = Metadata(0xff);
    assert!(m.is_empty());
    assert!(!Metadata(0x00).is_empty());
    assert!(!Metadata(0x80).is_empty());
}

#[test]
fn metadata_roles() {
    // a head at chain end, a storage slot at chain end, and an empty slot
    // are three distinct bytes
    assert!(!Metadata(0x00).is_storage());
    assert!(Metadata(0x80).is_storage());
    assert_eq!(Metadata(0x00).jump_length(), 0);
    assert_eq!(Metadata(0x80).jump_length(), 0);
    assert_eq!(Metadata(0x85).jump_length(), 5);
}

#[test]
fn metadata_writes_keep_other_bits() {
    let mut m = Metadata(0x00);
    m.set_jump(9);
    assert_eq!(m.0, 0x09);
    assert!(!m.is_storage());
    m.set_storage(true);
    assert_eq!(m.0, 0x89);
    assert_eq!(m.jump_length(), 9);
    m.set_storage(false);
    assert_eq!(m.0, 0x09);
    m.set_empty();
    assert!(m.is_empty());
}

#[test]
fn jump_table_values() {
    assert_eq!(jump_distance(0), 0);
    assert_eq!(jump_distance(1), 1);
    assert_eq!(jump_distance(15), 15);
    assert_eq!(jump_distance(16), 21);
    assert_eq!(jump_distance(81), 2556);
    assert_eq!(jump_distance(82), 3741);
    assert_eq!(jump_distance(125), 5209859150892887590);
}

#[test]
fn split_hash_coordinates() {
    // group from the bits above the slot nibble, slot from the low nibble
    assert_eq!(split_hash(0x123, 4), (2, 3));
    assert_eq!(split_hash(0, 1), (0, 0));
    assert_eq!(split_hash(31, 1), (0, 15));
    assert_eq!(split_hash(31, 2), (1, 15));
}

#[test]
fn direct_hasher_digest() {
    let map = HashMap::<u64, u64, DirectHasher>::with_hasher(DirectHasher);
    assert_eq!(map.hash(&5), 5);
    assert_eq!(map.hash(&0xdead_beef), 0xdead_beef);
}

#[test]
fn find_empty_probes_neighbours() {
    // in a fresh one-group table the first probe offset already lands on an
    // empty slot
    let map = HashMap::<u64, u64, DirectHasher>::with_hasher(DirectHasher);
    assert_eq!(map.find_empty(0, 1), Some((1, 1)));
    let mut map = map;
    map.insert(1, 1);
    // slot 1 is now taken, so probing from cursor 0 skips to the next offset
    assert_eq!(map.find_empty(0, 1), Some((2, 2)));
}

#[test]
fn fnv_digest_is_stable_per_key() {
    let map = HashMap::<u64, u64, _>::with_hasher(::fnv::FnvBuildHasher::default());
    let h1 = map.hash(&42);
    let h2 = map.hash(&42);
    assert_eq!(h1, h2);
    assert_ne!(map.hash(&42), map.hash(&43));
    // FNV-1a over the key's eight little-endian bytes
    assert_eq!(map.hash(&42), 0xff3add6b3789daef);
    assert_eq!(map.hash(&0), 0xa8c7f832281a39c5);
}
