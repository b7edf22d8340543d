use bytell_map::split_hash;
use bytell_map::DirectHasher;
use bytell_map::HashMap;
use rand::distributions::Standard;
use rand::rngs::SmallRng;
use rand::Rng;
use rand::SeedableRng;
use std::collections::HashMap as HMap;

#[test]
fn adding_one_works() {
    let max = 10000u64;
    for n in 0..max {
        let mut map = HashMap::with_hasher(::fnv::FnvBuildHasher::default());
        map.insert(n, n);
        assert_eq!(Some(&n), map.get(&n));
    }
}

#[test]
fn adding_multiple_works() {
    let max = 10000u64;
    let mut map = HashMap::with_hasher(::fnv::FnvBuildHasher::default());
    for n in 0..max {
        map.insert(n, n);
    }
    for n in 0..max {
        let val = map.get(&n);
        if Some(&n) != val {
            panic!(
                "Getting {} at {:?} failed. Was: {:?}",
                n,
                split_hash(map.hash(&n) as usize, map.capacity()),
                val
            );
        }
    }
}

#[test]
fn adding_random_works() {
    let max = 10000;
    let mut map = HashMap::<u64, u64, _>::with_hasher(::fnv::FnvBuildHasher::default());
    let mut rng = SmallRng::from_seed([0, 1, 1, 2, 3, 5, 8, 13, 21, 34, 55, 89, 144, 233, 3, 5]);
    let mut rng2 = rng.clone();
    for n in rng.sample_iter(&Standard).take(max) {
        map.insert(n, n);
    }
    let taken: Vec<u64> = rng2.sample_iter(&Standard).take(max).collect();
    for n in taken {
        let val = map.get(&n);
        if Some(&n) != val {
            panic!(
                "Getting {} at {:?} failed. Was: {:?}",
                n,
                split_hash(map.hash(&n) as usize, map.capacity()),
                val
            );
        }
    }
}

#[test]
fn iterator_works() {
    let max = 10000u64;
    let mut map = HashMap::with_hasher(::fnv::FnvBuildHasher::default());
    let mut added = HMap::new();
    for n in 0..max {
        map.insert(n, n);
        added.insert(n, n);
    }

    let mut it = map.iter();
    while let Some((k, v)) = it.next() {
        assert_eq!(Some(v), added.remove(k).as_ref());
    }
    assert!(added.is_empty());
}

#[test]
fn single_insert_get_iterate() {
    let mut map = HashMap::<u64, u64, DirectHasher>::with_hasher(DirectHasher);
    assert_eq!(map.len(), 0);
    assert!(map.insert(0, 100).is_none());
    assert_eq!(map.get(&0), Some(&100));
    assert_eq!(map.len(), 1);
    let mut it = map.iter();
    assert_eq!(it.next(), Some((&0, &100)));
    assert_eq!(it.next(), None);
}

#[test]
fn chain_append_shares_direct_hit() {
    // both keys map to cell group 0, slot 0; the second extends the chain
    let mut map = HashMap::<u64, u64, DirectHasher>::with_hasher(DirectHasher);
    map.insert(0, 0);
    map.insert(16, 16);
    assert_eq!(map.get(&0), Some(&0));
    assert_eq!(map.get(&16), Some(&16));
    assert_eq!(map.len(), 2);
}

#[test]
fn disjoint_chains() {
    let mut map = HashMap::<u64, u64, DirectHasher>::with_hasher(DirectHasher);
    map.insert(1, 1);
    map.insert(0, 0);
    assert_eq!(map.get(&1), Some(&1));
    assert_eq!(map.get(&0), Some(&0));
    assert_eq!(map.len(), 2);
}

#[test]
fn replacement_returns_previous_pair() {
    let mut map = HashMap::<u64, u64, DirectHasher>::with_hasher(DirectHasher);
    assert_eq!(map.insert(7, 1), None);
    let before = map.len();
    assert_eq!(map.insert(7, 2), Some((7, 1)));
    assert_eq!(map.get(&7), Some(&2));
    assert_eq!(map.len(), before);
}

#[test]
fn reinsert_same_value_keeps_size() {
    let mut map = HashMap::<u64, u64, DirectHasher>::with_hasher(DirectHasher);
    map.insert(3, 9);
    assert_eq!(map.insert(3, 9), Some((3, 9)));
    assert_eq!(map.len(), 1);
    assert_eq!(map.get(&3), Some(&9));
}

#[test]
fn capacity_hint_rounds_to_power_of_two() {
    let map = HashMap::<u64, u64, DirectHasher>::with_capacity(1000, DirectHasher);
    assert_eq!(map.capacity(), 64);
    assert_eq!(map.len(), 0);
}

#[test]
fn growth_triggers_past_load_threshold() {
    // one cell group holds 16 slots; the load check runs before each
    // insertion, so the table doubles on the insert made at 14 live entries
    // (14 / 16 = 0.875 > 0.872)
    let mut map = HashMap::<u64, u64, DirectHasher>::with_hasher(DirectHasher);
    for k in 0..14u64 {
        map.insert(k, k);
    }
    assert_eq!(map.capacity(), 1);
    map.insert(14, 14);
    assert_eq!(map.capacity(), 2);
    for k in 0..15u64 {
        assert_eq!(map.get(&k), Some(&k));
    }
}

#[test]
fn relocation_keeps_hosted_chain() {
    // key 16 lands as a storage visitor on slot 1's coordinate... its chain
    // head is slot 0. Inserting key 1 afterwards forces the visitor's chain
    // to make room, and every entry must stay reachable.
    let mut map = HashMap::<u64, u64, DirectHasher>::with_hasher(DirectHasher);
    map.insert(0, 100);
    map.insert(16, 200);
    map.insert(1, 300);
    assert_eq!(map.get(&0), Some(&100));
    assert_eq!(map.get(&16), Some(&200));
    assert_eq!(map.get(&1), Some(&300));
    assert_eq!(map.len(), 3);
    assert_eq!(map.capacity(), 1);
}

#[test]
fn get_mut_updates_in_place() {
    let mut map = HashMap::<u64, u64, DirectHasher>::with_hasher(DirectHasher);
    map.insert(5, 50);
    if let Some(v) = map.get_mut(&5) {
        *v = 51;
    } else {
        panic!("key 5 should be present");
    }
    assert_eq!(map.get(&5), Some(&51));
    assert_eq!(map.get_mut(&99), None);
}

#[test]
fn long_chain_through_growth() {
    // keys congruent modulo 16 pile onto one chain and force repeated
    // appends and growth-time rebuilds
    let mut map = HashMap::<u64, u64, DirectHasher>::with_hasher(DirectHasher);
    for k in 0..64u64 {
        map.insert(k * 16, k);
    }
    assert_eq!(map.len(), 64);
    for k in 0..64u64 {
        assert_eq!(map.get(&(k * 16)), Some(&k));
    }
}
