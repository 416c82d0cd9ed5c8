use hashtable::hash_state::HashState;
use hashtable::{HashTable, TableKey};

#[test]
fn new_table_is_empty() {
    let table: HashTable<i32, i32> = HashTable::new();
    assert_eq!(table.len(), 0);
    assert_eq!(table.get(&0), None);
}

#[test]
fn round_trip_after_insert() {
    let mut table = HashTable::with_capacity(5);
    assert_eq!(table.insert(7u64, 70u64), None);
    assert_eq!(table.get(&7u64), Some(&70u64));
    assert_eq!(table.len(), 1);
}

#[test]
fn replacing_returns_old_pair_and_keeps_len() {
    let mut table = HashTable::new();
    assert_eq!(table.insert(String::from("k"), 1), None);
    assert_eq!(table.insert(String::from("other"), 2), None);
    assert_eq!(table.len(), 2);
    let old = table.insert(String::from("k"), 10);
    assert_eq!(old, Some((String::from("k"), 1)));
    assert_eq!(table.get(&String::from("k")), Some(&10));
    assert_eq!(table.len(), 2);
}

#[test]
fn new_key_increments_len_by_one() {
    let mut table = HashTable::new();
    for i in 0..10i64 {
        assert_eq!(table.len(), i as usize);
        assert_eq!(table.insert(i, i * 2), None);
        assert_eq!(table.len(), i as usize + 1);
    }
}

#[test]
fn never_inserted_keys_are_absent() {
    let mut table = HashTable::new();
    for i in 0..20u32 {
        table.insert(i * 2, ());
    }
    for i in 0..20u32 {
        assert_eq!(table.get(&(i * 2 + 1)), None);
    }
    assert_eq!(table.get(&1000u32), None);
}

#[test]
fn growth_keeps_latest_values() {
    let mut table = HashTable::with_capacity(1);
    for i in 0..1000usize {
        table.insert(i, i);
    }
    for i in 0..1000usize {
        if i % 3 == 0 {
            assert_eq!(table.insert(i, i + 1), Some((i, i)));
        }
    }
    assert_eq!(table.len(), 1000);
    for i in 0..1000usize {
        let expected = if i % 3 == 0 { i + 1 } else { i };
        assert_eq!(table.get(&i), Some(&expected));
    }
    assert_eq!(table.get(&1000usize), None);
}

#[test]
fn borrowed_str_finds_owned_string_key() {
    let mut table = HashTable::new();
    table.insert(String::from("Asdf"), 123);
    table.insert(String::from("Ghjk"), 456);
    assert_eq!(table.get(&"Asdf"), Some(&123));
    assert_eq!(table.get(&String::from("Asdf")), Some(&123));
    assert_eq!(table.get(&"Ghjk"), Some(&456));
    assert_eq!(table.get(&""), None);
    assert_eq!(table.get(&"Asd"), None);
}

#[test]
fn get_mut_changes_only_that_value() {
    let mut table = HashTable::new();
    table.insert(1, 10);
    table.insert(2, 20);
    match table.get_mut(&1) {
        Some(v) => *v = 11,
        None => panic!("key 1 is present"),
    }
    assert!(table.get_mut(&3).is_none());
    assert_eq!(table.get(&1), Some(&11));
    assert_eq!(table.get(&2), Some(&20));
    assert_eq!(table.len(), 2);
}

#[test]
fn fixed_keys_give_the_same_placement() {
    let mut a = HashTable::with_capacity_and_keys(4, HashState::with_keys(1, 2));
    for i in 0..30i32 {
        a.insert(i, i);
    }
    for i in 0..30i32 {
        assert_eq!(a.get(&i), Some(&i));
    }
}

#[test]
fn sip_hash_matches_reference_vectors() {
    let state = HashState::with_keys(0x0706050403020100, 0x0f0e0d0c0b0a0908);
    assert_eq!(state.hash(&[]), 0x726fdb47dd0e0e31);
    assert_eq!(state.hash(&[0u8]), 0x74f839c593dc67fd);
}

#[test]
fn hash_depends_on_keys() {
    let a = HashState::with_keys(1, 2);
    let b = HashState::with_keys(3, 4);
    assert_eq!(a.hash(b"key"), a.hash(b"key"));
    assert_ne!(a.hash(b"key"), b.hash(b"key"));
}

#[test]
fn key_bytes_are_little_endian_and_utf8() {
    assert_eq!(1i32.key_bytes(), vec![1u8, 0, 0, 0]);
    assert_eq!((-1i32).key_bytes(), vec![255u8, 255, 255, 255]);
    assert_eq!(0x0102030405060708u64.key_bytes(), vec![8u8, 7, 6, 5, 4, 3, 2, 1]);
    assert_eq!(String::from("ab").key_bytes(), vec![97u8, 98]);
    assert_eq!("é".key_bytes(), vec![0xc3u8, 0xa9]);
}
