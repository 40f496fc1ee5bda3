use mini_map::{hash_key, Entry, MiniMap, RawEntryMut};

fn walk(map: &MiniMap<i32>) -> Vec<(String, i32)> {
    let mut out = Vec::new();
    let mut it = map.iter();
    while let Some((k, v)) = it.next() {
        out.push((k.clone(), *v));
    }
    out
}

fn abc() -> MiniMap<i32> {
    let mut map = MiniMap::new();
    map.insert("a".to_string(), 1);
    map.insert("b".to_string(), 2);
    map.insert("c".to_string(), 3);
    map
}

fn listed(items: &[(&str, i32)]) -> Vec<(String, i32)> {
    items.iter().map(|(k, v)| (k.to_string(), *v)).collect()
}

#[test]
fn entry_is_occupied_for_a_present_key() {
    let mut map = abc();
    assert!(matches!(map.entry("b".to_string()), Entry::Occupied(_)));
    assert!(matches!(map.entry("z".to_string()), Entry::Vacant(_)));
    assert_eq!(walk(&map), listed(&[("a", 1), ("b", 2), ("c", 3)]));
}

#[test]
fn entry_key_is_the_looked_up_key() {
    let mut map = abc();
    assert_eq!(map.entry("b".to_string()).key(), "b");
    assert_eq!(map.entry("z".to_string()).key(), "z");
}

#[test]
fn or_insert_on_vacant_appends() {
    let mut map = abc();
    *map.entry("d".to_string()).or_insert(4) += 10;
    assert_eq!(walk(&map), listed(&[("a", 1), ("b", 2), ("c", 3), ("d", 14)]));
}

#[test]
fn or_insert_on_occupied_moves_to_back_and_keeps_value() {
    let mut map = abc();
    assert_eq!(*map.entry("a".to_string()).or_insert(100), 1);
    assert_eq!(walk(&map), listed(&[("b", 2), ("c", 3), ("a", 1)]));
}

#[test]
fn or_insert_with_calls_the_maker_only_when_vacant() {
    let mut map = abc();
    let mut calls = 0;
    *map.entry("b".to_string()).or_insert_with(|| {
        calls += 1;
        50
    }) += 1;
    assert_eq!(calls, 0);
    map.entry("e".to_string()).or_insert_with(|| {
        calls += 1;
        5
    });
    assert_eq!(calls, 1);
    assert_eq!(walk(&map), listed(&[("a", 1), ("c", 3), ("b", 3), ("e", 5)]));
}

#[test]
fn and_modify_changes_in_place_without_moving() {
    let mut map = abc();
    map.entry("a".to_string()).and_modify(|v| *v += 10);
    assert_eq!(walk(&map), listed(&[("a", 11), ("b", 2), ("c", 3)]));
    map.entry("q".to_string()).and_modify(|v| *v += 10);
    assert_eq!(walk(&map), listed(&[("a", 11), ("b", 2), ("c", 3)]));
}

#[test]
fn and_modify_then_or_insert() {
    let mut map = abc();
    map.entry("b".to_string()).and_modify(|v| *v *= 2).or_insert(0);
    map.entry("n".to_string()).and_modify(|v| *v *= 2).or_insert(7);
    assert_eq!(walk(&map), listed(&[("a", 1), ("c", 3), ("b", 4), ("n", 7)]));
}

#[test]
fn occupied_entry_reads_and_writes() {
    let mut map = abc();
    match map.entry("b".to_string()) {
        Entry::Occupied(mut e) => {
            assert_eq!(e.key(), "b");
            assert_eq!(*e.get(), 2);
            *e.get_mut() = 20;
            assert_eq!(*e.get(), 20);
            *e.into_mut() += 1;
        }
        Entry::Vacant(_) => panic!("b is in the map"),
    }
    assert_eq!(walk(&map), listed(&[("a", 1), ("b", 21), ("c", 3)]));
}

#[test]
fn occupied_entry_moves() {
    let mut map = abc();
    match map.entry("b".to_string()) {
        Entry::Occupied(mut e) => {
            e.to_front();
            assert_eq!(*e.get(), 2);
        }
        Entry::Vacant(_) => panic!("b is in the map"),
    }
    assert_eq!(walk(&map), listed(&[("b", 2), ("a", 1), ("c", 3)]));
    match map.entry("b".to_string()) {
        Entry::Occupied(mut e) => e.to_back(),
        Entry::Vacant(_) => panic!("b is in the map"),
    }
    assert_eq!(walk(&map), listed(&[("a", 1), ("c", 3), ("b", 2)]));
}

#[test]
fn occupied_entry_insert_moves_to_back() {
    let mut map = abc();
    match map.entry("a".to_string()) {
        Entry::Occupied(mut e) => assert_eq!(e.insert(10), 1),
        Entry::Vacant(_) => panic!("a is in the map"),
    }
    assert_eq!(walk(&map), listed(&[("b", 2), ("c", 3), ("a", 10)]));
}

#[test]
fn occupied_entry_replace_entry_keeps_place() {
    let mut map = abc();
    match map.entry("b".to_string()) {
        Entry::Occupied(e) => assert_eq!(e.replace_entry(20), ("b".to_string(), 2)),
        Entry::Vacant(_) => panic!("b is in the map"),
    }
    assert_eq!(walk(&map), listed(&[("a", 1), ("b", 20), ("c", 3)]));
    assert_eq!(map.get("b"), Some(&20));
}

#[test]
fn occupied_entry_insert_entry_moves_to_back() {
    let mut map = abc();
    match map.entry("b".to_string()) {
        Entry::Occupied(e) => assert_eq!(e.insert_entry(20), ("b".to_string(), 2)),
        Entry::Vacant(_) => panic!("b is in the map"),
    }
    assert_eq!(walk(&map), listed(&[("a", 1), ("c", 3), ("b", 20)]));
}

#[test]
fn occupied_entry_replace_key_keeps_the_map() {
    let mut map = abc();
    match map.entry("c".to_string()) {
        Entry::Occupied(e) => assert_eq!(e.replace_key(), "c"),
        Entry::Vacant(_) => panic!("c is in the map"),
    }
    assert_eq!(walk(&map), listed(&[("a", 1), ("b", 2), ("c", 3)]));
    assert_eq!(map.get("c"), Some(&3));
}

#[test]
fn occupied_entry_removes() {
    let mut map = abc();
    match map.entry("a".to_string()) {
        Entry::Occupied(e) => assert_eq!(e.remove(), 1),
        Entry::Vacant(_) => panic!("a is in the map"),
    }
    match map.entry("c".to_string()) {
        Entry::Occupied(e) => assert_eq!(e.remove_entry(), ("c".to_string(), 3)),
        Entry::Vacant(_) => panic!("c is in the map"),
    }
    assert_eq!(walk(&map), listed(&[("b", 2)]));
    assert_eq!(map.len(), 1);
}

#[test]
fn vacant_entry_inserts_or_gives_the_key_back() {
    let mut map = abc();
    match map.entry("x".to_string()) {
        Entry::Vacant(e) => {
            assert_eq!(e.key(), "x");
            assert_eq!(e.into_key(), "x");
        }
        Entry::Occupied(_) => panic!("x is not in the map"),
    }
    assert_eq!(map.len(), 3);
    match map.entry("x".to_string()) {
        Entry::Vacant(e) => *e.insert(24) += 1,
        Entry::Occupied(_) => panic!("x is not in the map"),
    }
    assert_eq!(walk(&map), listed(&[("a", 1), ("b", 2), ("c", 3), ("x", 25)]));
}

#[test]
fn raw_entry_reads_by_key_and_by_hash() {
    let map = abc();
    let found = map.raw_entry().from_key("b");
    assert_eq!(found.map(|(k, v)| (k.as_str(), *v)), Some(("b", 2)));
    assert!(map.raw_entry().from_key("z").is_none());
    let hash = hash_key(map.hasher(), "c");
    let found = map.raw_entry().from_key_hashed_nocheck(hash, "c");
    assert_eq!(found.map(|(k, v)| (k.as_str(), *v)), Some(("c", 3)));
    let found = map.raw_entry().from_hash(hash, "c");
    assert_eq!(found.map(|(k, v)| (k.as_str(), *v)), Some(("c", 3)));
    let miss = hash_key(map.hasher(), "z");
    assert!(map.raw_entry().from_hash(miss, "z").is_none());
}

#[test]
fn raw_entry_mut_finds_and_changes() {
    let mut map = abc();
    match map.raw_entry_mut().from_key("b") {
        RawEntryMut::Occupied(mut e) => {
            assert_eq!(e.key(), "b");
            assert_eq!(*e.get(), 2);
            assert_eq!(e.get_key_value(), (&"b".to_string(), &2));
            *e.get_mut() = 5;
            {
                let (k, v) = e.get_key_value_mut();
                assert_eq!(k, "b");
                *v += 1;
            }
            assert_eq!(e.replace_value(7), 6);
            assert_eq!(e.replace_key("b".to_string()), "b");
            e.to_front();
        }
        RawEntryMut::Vacant(_) => panic!("b is in the map"),
    }
    assert_eq!(walk(&map), listed(&[("b", 7), ("a", 1), ("c", 3)]));
}

#[test]
fn raw_entry_mut_into_references() {
    let mut map = abc();
    match map.raw_entry_mut().from_key("a") {
        RawEntryMut::Occupied(e) => assert_eq!(e.into_key(), "a"),
        RawEntryMut::Vacant(_) => panic!("a is in the map"),
    }
    match map.raw_entry_mut().from_key("a") {
        RawEntryMut::Occupied(e) => *e.into_mut() = 11,
        RawEntryMut::Vacant(_) => panic!("a is in the map"),
    }
    match map.raw_entry_mut().from_key("c") {
        RawEntryMut::Occupied(e) => {
            let (k, v) = e.into_key_value();
            assert_eq!(k, "c");
            *v = 33;
        }
        RawEntryMut::Vacant(_) => panic!("c is in the map"),
    }
    assert_eq!(walk(&map), listed(&[("a", 11), ("b", 2), ("c", 33)]));
}

#[test]
fn raw_entry_mut_removes() {
    let mut map = abc();
    match map.raw_entry_mut().from_key("b") {
        RawEntryMut::Occupied(e) => assert_eq!(e.remove_entry(), ("b".to_string(), 2)),
        RawEntryMut::Vacant(_) => panic!("b is in the map"),
    }
    match map.raw_entry_mut().from_key("a") {
        RawEntryMut::Occupied(e) => assert_eq!(e.remove(), 1),
        RawEntryMut::Vacant(_) => panic!("a is in the map"),
    }
    assert!(matches!(map.raw_entry_mut().from_key("a"), RawEntryMut::Vacant(_)));
    assert_eq!(walk(&map), listed(&[("c", 3)]));
}

#[test]
fn raw_vacant_entry_inserts() {
    let mut map = abc();
    match map.raw_entry_mut().from_key("d") {
        RawEntryMut::Vacant(e) => {
            let (k, v) = e.insert("d".to_string(), 4);
            assert_eq!(k, "d");
            *v += 40;
        }
        RawEntryMut::Occupied(_) => panic!("d is not in the map"),
    }
    let seed = map.hasher();
    let hash = hash_key(seed, "e");
    match map.raw_entry_mut().from_key_hashed_nocheck(hash, "e") {
        RawEntryMut::Vacant(e) => {
            e.insert_hashed_nocheck(hash, "e".to_string(), 5);
        }
        RawEntryMut::Occupied(_) => panic!("e is not in the map"),
    }
    let hash = hash_key(seed, "f");
    match map.raw_entry_mut().from_hash(hash, "f") {
        RawEntryMut::Vacant(e) => {
            e.insert_with_hasher(hash, "f".to_string(), 6, seed);
        }
        RawEntryMut::Occupied(_) => panic!("f is not in the map"),
    }
    assert_eq!(
        walk(&map),
        listed(&[("a", 1), ("b", 2), ("c", 3), ("d", 44), ("e", 5), ("f", 6)])
    );
    assert_eq!(map.get("e"), Some(&5));
    assert_eq!(map.get("f"), Some(&6));
}

#[test]
fn raw_entry_or_insert() {
    let mut map = abc();
    {
        let (k, v) = map.raw_entry_mut().from_key("a").or_insert("a".to_string(), 100);
        assert_eq!(k, "a");
        assert_eq!(*v, 1);
    }
    {
        let (k, v) = map.raw_entry_mut().from_key("n").or_insert("n".to_string(), 9);
        assert_eq!(k, "n");
        *v += 1;
    }
    {
        let (_, v) = map
            .raw_entry_mut()
            .from_key("m")
            .or_insert_with(|| ("m".to_string(), 8));
        assert_eq!(*v, 8);
    }
    {
        let (_, v) = map
            .raw_entry_mut()
            .from_key("b")
            .or_insert_with(|| ("b".to_string(), 0));
        assert_eq!(*v, 2);
    }
    assert_eq!(
        walk(&map),
        listed(&[("c", 3), ("a", 1), ("n", 10), ("m", 8), ("b", 2)])
    );
}

#[test]
fn raw_entry_and_modify() {
    let mut map = abc();
    let entry = map.raw_entry_mut().from_key("b").and_modify(|k, v| *v += k.len() as i32);
    assert!(matches!(entry, RawEntryMut::Occupied(_)));
    let entry = map.raw_entry_mut().from_key("zz").and_modify(|_, v| *v += 1);
    assert!(matches!(entry, RawEntryMut::Vacant(_)));
    assert_eq!(walk(&map), listed(&[("a", 1), ("b", 3), ("c", 3)]));
}

#[test]
fn removed_slots_are_used_again() {
    let mut map = MiniMap::new();
    for round in 0..50 {
        for i in 0..20 {
            map.insert(format!("k{}", i), round * 100 + i);
        }
        for i in 0..20 {
            assert_eq!(map.remove(&format!("k{}", i)), Some(round * 100 + i));
        }
        assert!(map.is_empty());
    }
    map.insert("last".to_string(), 1);
    assert_eq!(walk(&map), listed(&[("last", 1)]));
}
