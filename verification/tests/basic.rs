use mini_map::{hash_key, MiniMap};

fn pairs(map: &MiniMap<i32>) -> Vec<(String, i32)> {
    let mut out = Vec::new();
    let mut it = map.iter();
    while let Some((k, v)) = it.next() {
        out.push((k.clone(), *v));
    }
    out
}

fn filled(items: &[(&str, i32)]) -> MiniMap<i32> {
    let mut map = MiniMap::new();
    for (k, v) in items {
        map.insert(k.to_string(), *v);
    }
    map
}

fn expect(items: &[(&str, i32)]) -> Vec<(String, i32)> {
    items.iter().map(|(k, v)| (k.to_string(), *v)).collect()
}

#[test]
fn new_map_is_empty() {
    let map: MiniMap<i32> = MiniMap::new();
    assert_eq!(map.len(), 0);
    assert!(map.is_empty());
    assert!(map.front().is_none());
    assert!(map.back().is_none());
    assert!(map.get("a").is_none());
    assert!(!map.contains_key("a"));
    assert_eq!(pairs(&map), expect(&[]));
}

#[test]
fn insert_keeps_insertion_order() {
    let map = filled(&[("a", 1), ("b", 2), ("c", 3)]);
    assert_eq!(pairs(&map), expect(&[("a", 1), ("b", 2), ("c", 3)]));
    assert_eq!(map.len(), 3);
}

#[test]
fn insert_of_new_key_returns_none() {
    let mut map = MiniMap::new();
    assert_eq!(map.insert("a".to_string(), 1), None);
    assert_eq!(map.insert("b".to_string(), 2), None);
}

#[test]
fn insert_of_existing_key_moves_it_to_the_back() {
    let mut map = filled(&[("a", 1), ("b", 2), ("c", 3)]);
    assert_eq!(map.insert("a".to_string(), 10), Some(1));
    assert_eq!(pairs(&map), expect(&[("b", 2), ("c", 3), ("a", 10)]));
    assert_eq!(map.len(), 3);
}

#[test]
fn replace_of_existing_key_keeps_its_place() {
    let mut map = filled(&[("a", 1), ("b", 2), ("c", 3)]);
    assert_eq!(map.insert("a".to_string(), 10), Some(1));
    assert_eq!(map.replace("b".to_string(), 20), Some(2));
    assert_eq!(pairs(&map), expect(&[("b", 20), ("c", 3), ("a", 10)]));
}

#[test]
fn replace_of_new_key_appends() {
    let mut map = filled(&[("a", 1)]);
    assert_eq!(map.replace("z".to_string(), 26), None);
    assert_eq!(pairs(&map), expect(&[("a", 1), ("z", 26)]));
}

#[test]
fn get_finds_every_inserted_key() {
    let map = filled(&[("a", 1), ("b", 2), ("c", 3)]);
    assert_eq!(map.get("a"), Some(&1));
    assert_eq!(map.get("b"), Some(&2));
    assert_eq!(map.get("c"), Some(&3));
    assert_eq!(map.get("d"), None);
    assert_eq!(map.get(""), None);
    assert_eq!(map.get("ab"), None);
}

#[test]
fn get_key_value_gives_the_stored_key() {
    let map = filled(&[("alpha", 1)]);
    let (k, v) = map.get_key_value("alpha").unwrap();
    assert_eq!(k, "alpha");
    assert_eq!(*v, 1);
    assert!(map.get_key_value("beta").is_none());
}

#[test]
fn get_mut_changes_the_value_in_place() {
    let mut map = filled(&[("a", 1), ("b", 2), ("c", 3)]);
    *map.get_mut("b").unwrap() += 40;
    assert!(map.get_mut("zz").is_none());
    assert_eq!(pairs(&map), expect(&[("a", 1), ("b", 42), ("c", 3)]));
}

#[test]
fn len_counts_successful_lookups() {
    let mut map = filled(&[("a", 1), ("b", 2), ("c", 3), ("d", 4)]);
    map.remove("b");
    map.to_front("d");
    map.insert("a".to_string(), 5);
    map.insert("e".to_string(), 6);
    let walked = pairs(&map);
    assert_eq!(map.len(), walked.len());
    let mut found = 0;
    for key in ["a", "b", "c", "d", "e"] {
        if map.get(key).is_some() {
            found += 1;
        }
    }
    assert_eq!(found, map.len());
    assert_eq!(map.len(), 4);
}

#[test]
fn remove_takes_the_entry_out_of_the_order() {
    let mut map = filled(&[("a", 1), ("b", 2), ("c", 3)]);
    assert_eq!(map.remove("b"), Some(2));
    assert_eq!(map.remove("b"), None);
    assert_eq!(pairs(&map), expect(&[("a", 1), ("c", 3)]));
    assert_eq!(map.len(), 2);
    assert_eq!(map.get("b"), None);
}

#[test]
fn remove_entry_returns_key_and_value() {
    let mut map = filled(&[("a", 1), ("b", 2)]);
    assert_eq!(map.remove_entry("a"), Some(("a".to_string(), 1)));
    assert_eq!(map.remove_entry("a"), None);
    assert_eq!(pairs(&map), expect(&[("b", 2)]));
}

#[test]
fn pop_front_then_pop_back_leaves_the_middle() {
    let mut map = filled(&[("a", 1), ("b", 2), ("c", 3)]);
    assert_eq!(map.pop_front(), Some(("a".to_string(), 1)));
    assert_eq!(map.pop_back(), Some(("c".to_string(), 3)));
    assert_eq!(pairs(&map), expect(&[("b", 2)]));
    assert_eq!(map.len(), 1);
}

#[test]
fn pop_on_empty_map_gives_nothing() {
    let mut map: MiniMap<i32> = MiniMap::new();
    assert_eq!(map.pop_front(), None);
    assert_eq!(map.pop_back(), None);
    map.insert("a".to_string(), 1);
    assert_eq!(map.pop_back(), Some(("a".to_string(), 1)));
    assert_eq!(map.pop_front(), None);
    assert!(map.is_empty());
}

#[test]
fn front_and_back_peek() {
    let map = filled(&[("a", 1), ("b", 2), ("c", 3)]);
    let (fk, fv) = map.front().unwrap();
    assert_eq!((fk.as_str(), *fv), ("a", 1));
    let (bk, bv) = map.back().unwrap();
    assert_eq!((bk.as_str(), *bv), ("c", 3));
    assert_eq!(map.len(), 3);
}

#[test]
fn to_front_moves_the_entry() {
    let mut map = filled(&[("a", 1), ("b", 2), ("c", 3)]);
    assert_eq!(map.to_front("c").map(|v| *v), Some(3));
    assert_eq!(pairs(&map), expect(&[("c", 3), ("a", 1), ("b", 2)]));
    assert!(map.to_front("missing").is_none());
    assert_eq!(pairs(&map), expect(&[("c", 3), ("a", 1), ("b", 2)]));
}

#[test]
fn to_front_twice_is_to_front_once() {
    let mut once = filled(&[("a", 1), ("b", 2), ("c", 3)]);
    once.to_front("b");
    let mut twice = filled(&[("a", 1), ("b", 2), ("c", 3)]);
    twice.to_front("b");
    twice.to_front("b");
    assert_eq!(pairs(&once), pairs(&twice));
    assert_eq!(pairs(&twice), expect(&[("b", 2), ("a", 1), ("c", 3)]));
}

#[test]
fn to_back_moves_the_entry() {
    let mut map = filled(&[("a", 1), ("b", 2), ("c", 3)]);
    *map.to_back("a").unwrap() = 7;
    assert_eq!(pairs(&map), expect(&[("b", 2), ("c", 3), ("a", 7)]));
    assert!(map.to_back("missing").is_none());
}

#[test]
fn to_back_of_the_only_entry() {
    let mut map = filled(&[("a", 1)]);
    map.to_back("a");
    map.to_front("a");
    assert_eq!(pairs(&map), expect(&[("a", 1)]));
}

#[test]
fn refill_after_removal_equals_fresh_map() {
    let mut map = filled(&[("a", 1), ("b", 2), ("c", 3), ("d", 4)]);
    for key in ["a", "b", "c", "d"] {
        assert!(map.remove(key).is_some());
    }
    assert!(map.is_empty());
    for (k, v) in [("w", 10), ("x", 20), ("y", 30), ("z", 40)] {
        map.insert(k.to_string(), v);
    }
    let fresh = filled(&[("w", 10), ("x", 20), ("y", 30), ("z", 40)]);
    assert_eq!(pairs(&map), pairs(&fresh));
    assert!(map.eq(&fresh));
    for key in ["a", "b", "c", "d"] {
        assert!(map.get(key).is_none());
    }
}

#[test]
fn clear_empties_the_map_and_it_can_be_filled_again() {
    let mut map = filled(&[("a", 1), ("b", 2), ("c", 3)]);
    map.clear();
    assert_eq!(map.len(), 0);
    assert!(map.front().is_none());
    assert!(map.get("a").is_none());
    map.clear();
    map.insert("b".to_string(), 5);
    map.insert("q".to_string(), 6);
    assert_eq!(pairs(&map), expect(&[("b", 5), ("q", 6)]));
}

#[test]
fn same_order_is_equal_and_other_order_is_not() {
    let a = filled(&[("a", 1), ("b", 2), ("c", 3)]);
    let b = filled(&[("a", 1), ("b", 2), ("c", 3)]);
    let c = filled(&[("c", 3), ("b", 2), ("a", 1)]);
    assert!(a.eq(&b));
    assert!(b.eq(&a));
    assert!(!a.eq(&c));
    assert!(!c.eq(&a));
}

#[test]
fn maps_of_other_length_or_value_are_not_equal() {
    let a = filled(&[("a", 1), ("b", 2)]);
    let shorter = filled(&[("a", 1)]);
    let other_value = filled(&[("a", 1), ("b", 3)]);
    let other_key = filled(&[("a", 1), ("c", 2)]);
    assert!(!a.eq(&shorter));
    assert!(!shorter.eq(&a));
    assert!(!a.eq(&other_value));
    assert!(!a.eq(&other_key));
    let empty: MiniMap<i32> = MiniMap::new();
    assert!(empty.eq(&MiniMap::new()));
}

#[test]
fn equality_does_not_depend_on_the_seed() {
    let mut a = MiniMap::with_hasher(1);
    let mut b = MiniMap::with_hasher(2);
    for (k, v) in [("x", 1), ("y", 2)] {
        a.insert(k.to_string(), v);
        b.insert(k.to_string(), v);
    }
    assert!(a.eq(&b));
    assert_eq!(a.hasher(), 1);
    assert_eq!(b.hasher(), 2);
}

#[test]
fn iter_gives_all_entries_then_nothing() {
    let map = filled(&[("a", 1), ("b", 2), ("c", 3)]);
    let mut it = map.iter();
    assert_eq!(it.size_hint(), (3, Some(3)));
    assert_eq!(it.len(), 3);
    assert_eq!(it.next().map(|(k, v)| (k.as_str(), *v)), Some(("a", 1)));
    assert_eq!(it.size_hint(), (2, Some(2)));
    assert_eq!(it.next().map(|(k, v)| (k.as_str(), *v)), Some(("b", 2)));
    assert_eq!(it.next().map(|(k, v)| (k.as_str(), *v)), Some(("c", 3)));
    assert_eq!(it.size_hint(), (0, Some(0)));
    assert!(it.next().is_none());
    assert!(it.next().is_none());
    assert!(it.next_back().is_none());
}

#[test]
fn iter_on_empty_map_gives_nothing() {
    let map: MiniMap<i32> = MiniMap::new();
    let mut it = map.iter();
    assert_eq!(it.size_hint(), (0, Some(0)));
    assert!(it.next().is_none());
    assert!(it.next_back().is_none());
}

#[test]
fn iter_walks_from_both_ends() {
    let map = filled(&[("a", 1), ("b", 2), ("c", 3), ("d", 4)]);
    let mut it = map.iter();
    assert_eq!(it.next_back().map(|(k, v)| (k.as_str(), *v)), Some(("d", 4)));
    assert_eq!(it.next().map(|(k, v)| (k.as_str(), *v)), Some(("a", 1)));
    assert_eq!(it.next_back().map(|(k, v)| (k.as_str(), *v)), Some(("c", 3)));
    assert_eq!(it.next().map(|(k, v)| (k.as_str(), *v)), Some(("b", 2)));
    assert!(it.next().is_none());
    assert!(it.next_back().is_none());
}

#[test]
fn iter_can_be_cloned_and_restarted() {
    let map = filled(&[("a", 1), ("b", 2)]);
    let mut it = map.iter();
    it.next();
    let mut copy = it.clone();
    assert_eq!(copy.next().map(|(k, v)| (k.as_str(), *v)), Some(("b", 2)));
    assert_eq!(it.next().map(|(k, v)| (k.as_str(), *v)), Some(("b", 2)));
    let mut again = map.iter();
    assert_eq!(again.next().map(|(k, v)| (k.as_str(), *v)), Some(("a", 1)));
}

#[test]
fn iter_mut_changes_values_in_order() {
    let mut map = filled(&[("a", 1), ("b", 2), ("c", 3)]);
    {
        let mut it = map.iter_mut();
        assert_eq!(it.size_hint(), (3, Some(3)));
        let mut factor = 10;
        while let Some((_, v)) = it.next() {
            *v *= factor;
            factor *= 10;
        }
        assert!(it.next_back().is_none());
    }
    assert_eq!(pairs(&map), expect(&[("a", 10), ("b", 200), ("c", 3000)]));
    assert_eq!(map.get("b"), Some(&200));
}

#[test]
fn iter_mut_from_the_back_and_its_reading_walk() {
    let mut map = filled(&[("a", 1), ("b", 2), ("c", 3)]);
    let mut it = map.iter_mut();
    {
        let (k, v) = it.next_back().unwrap();
        assert_eq!(k, "c");
        *v = 30;
    }
    {
        let mut rest = it.iter();
        assert_eq!(rest.size_hint(), (2, Some(2)));
        assert_eq!(rest.next().map(|(k, v)| (k.as_str(), *v)), Some(("a", 1)));
        assert_eq!(rest.next().map(|(k, v)| (k.as_str(), *v)), Some(("b", 2)));
        assert!(rest.next().is_none());
    }
    assert_eq!(it.size_hint(), (2, Some(2)));
    assert_eq!(pairs(&map), expect(&[("a", 1), ("b", 2), ("c", 30)]));
}

#[test]
fn into_iter_takes_entries_from_both_ends() {
    let map = filled(&[("a", 1), ("b", 2), ("c", 3)]);
    let mut it = map.into_iter();
    assert_eq!(it.size_hint(), (3, Some(3)));
    assert_eq!(it.next(), Some(("a".to_string(), 1)));
    {
        let mut rest = it.iter();
        assert_eq!(rest.next().map(|(k, v)| (k.as_str(), *v)), Some(("b", 2)));
        assert_eq!(rest.next().map(|(k, v)| (k.as_str(), *v)), Some(("c", 3)));
        assert!(rest.next().is_none());
    }
    assert_eq!(it.next_back(), Some(("c".to_string(), 3)));
    assert_eq!(it.size_hint(), (1, Some(1)));
    assert_eq!(it.next(), Some(("b".to_string(), 2)));
    assert_eq!(it.next(), None);
    assert_eq!(it.next_back(), None);
}

#[test]
fn capacity_is_at_least_the_length() {
    let mut map = MiniMap::with_capacity(16);
    assert_eq!(map.len(), 0);
    assert!(map.capacity() >= 16);
    for i in 0..100 {
        map.insert(format!("key{}", i), i);
        assert!(map.capacity() >= map.len());
    }
    assert_eq!(map.len(), 100);
    map.reserve(1000);
    assert!(map.capacity() >= 1100);
    assert_eq!(map.len(), 100);
    assert_eq!(map.get("key57"), Some(&57));
}

#[test]
fn with_capacity_and_hasher_keeps_the_seed() {
    let mut map = MiniMap::with_capacity_and_hasher(8, 99);
    assert_eq!(map.hasher(), 99);
    map.insert("a".to_string(), 1);
    assert_eq!(map.get("a"), Some(&1));
    let plain: MiniMap<i32> = MiniMap::default();
    assert_eq!(plain.hasher(), 0);
    assert!(plain.is_empty());
}

#[test]
fn huge_reserve_leaves_the_map_as_it_is() {
    let mut map = filled(&[("a", 1)]);
    map.reserve(usize::MAX);
    assert_eq!(pairs(&map), expect(&[("a", 1)]));
}

#[test]
fn shrink_to_fit_keeps_the_entries() {
    let mut map = MiniMap::with_capacity(64);
    for i in 0..10 {
        map.insert(format!("k{}", i), i);
    }
    for i in 0..5 {
        map.remove(&format!("k{}", 2 * i));
    }
    let before = pairs(&map);
    map.shrink_to_fit();
    assert_eq!(pairs(&map), before);
    assert_eq!(map.len(), 5);
    assert!(map.capacity() >= 5);
    assert!(map.capacity() < 64);
    assert_eq!(map.get("k3"), Some(&3));
    assert_eq!(map.get("k4"), None);
    map.insert("new".to_string(), 100);
    assert_eq!(map.back().map(|(k, v)| (k.as_str(), *v)), Some(("new", 100)));
}

#[test]
fn drop_free_nodes_keeps_the_entries() {
    let mut map = filled(&[("a", 1), ("b", 2), ("c", 3)]);
    map.remove("b");
    map.drop_free_nodes();
    assert_eq!(pairs(&map), expect(&[("a", 1), ("c", 3)]));
    map.insert("b".to_string(), 4);
    assert_eq!(pairs(&map), expect(&[("a", 1), ("c", 3), ("b", 4)]));
}

#[test]
fn extend_inserts_in_order() {
    let mut map = filled(&[("a", 1), ("b", 2)]);
    map.extend(vec![("c".to_string(), 3), ("a".to_string(), 4), ("d".to_string(), 5)]);
    assert_eq!(pairs(&map), expect(&[("b", 2), ("c", 3), ("a", 4), ("d", 5)]));
}

#[test]
fn from_iter_builds_in_order() {
    let map = MiniMap::from_iter(vec![
        ("x".to_string(), 1),
        ("y".to_string(), 2),
        ("x".to_string(), 3),
    ]);
    assert_eq!(pairs(&map), expect(&[("y", 2), ("x", 3)]));
}

#[test]
fn clone_has_the_same_entries_in_the_same_order() {
    let mut map = filled(&[("a", 1), ("b", 2), ("c", 3)]);
    map.to_front("c");
    let copy = map.clone();
    assert!(copy.eq(&map));
    assert_eq!(pairs(&copy), expect(&[("c", 3), ("a", 1), ("b", 2)]));
    map.insert("d".to_string(), 4);
    assert_eq!(copy.len(), 3);
    assert!(copy.get("d").is_none());
}

#[test]
fn index_reads_and_writes_a_present_key() {
    let mut map = filled(&[("a", 1), ("b", 2)]);
    assert_eq!(*map.index("b"), 2);
    *map.index_mut("a") = 9;
    assert_eq!(pairs(&map), expect(&[("a", 9), ("b", 2)]));
}

#[test]
fn many_entries_survive_growth_of_the_index() {
    let mut map = MiniMap::new();
    for i in 0..2000 {
        assert_eq!(map.insert(format!("field_{}", i), i), None);
    }
    assert_eq!(map.len(), 2000);
    for i in 0..2000 {
        assert_eq!(map.get(&format!("field_{}", i)), Some(&i));
    }
    for i in (0..2000).step_by(2) {
        assert_eq!(map.remove(&format!("field_{}", i)), Some(i));
    }
    assert_eq!(map.len(), 1000);
    let walked = pairs(&map);
    assert_eq!(walked.len(), 1000);
    for (n, (k, v)) in walked.iter().enumerate() {
        assert_eq!(*v as usize, 2 * n + 1);
        assert_eq!(k, &format!("field_{}", 2 * n + 1));
    }
    for i in 0..500 {
        map.insert(format!("again_{}", i), i);
    }
    assert_eq!(map.len(), 1500);
    assert_eq!(map.back().map(|(k, v)| (k.clone(), *v)), Some(("again_499".to_string(), 499)));
    assert_eq!(map.front().map(|(k, v)| (k.clone(), *v)), Some(("field_1".to_string(), 1)));
}

#[test]
fn keys_that_share_a_prefix_are_different_keys() {
    let mut map = MiniMap::new();
    map.insert("".to_string(), 0);
    map.insert("a".to_string(), 1);
    map.insert("aa".to_string(), 2);
    map.insert("ä".to_string(), 3);
    assert_eq!(map.len(), 4);
    assert_eq!(map.get(""), Some(&0));
    assert_eq!(map.get("a"), Some(&1));
    assert_eq!(map.get("aa"), Some(&2));
    assert_eq!(map.get("ä"), Some(&3));
    assert_eq!(map.get("aaa"), None);
}

#[test]
fn hash_key_depends_on_key_and_seed() {
    assert_eq!(hash_key(0, "vertex"), hash_key(0, "vertex"));
    assert_eq!(hash_key(7, "vertex"), hash_key(7, "vertex"));
    assert_ne!(hash_key(0, "vertex"), hash_key(0, "face"));
    assert_ne!(hash_key(0, "vertex"), hash_key(1, "vertex"));
    assert_ne!(hash_key(0, ""), hash_key(0, "a"));
}

#[test]
fn header_order_is_kept_for_field_names() {
    let mut record = MiniMap::new();
    for (n, name) in ["x", "y", "z", "nx", "ny", "nz", "red", "green", "blue"].iter().enumerate() {
        record.insert(name.to_string(), n as i32);
    }
    record.insert("y".to_string(), 100);
    let names: Vec<String> = pairs(&record).into_iter().map(|(k, _)| k).collect();
    assert_eq!(names, vec!["x", "z", "nx", "ny", "nz", "red", "green", "blue", "y"]);
    let mut kept = MiniMap::new();
    for (n, name) in ["x", "y", "z"].iter().enumerate() {
        kept.insert(name.to_string(), n as i32);
    }
    kept.replace("y".to_string(), 100);
    let names: Vec<String> = pairs(&kept).into_iter().map(|(k, _)| k).collect();
    assert_eq!(names, vec!["x", "y", "z"]);
}
