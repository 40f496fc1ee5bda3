use mini_map::MiniMap;
use std::cmp::Ordering;

fn filled(items: &[(&str, i32)]) -> MiniMap<i32> {
    let mut map = MiniMap::new();
    for (k, v) in items {
        map.insert(k.to_string(), *v);
    }
    map
}

fn floats(items: &[(&str, f64)]) -> MiniMap<f64> {
    let mut map = MiniMap::new();
    for (k, v) in items {
        map.insert(k.to_string(), *v);
    }
    map
}

#[test]
fn equal_maps_compare_equal() {
    let a = filled(&[("a", 1), ("b", 2)]);
    let b = filled(&[("a", 1), ("b", 2)]);
    assert_eq!(a.partial_cmp(&b), Some(Ordering::Equal));
    assert_eq!(a.cmp(&b), Ordering::Equal);
    assert!(a.le(&b));
    assert!(a.ge(&b));
    assert!(!a.lt(&b));
    assert!(!a.gt(&b));
}

#[test]
fn empty_maps_compare_equal_and_come_first() {
    let empty: MiniMap<i32> = MiniMap::new();
    let other: MiniMap<i32> = MiniMap::new();
    let one = filled(&[("a", 1)]);
    assert_eq!(empty.cmp(&other), Ordering::Equal);
    assert_eq!(empty.partial_cmp(&one), Some(Ordering::Less));
    assert_eq!(one.partial_cmp(&empty), Some(Ordering::Greater));
    assert_eq!(empty.cmp(&one), Ordering::Less);
    assert_eq!(one.cmp(&empty), Ordering::Greater);
}

#[test]
fn first_differing_key_decides() {
    let a = filled(&[("a", 9), ("z", 0)]);
    let b = filled(&[("b", 0), ("a", 0)]);
    assert_eq!(a.partial_cmp(&b), Some(Ordering::Less));
    assert_eq!(b.partial_cmp(&a), Some(Ordering::Greater));
    assert_eq!(a.cmp(&b), Ordering::Less);
    assert!(a.lt(&b));
    assert!(a.le(&b));
    assert!(b.gt(&a));
    assert!(b.ge(&a));
    assert!(!b.lt(&a));
}

#[test]
fn value_decides_where_keys_are_the_same() {
    let a = filled(&[("a", 1), ("b", 2)]);
    let b = filled(&[("a", 1), ("b", 3)]);
    assert_eq!(a.partial_cmp(&b), Some(Ordering::Less));
    assert_eq!(b.cmp(&a), Ordering::Greater);
}

#[test]
fn a_map_that_begins_another_comes_first() {
    let a = filled(&[("a", 1)]);
    let b = filled(&[("a", 1), ("b", 2)]);
    assert_eq!(a.partial_cmp(&b), Some(Ordering::Less));
    assert_eq!(b.partial_cmp(&a), Some(Ordering::Greater));
    assert_eq!(a.cmp(&b), Ordering::Less);
}

#[test]
fn order_depends_on_the_order_of_entries() {
    let a = filled(&[("a", 1), ("b", 2)]);
    let b = filled(&[("b", 2), ("a", 1)]);
    assert_eq!(a.partial_cmp(&b), Some(Ordering::Less));
    assert_eq!(b.cmp(&a), Ordering::Greater);
    let mut moved = filled(&[("a", 1), ("b", 2)]);
    moved.to_front("b");
    assert_eq!(moved.cmp(&b), Ordering::Equal);
}

#[test]
fn keys_are_ordered_by_their_characters() {
    let short = filled(&[("ab", 1)]);
    let long = filled(&[("abc", 0)]);
    let upper = filled(&[("B", 5)]);
    let accent = filled(&[("é", 0)]);
    assert_eq!(short.cmp(&long), Ordering::Less);
    assert_eq!(upper.cmp(&short), Ordering::Less);
    assert_eq!(accent.cmp(&long), Ordering::Greater);
    assert_eq!(long.cmp(&accent), Ordering::Less);
}

#[test]
fn values_without_an_order_give_none() {
    let a = floats(&[("a", f64::NAN)]);
    let b = floats(&[("a", 1.0)]);
    assert_eq!(a.partial_cmp(&b), None);
    assert!(!a.lt(&b));
    assert!(!a.le(&b));
    assert!(!a.gt(&b));
    assert!(!a.ge(&b));
    let c = floats(&[("a", 0.5), ("b", f64::NAN)]);
    assert_eq!(c.partial_cmp(&b), Some(Ordering::Less));
    assert!(!a.eq(&a));
}
