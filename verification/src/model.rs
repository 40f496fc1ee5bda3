//! The map as a sequence of keys and values, and what each operation does to
//! that sequence.

use vstd::prelude::*;

verus! {

/// The entries of a map in order, each a key with its value.
pub type Entries<V> = Seq<(Seq<char>, V)>;

/// Whether some entry of `s` has the key `key`.
pub open spec fn has_key<V>(s: Entries<V>, key: Seq<char>) -> bool {
    exists|i: int| 0 <= i < s.len() && (#[trigger] s[i]).0 == key
}

/// The position of an entry of `s` that has the key `key`.
pub open spec fn key_index<V>(s: Entries<V>, key: Seq<char>) -> int {
    choose|i: int| 0 <= i < s.len() && (#[trigger] s[i]).0 == key
}

/// Whether no two entries of `s` have the same key.
pub open spec fn distinct_keys<V>(s: Entries<V>) -> bool {
    forall|i: int, j: int| 0 <= i < j < s.len() ==> (#[trigger] s[i]).0 != (#[trigger] s[j]).0
}

/// The value that `s` holds for `key`.
pub open spec fn lookup<V>(s: Entries<V>, key: Seq<char>) -> Option<V> {
    if has_key(s, key) {
        Some(s[key_index(s, key)].1)
    } else {
        None
    }
}

/// `s` after `insert(key, value)`: an entry with that key leaves its place,
/// and the new entry stands at the back.
pub open spec fn inserted<V>(s: Entries<V>, key: Seq<char>, value: V) -> Entries<V> {
    if has_key(s, key) {
        s.remove(key_index(s, key)).push((key, value))
    } else {
        s.push((key, value))
    }
}

/// `s` after `replace(key, value)`: an entry with that key gets the new value
/// where it stands; without one, the new entry stands at the back.
pub open spec fn replaced<V>(s: Entries<V>, key: Seq<char>, value: V) -> Entries<V> {
    if has_key(s, key) {
        s.update(key_index(s, key), (key, value))
    } else {
        s.push((key, value))
    }
}

/// `s` after `remove(key)`.
pub open spec fn removed<V>(s: Entries<V>, key: Seq<char>) -> Entries<V> {
    if has_key(s, key) {
        s.remove(key_index(s, key))
    } else {
        s
    }
}

/// `s` with the entry at position `i` moved to the front.
pub open spec fn front_from<V>(s: Entries<V>, i: int) -> Entries<V> {
    seq![s[i]] + s.remove(i)
}

/// `s` with the entry at position `i` moved to the back.
pub open spec fn back_from<V>(s: Entries<V>, i: int) -> Entries<V> {
    s.remove(i).push(s[i])
}

/// `s` after `to_front(key)`.
pub open spec fn moved_to_front<V>(s: Entries<V>, key: Seq<char>) -> Entries<V> {
    if has_key(s, key) {
        front_from(s, key_index(s, key))
    } else {
        s
    }
}

/// `s` after `to_back(key)`.
pub open spec fn moved_to_back<V>(s: Entries<V>, key: Seq<char>) -> Entries<V> {
    if has_key(s, key) {
        back_from(s, key_index(s, key))
    } else {
        s
    }
}

/// Among distinct keys, the entry that has a key is found where it stands.
pub proof fn lemma_key_index<V>(s: Entries<V>, key: Seq<char>, i: int)
    requires
        distinct_keys(s),
        0 <= i < s.len(),
        s[i].0 == key,
    ensures
        has_key(s, key),
        key_index(s, key) == i,
        lookup(s, key) == Some(s[i].1),
{
    let j = key_index(s, key);
    assert(0 <= j < s.len() && s[j].0 == key);
    if j < i {
        assert(s[j].0 != s[i].0);
    } else if i < j {
        assert(s[i].0 != s[j].0);
    }
}

/// Taking an entry out keeps the keys distinct, and takes its key out.
pub proof fn lemma_remove_distinct<V>(s: Entries<V>, i: int)
    requires
        distinct_keys(s),
        0 <= i < s.len(),
    ensures
        distinct_keys(s.remove(i)),
        !has_key(s.remove(i), s[i].0),
        forall|key: Seq<char>| key != s[i].0 ==> (has_key(s.remove(i), key) <==> has_key(s, key)),
{
    let r = s.remove(i);
    assert forall|a: int, b: int| 0 <= a < b < r.len() implies (#[trigger] r[a]).0 != (
    #[trigger] r[b]).0 by {
        let a0 = if a < i { a } else { a + 1 };
        let b0 = if b < i { b } else { b + 1 };
        assert(r[a] == s[a0] && r[b] == s[b0]);
    }
    if has_key(r, s[i].0) {
        let a = key_index(r, s[i].0);
        let a0 = if a < i { a } else { a + 1 };
        assert(r[a] == s[a0]);
        if a0 < i {
            assert(s[a0].0 != s[i].0);
        } else {
            assert(s[i].0 != s[a0].0);
        }
    }
    assert forall|key: Seq<char>| key != s[i].0 implies (has_key(r, key) <==> has_key(s, key)) by {
        if has_key(r, key) {
            let a = key_index(r, key);
            let a0 = if a < i { a } else { a + 1 };
            assert(r[a] == s[a0]);
        }
        if has_key(s, key) {
            let a0 = key_index(s, key);
            let a = if a0 < i { a0 } else { a0 - 1 };
            assert(r[a] == s[a0]);
        }
    }
}

/// Adding an entry with a new key at the back keeps the keys distinct.
pub proof fn lemma_push_distinct<V>(s: Entries<V>, key: Seq<char>, value: V)
    requires
        distinct_keys(s),
        !has_key(s, key),
    ensures
        distinct_keys(s.push((key, value))),
        has_key(s.push((key, value)), key),
        key_index(s.push((key, value)), key) == s.len(),
        forall|other: Seq<char>|
            other != key ==> (has_key(s.push((key, value)), other) <==> has_key(s, other)),
{
    let r = s.push((key, value));
    assert forall|a: int, b: int| 0 <= a < b < r.len() implies (#[trigger] r[a]).0 != (
    #[trigger] r[b]).0 by {
        assert(r[a] == s[a]);
        if b < s.len() {
            assert(r[b] == s[b]);
        }
    }
    assert(r[s.len() as int].0 == key);
    lemma_key_index(r, key, s.len() as int);
    assert forall|other: Seq<char>| other != key implies (has_key(r, other) <==> has_key(
        s,
        other,
    )) by {
        if has_key(r, other) {
            let a = key_index(r, other);
            assert(r[a] == s[a]);
        }
        if has_key(s, other) {
            let a = key_index(s, other);
            assert(r[a] == s[a]);
        }
    }
}

/// Adding an entry with a new key at the front keeps the keys distinct.
pub proof fn lemma_front_distinct<V>(s: Entries<V>, key: Seq<char>, value: V)
    requires
        distinct_keys(s),
        !has_key(s, key),
    ensures
        distinct_keys(seq![(key, value)] + s),
        has_key(seq![(key, value)] + s, key),
        key_index(seq![(key, value)] + s, key) == 0,
{
    let r = seq![(key, value)] + s;
    assert forall|a: int, b: int| 0 <= a < b < r.len() implies (#[trigger] r[a]).0 != (
    #[trigger] r[b]).0 by {
        assert(r[b] == s[b - 1]);
        if a > 0 {
            assert(r[a] == s[a - 1]);
        }
    }
    assert(r[0].0 == key);
    lemma_key_index(r, key, 0);
}

/// Giving an entry a new value where it stands keeps the keys as they are.
pub proof fn lemma_update_distinct<V>(s: Entries<V>, i: int, value: V)
    requires
        distinct_keys(s),
        0 <= i < s.len(),
    ensures
        distinct_keys(s.update(i, (s[i].0, value))),
        forall|key: Seq<char>| has_key(s.update(i, (s[i].0, value)), key) <==> has_key(s, key),
{
    let r = s.update(i, (s[i].0, value));
    assert forall|a: int, b: int| 0 <= a < b < r.len() implies (#[trigger] r[a]).0 != (
    #[trigger] r[b]).0 by {
        assert(r[a].0 == s[a].0 && r[b].0 == s[b].0);
    }
    assert forall|key: Seq<char>| has_key(r, key) <==> has_key(s, key) by {
        if has_key(r, key) {
            let a = key_index(r, key);
            assert(r[a].0 == s[a].0);
        }
        if has_key(s, key) {
            let a = key_index(s, key);
            assert(r[a].0 == s[a].0);
        }
    }
}

/// `s` after `insert` of each entry of `items`, in their order.
pub open spec fn inserted_all<V>(s: Entries<V>, items: Entries<V>) -> Entries<V>
    decreases items.len(),
{
    if items.len() == 0 {
        s
    } else {
        inserted(inserted_all(s, items.drop_last()), items.last().0, items.last().1)
    }
}

/// `s` after `remove` of each key of `keys`, in their order.
pub open spec fn removed_all<V>(s: Entries<V>, keys: Seq<Seq<char>>) -> Entries<V>
    decreases keys.len(),
{
    if keys.len() == 0 {
        s
    } else {
        removed(removed_all(s, keys.drop_last()), keys.last())
    }
}

/// The keys of `s`, in order.
pub open spec fn keys_of<V>(s: Entries<V>) -> Seq<Seq<char>> {
    s.map_values(|e: (Seq<char>, V)| e.0)
}

/// Pairs of owned keys and values, with each key read as its characters.
pub open spec fn keyed<V>(items: Seq<(String, V)>) -> Entries<V> {
    items.map_values(|e: (String, V)| (e.0@, e.1))
}

/// `insert` keeps the keys distinct, and adds its key to them.
pub proof fn lemma_inserted<V>(s: Entries<V>, key: Seq<char>, value: V)
    requires
        distinct_keys(s),
    ensures
        distinct_keys(inserted(s, key, value)),
        has_key(inserted(s, key, value), key),
        key_index(inserted(s, key, value), key) == inserted(s, key, value).len() - 1,
        inserted(s, key, value).last() == (key, value),
        forall|other: Seq<char>|
            other != key ==> (has_key(inserted(s, key, value), other) <==> has_key(s, other)),
{
    if has_key(s, key) {
        let i = key_index(s, key);
        lemma_remove_distinct(s, i);
        lemma_push_distinct(s.remove(i), key, value);
    } else {
        lemma_push_distinct(s, key, value);
    }
}

/// `remove` keeps the keys distinct, and takes its key from them.
pub proof fn lemma_removed<V>(s: Entries<V>, key: Seq<char>)
    requires
        distinct_keys(s),
    ensures
        distinct_keys(removed(s, key)),
        !has_key(removed(s, key), key),
        forall|other: Seq<char>|
            other != key ==> (has_key(removed(s, key), other) <==> has_key(s, other)),
{
    if has_key(s, key) {
        lemma_remove_distinct(s, key_index(s, key));
    }
}

/// What a walk over `s` gives next: its first entry, or nothing at the end.
pub open spec fn first_of<V>(s: Entries<V>) -> Option<(Seq<char>, V)> {
    if s.len() > 0 {
        Some(s[0])
    } else {
        None
    }
}

/// What a walk over `s` has yet to give after it gave its next entry.
pub open spec fn rest_of<V>(s: Entries<V>) -> Entries<V> {
    if s.len() > 0 {
        s.skip(1)
    } else {
        s
    }
}

/// What a walk over `s` has yet to give after it was asked `n` times.
pub open spec fn rest_after<V>(s: Entries<V>, n: nat) -> Entries<V>
    decreases n,
{
    if n == 0 {
        s
    } else {
        rest_of(rest_after(s, (n - 1) as nat))
    }
}

} // verus!
