//! What holds of the map across several operations, stated over the sequence
//! of its entries.

use crate::map::MiniMap;
use crate::model::{
    back_from, distinct_keys, first_of, front_from, has_key, inserted, inserted_all, key_index,
    keys_of, lemma_front_distinct, lemma_inserted, lemma_key_index, lemma_push_distinct,
    lemma_remove_distinct, lemma_removed, lemma_update_distinct, lookup, moved_to_back,
    moved_to_front, removed, removed_all, replaced, rest_after, Entries,
};
use vstd::prelude::*;

verus! {

/// Inserting entries whose keys are new and differ from one another puts them
/// behind the entries that were there, in the order of insertion.
pub proof fn law_insertion_order<V>(s: Entries<V>, items: Entries<V>)
    requires
        distinct_keys(s + items),
    ensures
        inserted_all(s, items) == s + items,
    decreases items.len(),
{
    if items.len() == 0 {
        assert(s + items =~= s);
    } else {
        let front = items.drop_last();
        let all = s + items;
        assert(s + front =~= all.drop_last());
        assert forall|i: int, j: int| 0 <= i < j < (s + front).len() implies (#[trigger] (s
            + front)[i]).0 != (#[trigger] (s + front)[j]).0 by {
            assert((s + front)[i] == all[i] && (s + front)[j] == all[j]);
        }
        law_insertion_order(s, front);
        let last = items.last();
        assert(all[all.len() - 1] == last);
        if has_key(s + front, last.0) {
            let i = key_index(s + front, last.0);
            assert((s + front)[i] == all[i]);
            assert(all[i].0 != all[all.len() - 1].0);
        }
        assert((s + front).push(last) =~= all);
    }
}

/// A map filled from empty with entries of different keys walks them in the
/// order in which they were inserted.
pub proof fn law_order_preservation<V>(items: Entries<V>)
    requires
        distinct_keys(items),
    ensures
        inserted_all(Entries::<V>::empty(), items) == items,
{
    assert(Entries::<V>::empty() + items =~= items);
    law_insertion_order(Entries::<V>::empty(), items);
}

/// `insert` of a key that the map has moves its entry to the back: the entries
/// around it close up in their order and the entry, with its new value, is the
/// last one.
pub proof fn law_insert_moves_to_back<V>(s: Entries<V>, i: int, value: V)
    requires
        distinct_keys(s),
        0 <= i < s.len(),
    ensures
        inserted(s, s[i].0, value) == s.remove(i).push((s[i].0, value)),
        key_index(inserted(s, s[i].0, value), s[i].0) == s.len() - 1,
{
    lemma_key_index(s, s[i].0, i);
    lemma_inserted(s, s[i].0, value);
}

/// `replace` of a key that the map has leaves its entry where it stands, and
/// every other entry too.
pub proof fn law_replace_keeps_place<V>(s: Entries<V>, i: int, value: V)
    requires
        distinct_keys(s),
        0 <= i < s.len(),
    ensures
        replaced(s, s[i].0, value) == s.update(i, (s[i].0, value)),
        key_index(replaced(s, s[i].0, value), s[i].0) == i,
{
    lemma_key_index(s, s[i].0, i);
    let r = s.update(i, (s[i].0, value));
    lemma_update_distinct(s, i, value);
    lemma_key_index(r, s[i].0, i);
}

/// In a map that is in order, the number of entries, the number of different
/// keys and the number of keys that a lookup finds are one number: every
/// entry is found under its key, with its value, and no key is found twice.
pub proof fn law_bijection<V>(map: MiniMap<V>)
    requires
        map.wf(),
    ensures
        distinct_keys(map@),
        forall|i: int| 0 <= i < map@.len() ==> lookup(map@, (#[trigger] map@[i]).0) == Some(map@[i].1),
        forall|i: int| 0 <= i < map@.len() ==> key_index(map@, (#[trigger] map@[i]).0) == i,
        keys_of(map@).no_duplicates(),
        keys_of(map@).to_set().len() == map@.len(),
        forall|key: Seq<char>| has_key(map@, key) <==> keys_of(map@).to_set().contains(key),
{
    map.lemma_wf();
    let s = map@;
    let keys = keys_of(s);
    assert forall|i: int| 0 <= i < s.len() implies lookup(s, (#[trigger] s[i]).0) == Some(s[i].1)
        && key_index(s, s[i].0) == i by {
        lemma_key_index(s, s[i].0, i);
    }
    assert forall|i: int, j: int| 0 <= i < keys.len() && 0 <= j < keys.len() && i != j implies keys[i]
        != keys[j] by {
        if i < j {
            assert(s[i].0 != s[j].0);
        } else {
            assert(s[j].0 != s[i].0);
        }
    }
    keys.unique_seq_to_set();
    assert forall|key: Seq<char>| has_key(s, key) <==> keys.to_set().contains(key) by {
        if has_key(s, key) {
            let i = key_index(s, key);
            assert(keys[i] == key);
        }
        if keys.contains(key) {
            let i = choose|i: int| 0 <= i < keys.len() && keys[i] == key;
            assert(s[i].0 == key);
        }
    }
}

/// The entries of a map filled from empty have different keys, each of them a
/// key that was inserted.
pub proof fn lemma_inserted_all<V>(items: Entries<V>)
    ensures
        distinct_keys(inserted_all(Entries::<V>::empty(), items)),
        forall|key: Seq<char>| #[trigger]
            has_key(inserted_all(Entries::<V>::empty(), items), key) ==> keys_of(items).contains(
                key,
            ),
    decreases items.len(),
{
    if items.len() > 0 {
        let front = items.drop_last();
        lemma_inserted_all(front);
        let s = inserted_all(Entries::<V>::empty(), front);
        let last = items.last();
        let t = inserted(s, last.0, last.1);
        assert(inserted_all(Entries::<V>::empty(), items) == t);
        lemma_inserted(s, last.0, last.1);
        assert forall|key: Seq<char>| #[trigger] has_key(t, key) implies keys_of(items).contains(
            key,
        ) by {
            if key == last.0 {
                assert(keys_of(items)[items.len() - 1] == key);
            } else {
                assert(has_key(t, key) <==> has_key(s, key));
                assert(keys_of(front).contains(key));
                let i = choose|i: int| 0 <= i < keys_of(front).len() && keys_of(front)[i] == key;
                assert(keys_of(items)[i] == key);
            }
        }
    }
}

/// Removing keys from entries of different keys leaves entries of different
/// keys, none of them a key that was removed.
pub proof fn lemma_removed_all<V>(s: Entries<V>, keys: Seq<Seq<char>>)
    requires
        distinct_keys(s),
    ensures
        distinct_keys(removed_all(s, keys)),
        forall|key: Seq<char>| #[trigger]
            has_key(removed_all(s, keys), key) ==> has_key(s, key) && !keys.contains(key),
    decreases keys.len(),
{
    if keys.len() > 0 {
        let front = keys.drop_last();
        lemma_removed_all(s, front);
        let t = removed_all(s, front);
        let r = removed(t, keys.last());
        assert(removed_all(s, keys) == r);
        lemma_removed(t, keys.last());
        assert forall|key: Seq<char>| #[trigger] has_key(r, key) implies has_key(s, key)
            && !keys.contains(key) by {
            assert(key != keys.last());
            assert(has_key(r, key) <==> has_key(t, key));
            assert(has_key(s, key) && !front.contains(key));
            if keys.contains(key) {
                let i = choose|i: int| 0 <= i < keys.len() && keys[i] == key;
                assert(front[i] == key);
            }
        }
    } else {
        assert(removed_all(s, keys) == s);
    }
}

/// A map that was filled, emptied key by key and filled again walks what a
/// new map filled with the second batch alone walks: the slots that the first
/// batch left in the free list carry nothing over.
pub proof fn law_round_trip<V>(first: Entries<V>, second: Entries<V>)
    ensures
        removed_all(inserted_all(Entries::<V>::empty(), first), keys_of(first))
            == Entries::<V>::empty(),
        inserted_all(
            removed_all(inserted_all(Entries::<V>::empty(), first), keys_of(first)),
            second,
        ) == inserted_all(Entries::<V>::empty(), second),
{
    let filled = inserted_all(Entries::<V>::empty(), first);
    lemma_inserted_all(first);
    lemma_removed_all(filled, keys_of(first));
    let emptied = removed_all(filled, keys_of(first));
    if emptied.len() > 0 {
        let key = emptied[0].0;
        assert(has_key(emptied, key));
        assert(has_key(filled, key) && !keys_of(first).contains(key));
        assert(keys_of(first).contains(key));
    }
    assert(emptied =~= Entries::<V>::empty());
}

/// Moving an entry to the front twice leaves the order that moving it once
/// leaves.
pub proof fn law_to_front_idempotent<V>(s: Entries<V>, key: Seq<char>)
    requires
        distinct_keys(s),
    ensures
        moved_to_front(moved_to_front(s, key), key) == moved_to_front(s, key),
{
    if has_key(s, key) {
        let i = key_index(s, key);
        let t = front_from(s, i);
        lemma_remove_distinct(s, i);
        lemma_front_distinct(s.remove(i), s[i].0, s[i].1);
        assert(t =~= seq![(s[i].0, s[i].1)] + s.remove(i));
        assert(front_from(t, 0) =~= t);
    }
}

/// Moving an entry to the back twice leaves the order that moving it once
/// leaves.
pub proof fn law_to_back_idempotent<V>(s: Entries<V>, key: Seq<char>)
    requires
        distinct_keys(s),
    ensures
        moved_to_back(moved_to_back(s, key), key) == moved_to_back(s, key),
{
    if has_key(s, key) {
        let i = key_index(s, key);
        let t = back_from(s, i);
        lemma_remove_distinct(s, i);
        lemma_push_distinct(s.remove(i), s[i].0, s[i].1);
        assert(t =~= s.remove(i).push((s[i].0, s[i].1)));
        assert(back_from(t, t.len() - 1) =~= t);
    }
}

/// Two maps filled from empty, each with entries of different keys, hold the
/// same sequence of entries exactly when the entries were inserted in the same
/// order: the same entries inserted in another order give another sequence.
pub proof fn law_equality_by_sequence<V>(a: Entries<V>, b: Entries<V>)
    requires
        distinct_keys(a),
        distinct_keys(b),
    ensures
        inserted_all(Entries::<V>::empty(), a) == inserted_all(Entries::<V>::empty(), b) <==> a
            == b,
{
    law_order_preservation(a);
    law_order_preservation(b);
}

/// A walk over `N` entries gives them in order when asked `N` times, has one
/// entry fewer to give after each, and gives nothing from then on.
pub proof fn law_walk_exhausts<V>(s: Entries<V>, n: nat)
    ensures
        n <= s.len() ==> rest_after(s, n) == s.skip(n as int),
        n < s.len() ==> first_of(rest_after(s, n)) == Some(s[n as int]),
        n >= s.len() ==> rest_after(s, n).len() == 0 && first_of(rest_after(s, n)) is None,
    decreases n,
{
    if n == 0 {
        assert(s.skip(0) =~= s);
    } else {
        let m = (n - 1) as nat;
        law_walk_exhausts(s, m);
        let before = rest_after(s, m);
        if m < s.len() {
            assert(before == s.skip(m as int));
            assert(before.skip(1) =~= s.skip(n as int));
        }
    }
}

} // verus!
