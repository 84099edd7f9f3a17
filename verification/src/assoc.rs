//! Lists of keyed records, read as finite maps.
//!
//! The store keeps each of its tables as a list of records in which no key
//! occurs twice. The contracts speak of the map that such a list stands for.

use vstd::prelude::*;

verus! {

/// A record with a key and a value.
pub trait Keyed {
    type Key;

    type Value;

    /// What identifies the record.
    spec fn key(&self) -> Self::Key;

    /// What the record says of its key.
    spec fn value(&self) -> Self::Value;
}

/// Whether some record of the list has the key `k`.
pub open spec fn has_key<E: Keyed>(s: Seq<E>, k: E::Key) -> bool {
    exists|i: int| 0 <= i < s.len() && (#[trigger] s[i]).key() == k
}

/// The position of a record with key `k`.
pub open spec fn position<E: Keyed>(s: Seq<E>, k: E::Key) -> int {
    choose|i: int| 0 <= i < s.len() && (#[trigger] s[i]).key() == k
}

/// No key occurs twice.
pub open spec fn distinct_keys<E: Keyed>(s: Seq<E>) -> bool {
    forall|i: int, j: int|
        0 <= i < j < s.len() ==> (#[trigger] s[i]).key() != (#[trigger] s[j]).key()
}

/// The map that the list stands for.
pub open spec fn to_map<E: Keyed>(s: Seq<E>) -> Map<E::Key, E::Value> {
    Map::new(|k: E::Key| has_key(s, k), |k: E::Key| s[position(s, k)].value())
}

/// The record at position `i` is what the map holds under its key.
pub proof fn lemma_lookup<E: Keyed>(s: Seq<E>, i: int)
    requires
        distinct_keys(s),
        0 <= i < s.len(),
    ensures
        has_key(s, s[i].key()),
        position(s, s[i].key()) == i,
        to_map(s).contains_key(s[i].key()),
        to_map(s)[s[i].key()] == s[i].value(),
{
    let k = s[i].key();
    assert(has_key(s, k));
    let p = position(s, k);
    if p < i {
        assert(s[p].key() != s[i].key());
    } else if i < p {
        assert(s[i].key() != s[p].key());
    }
}

/// A key that the list lacks is not in the map.
pub proof fn lemma_absent<E: Keyed>(s: Seq<E>, k: E::Key)
    requires
        forall|i: int| 0 <= i < s.len() ==> (#[trigger] s[i]).key() != k,
    ensures
        !has_key(s, k),
        !to_map(s).contains_key(k),
{
}

/// A key of the map has a position in the list.
pub proof fn lemma_present<E: Keyed>(s: Seq<E>, k: E::Key)
    requires
        to_map(s).contains_key(k),
    ensures
        0 <= position(s, k) < s.len(),
        s[position(s, k)].key() == k,
        to_map(s)[k] == s[position(s, k)].value(),
{
}

/// Appending a record with a new key inserts it into the map.
pub proof fn lemma_push<E: Keyed>(s: Seq<E>, e: E)
    requires
        distinct_keys(s),
        !has_key(s, e.key()),
    ensures
        distinct_keys(s.push(e)),
        to_map(s.push(e)) == to_map(s).insert(e.key(), e.value()),
{
    let t = s.push(e);
    assert forall|i: int, j: int| 0 <= i < j < t.len() implies (#[trigger] t[i]).key() != (
    #[trigger] t[j]).key() by {
        if j < s.len() {
            assert(s[i].key() != s[j].key());
        } else {
            assert(s[i].key() != e.key());
        }
    }
    assert forall|k: E::Key| to_map(t).contains_key(k) <==> to_map(s).insert(
        e.key(),
        e.value(),
    ).contains_key(k) by {
        if to_map(t).contains_key(k) {
            let p = position(t, k);
            if p < s.len() {
                assert(s[p].key() == k);
            }
        }
        if has_key(s, k) {
            let p = position(s, k);
            assert(t[p].key() == k);
        }
        if k == e.key() {
            assert(t[s.len() as int].key() == k);
        }
    }
    assert forall|k: E::Key| to_map(t).contains_key(k) implies to_map(t)[k] == to_map(s).insert(
        e.key(),
        e.value(),
    )[k] by {
        let p = position(t, k);
        lemma_lookup(t, p);
        if p < s.len() {
            lemma_lookup(s, p);
        }
    }
    assert(to_map(t) =~= to_map(s).insert(e.key(), e.value()));
}

/// Taking the record at position `i` out removes its key from the map.
pub proof fn lemma_remove<E: Keyed>(s: Seq<E>, i: int)
    requires
        distinct_keys(s),
        0 <= i < s.len(),
    ensures
        distinct_keys(s.remove(i)),
        !has_key(s.remove(i), s[i].key()),
        to_map(s.remove(i)) == to_map(s).remove(s[i].key()),
{
    let t = s.remove(i);
    assert forall|a: int| 0 <= a < t.len() implies (#[trigger] t[a]) == s[if a < i {
        a
    } else {
        a + 1
    }] by {}
    assert forall|a: int, b: int| 0 <= a < b < t.len() implies (#[trigger] t[a]).key() != (
    #[trigger] t[b]).key() by {
        let from_a = if a < i { a } else { a + 1 };
        let from_b = if b < i { b } else { b + 1 };
        assert(s[from_a].key() != s[from_b].key());
    }
    assert forall|a: int| 0 <= a < t.len() implies (#[trigger] t[a]).key() != s[i].key() by {
        let from_a = if a < i { a } else { a + 1 };
        if from_a < i {
            assert(s[from_a].key() != s[i].key());
        } else {
            assert(s[i].key() != s[from_a].key());
        }
    }
    assert forall|k: E::Key| to_map(t).contains_key(k) <==> to_map(s).remove(
        s[i].key(),
    ).contains_key(k) by {
        if has_key(t, k) {
            let p = position(t, k);
            let shifted = if p < i { p } else { p + 1 };
            assert(s[shifted].key() == k);
        }
        if has_key(s, k) && k != s[i].key() {
            let p = position(s, k);
            let shifted = if p < i { p } else { p - 1 };
            assert(t[shifted].key() == k);
        }
    }
    assert forall|k: E::Key| to_map(t).contains_key(k) implies to_map(t)[k] == to_map(s).remove(
        s[i].key(),
    )[k] by {
        let p = position(t, k);
        let shifted = if p < i { p } else { p + 1 };
        lemma_lookup(t, p);
        lemma_lookup(s, shifted);
    }
    assert(to_map(t) =~= to_map(s).remove(s[i].key()));
}

/// Replacing the record at position `i` by one with the same key replaces
/// its value in the map.
pub proof fn lemma_update<E: Keyed>(s: Seq<E>, i: int, e: E)
    requires
        distinct_keys(s),
        0 <= i < s.len(),
        e.key() == s[i].key(),
    ensures
        distinct_keys(s.update(i, e)),
        to_map(s.update(i, e)) == to_map(s).insert(e.key(), e.value()),
{
    let t = s.update(i, e);
    assert forall|a: int, b: int| 0 <= a < b < t.len() implies (#[trigger] t[a]).key() != (
    #[trigger] t[b]).key() by {
        assert(s[a].key() != s[b].key());
    }
    assert forall|k: E::Key| to_map(t).contains_key(k) <==> to_map(s).insert(
        e.key(),
        e.value(),
    ).contains_key(k) by {
        if has_key(t, k) {
            let p = position(t, k);
            assert(s[p].key() == k);
        }
        if has_key(s, k) {
            let p = position(s, k);
            assert(t[p].key() == k);
        }
        if k == e.key() {
            assert(t[i].key() == k);
        }
    }
    assert forall|k: E::Key| to_map(t).contains_key(k) implies to_map(t)[k] == to_map(s).insert(
        e.key(),
        e.value(),
    )[k] by {
        let p = position(t, k);
        lemma_lookup(t, p);
        lemma_lookup(s, p);
    }
    assert(to_map(t) =~= to_map(s).insert(e.key(), e.value()));
}

/// Appending a list whose keys are new and distinct adds its map.
pub proof fn lemma_concat<E: Keyed>(s: Seq<E>, t: Seq<E>)
    requires
        distinct_keys(s),
        distinct_keys(t),
        forall|i: int| 0 <= i < t.len() ==> !has_key(s, (#[trigger] t[i]).key()),
    ensures
        distinct_keys(s + t),
        to_map(s + t) == to_map(s).union_prefer_right(to_map(t)),
    decreases t.len(),
{
    if t.len() == 0 {
        assert(s + t =~= s);
        assert(to_map(t) =~= Map::empty());
        assert(to_map(s).union_prefer_right(to_map(t)) =~= to_map(s));
    } else {
        let last = t.last();
        let front = t.drop_last();
        assert forall|i: int| 0 <= i < front.len() implies !has_key(
            s,
            (#[trigger] front[i]).key(),
        ) by {
            assert(front[i] == t[i]);
        }
        assert forall|i: int, j: int| 0 <= i < j < front.len() implies (#[trigger] front[i]).key()
            != (#[trigger] front[j]).key() by {
            assert(t[i].key() != t[j].key());
        }
        lemma_concat(s, front);
        assert(s + t =~= (s + front).push(last));
        assert(t =~= front.push(last));
        assert forall|i: int| 0 <= i < (s + front).len() implies (#[trigger] (s + front)[i]).key()
            != last.key() by {
            if i < s.len() {
                assert(!has_key(s, t[t.len() - 1].key()));
            } else {
                assert(t[i - s.len()].key() != t[t.len() - 1].key());
            }
        }
        lemma_absent(s + front, last.key());
        lemma_push(s + front, last);
        assert forall|i: int| 0 <= i < front.len() implies (#[trigger] front[i]).key()
            != last.key() by {
            assert(t[i].key() != t[t.len() - 1].key());
        }
        lemma_absent(front, last.key());
        lemma_push(front, last);
        assert(to_map(s + t) =~= to_map(s).union_prefer_right(to_map(t)));
    }
}

/// Two lists that agree on keys and values, position by position, stand
/// for the same map.
pub proof fn lemma_same_map<E: Keyed, F: Keyed<Key = E::Key, Value = E::Value>>(
    s: Seq<E>,
    t: Seq<F>,
)
    requires
        s.len() == t.len(),
        forall|i: int|
            0 <= i < s.len() ==> (#[trigger] s[i]).key() == t[i].key() && s[i].value()
                == t[i].value(),
    ensures
        distinct_keys(s) ==> distinct_keys(t),
        distinct_keys(s) ==> to_map(t) == to_map(s),
{
    if distinct_keys(s) {
        assert forall|i: int, j: int| 0 <= i < j < t.len() implies (#[trigger] t[i]).key() != (
        #[trigger] t[j]).key() by {
            assert(s[i].key() != s[j].key());
        }
        assert forall|k: E::Key| to_map(t).contains_key(k) <==> to_map(s).contains_key(k) by {
            if has_key(t, k) {
                let p = position(t, k);
                assert(s[p].key() == k);
            }
            if has_key(s, k) {
                let p = position(s, k);
                assert(t[p].key() == k);
            }
        }
        assert forall|k: E::Key| to_map(t).contains_key(k) implies to_map(t)[k] == to_map(s)[k] by {
            let p = position(t, k);
            lemma_lookup(t, p);
            assert(s[p].key() == k);
            lemma_lookup(s, p);
        }
        assert(to_map(t) =~= to_map(s));
    }
}

} // verus!
