//! Association lists with distinct text keys, viewed as maps.

use vstd::prelude::*;

verus! {

/// The map that an association list with distinct keys stands for.
pub open spec fn keyed_map<V>(s: Seq<(Seq<char>, V)>) -> Map<Seq<char>, V> {
    Map::new(
        |k: Seq<char>| exists|i: int| 0 <= i < s.len() && (#[trigger] s[i]).0 == k,
        |k: Seq<char>| s[choose|i: int| 0 <= i < s.len() && (#[trigger] s[i]).0 == k].1,
    )
}

/// No key occurs twice.
pub open spec fn keys_distinct<V>(s: Seq<(Seq<char>, V)>) -> bool {
    forall|i: int, j: int| 0 <= i < j < s.len() ==> (#[trigger] s[i]).0 != (#[trigger] s[j]).0
}

/// Adding an entry under a new key inserts it into the map.
pub proof fn lemma_keyed_push<V>(s: Seq<(Seq<char>, V)>, k: Seq<char>, v: V)
    requires
        keys_distinct(s),
        forall|i: int| 0 <= i < s.len() ==> (#[trigger] s[i]).0 != k,
    ensures
        keys_distinct(s.push((k, v))),
        keyed_map(s.push((k, v))) == keyed_map(s).insert(k, v),
{
    let t = s.push((k, v));
    assert forall|i: int| 0 <= i < s.len() implies t[i] == s[i] by {}
    assert(t[s.len() as int] == (k, v));
    assert forall|key: Seq<char>| #[trigger] keyed_map(t).contains_key(key) == keyed_map(s).insert(k, v).contains_key(key) by {
        if key == k {
            assert(t[s.len() as int].0 == k);
        } else if keyed_map(s).contains_key(key) {
            let i = choose|i: int| 0 <= i < s.len() && (#[trigger] s[i]).0 == key;
            assert(t[i].0 == key);
        }
    }
    assert forall|key: Seq<char>| #[trigger] keyed_map(t).contains_key(key) implies keyed_map(t)[key] == keyed_map(s).insert(k, v)[key] by {
        let i = choose|i: int| 0 <= i < t.len() && (#[trigger] t[i]).0 == key;
        if key == k {
            assert(i == s.len());
        } else {
            let j = choose|j: int| 0 <= j < s.len() && (#[trigger] s[j]).0 == key;
            assert(t[j].0 == key);
            assert(i == j);
        }
    }
    assert(keyed_map(t) =~= keyed_map(s).insert(k, v));
}

/// Replacing the value of an entry replaces it in the map.
pub proof fn lemma_keyed_update<V>(s: Seq<(Seq<char>, V)>, i: int, v: V)
    requires
        keys_distinct(s),
        0 <= i < s.len(),
    ensures
        keys_distinct(s.update(i, (s[i].0, v))),
        keyed_map(s.update(i, (s[i].0, v))) == keyed_map(s).insert(s[i].0, v),
{
    let k = s[i].0;
    let t = s.update(i, (k, v));
    assert forall|j: int| 0 <= j < s.len() implies (#[trigger] t[j]).0 == s[j].0 by {}
    assert forall|key: Seq<char>| #[trigger] keyed_map(t).contains_key(key) == keyed_map(s).insert(k, v).contains_key(key) by {
        if key == k {
            assert(t[i].0 == k);
        } else if keyed_map(s).contains_key(key) {
            let j = choose|j: int| 0 <= j < s.len() && (#[trigger] s[j]).0 == key;
            assert(t[j].0 == key);
        } else if keyed_map(t).contains_key(key) {
            let j = choose|j: int| 0 <= j < t.len() && (#[trigger] t[j]).0 == key;
            assert(s[j].0 == key);
        }
    }
    assert forall|key: Seq<char>| #[trigger] keyed_map(t).contains_key(key) implies keyed_map(t)[key] == keyed_map(s).insert(k, v)[key] by {
        let j = choose|j: int| 0 <= j < t.len() && (#[trigger] t[j]).0 == key;
        if key == k {
            assert(s[j].0 == k);
            assert(j == i);
        } else {
            let m = choose|m: int| 0 <= m < s.len() && (#[trigger] s[m]).0 == key;
            assert(t[m].0 == key);
            assert(s[j].0 == key);
            assert(j == m);
            assert(t[j] == s[j]);
        }
    }
    assert(keyed_map(t) =~= keyed_map(s).insert(k, v));
}

/// The position of the entry with key `k`, if there is one.
pub fn find_key<T>(v: &Vec<(String, T)>, k: &String) -> (r: Option<usize>)
    ensures
        match r {
            Some(i) => i < v@.len() && v@[i as int].0@ == k@,
            None => forall|i: int| 0 <= i < v@.len() ==> (#[trigger] v@[i]).0@ != k@,
        },
{
    let mut i: usize = 0;
    while i < v.len()
        invariant
            i <= v@.len(),
            forall|j: int| 0 <= j < i ==> (#[trigger] v@[j]).0@ != k@,
        decreases v@.len() - i,
    {
        if v[i].0 == *k {
            return Some(i);
        }
        i = i + 1;
    }
    None
}

} // verus!
