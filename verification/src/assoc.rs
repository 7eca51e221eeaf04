//! Key/value pairs held in a vector with unique keys, viewed as a `Map`.
//!
//! Both the message index and the activity state keep small maps keyed by
//! 64-bit identifiers. They are represented as vectors of pairs so that the
//! entries have a definite order, which the sampling code relies on.

use vstd::prelude::*;

verus! {

/// Whether some pair in `s` has key `k`.
pub open spec fn has_key<V>(s: Seq<(u64, V)>, k: u64) -> bool {
    exists|i: int| 0 <= i < s.len() && (#[trigger] s[i]).0 == k
}

/// The index of the pair with key `k` (meaningful when the keys are unique).
pub open spec fn key_at<V>(s: Seq<(u64, V)>, k: u64) -> int {
    choose|i: int| 0 <= i < s.len() && (#[trigger] s[i]).0 == k
}

/// The value stored under key `k`.
pub open spec fn value_of<V>(s: Seq<(u64, V)>, k: u64) -> V {
    s[key_at(s, k)].1
}

/// No two pairs share a key.
pub open spec fn unique_keys<V>(s: Seq<(u64, V)>) -> bool {
    forall|i: int, j: int|
        0 <= i < s.len() && 0 <= j < s.len() && i != j ==> (#[trigger] s[i]).0 != (#[trigger] s[j]).0
}

/// The pairs read as a map from keys to values.
pub open spec fn map_of<V>(s: Seq<(u64, V)>) -> Map<u64, V> {
    Map::new(|k: u64| has_key(s, k), |k: u64| value_of(s, k))
}

/// With unique keys, the pair at a position with key `k` is the one that
/// `key_at` finds.
pub proof fn lemma_key_at_unique<V>(s: Seq<(u64, V)>, k: u64, i: int)
    requires
        unique_keys(s),
        0 <= i < s.len(),
        s[i].0 == k,
    ensures
        has_key(s, k),
        key_at(s, k) == i,
        value_of(s, k) == s[i].1,
{
    assert(has_key(s, k));
    let j = key_at(s, k);
    assert(0 <= j < s.len() && s[j].0 == k);
}

/// Updating the value at an existing key leaves a map with that key rebound.
pub proof fn lemma_update_value<V>(s: Seq<(u64, V)>, i: int, k: u64, v: V)
    requires
        unique_keys(s),
        0 <= i < s.len(),
        s[i].0 == k,
    ensures
        unique_keys(s.update(i, (k, v))),
        map_of(s.update(i, (k, v))) == map_of(s).insert(k, v),
{
    let s2 = s.update(i, (k, v));
    assert forall|j: int| 0 <= j < s2.len() implies (#[trigger] s2[j]).0 == s[j].0 by {
        if j == i {
        }
    }
    assert(unique_keys(s2));
    assert forall|k2: u64| #[trigger] has_key(s2, k2) == has_key(s, k2) by {
        if has_key(s2, k2) {
            let w = choose|w: int| 0 <= w < s2.len() && (#[trigger] s2[w]).0 == k2;
            assert(s[w].0 == k2);
        }
        if has_key(s, k2) {
            let w = choose|w: int| 0 <= w < s.len() && (#[trigger] s[w]).0 == k2;
            assert(s2[w].0 == k2);
        }
    }
    assert forall|k2: u64| has_key(s, k2) implies #[trigger] value_of(s2, k2) == (if k2 == k {
        v
    } else {
        value_of(s, k2)
    }) by {
        if k2 == k {
            lemma_key_at_unique(s2, k, i);
        } else {
            let w = key_at(s, k2);
            assert(0 <= w < s.len() && s[w].0 == k2);
            assert(w != i);
            lemma_key_at_unique(s2, k2, w);
            lemma_key_at_unique(s, k2, w);
        }
    }
    lemma_key_at_unique(s, k, i);
    lemma_key_at_unique(s2, k, i);
    assert(map_of(s2) =~= map_of(s).insert(k, v));
}

/// Appending a pair with a fresh key extends the map by that binding.
pub proof fn lemma_push_new<V>(s: Seq<(u64, V)>, k: u64, v: V)
    requires
        unique_keys(s),
        !has_key(s, k),
    ensures
        unique_keys(s.push((k, v))),
        map_of(s.push((k, v))) == map_of(s).insert(k, v),
{
    let s2 = s.push((k, v));
    assert forall|j: int| 0 <= j < s.len() implies (#[trigger] s2[j]) == s[j] by {}
    assert(s2[s.len() as int].0 == k);
    assert forall|i: int, j: int|
        0 <= i < s2.len() && 0 <= j < s2.len() && i != j implies (#[trigger] s2[i]).0 != (
    #[trigger] s2[j]).0 by {
        if i < s.len() && j < s.len() {
        } else if i == s.len() {
            assert(s2[j].0 == s[j].0);
        } else {
            assert(s2[i].0 == s[i].0);
        }
    }
    assert forall|k2: u64| #[trigger] has_key(s2, k2) == (k2 == k || has_key(s, k2)) by {
        if has_key(s2, k2) && k2 != k {
            let w = choose|w: int| 0 <= w < s2.len() && (#[trigger] s2[w]).0 == k2;
            assert(w != s.len());
            assert(s[w].0 == k2);
        }
        if has_key(s, k2) {
            let w = choose|w: int| 0 <= w < s.len() && (#[trigger] s[w]).0 == k2;
            assert(s2[w].0 == k2);
        }
        if k2 == k {
            assert(s2[s.len() as int].0 == k2);
        }
    }
    assert forall|k2: u64| has_key(s2, k2) implies #[trigger] value_of(s2, k2) == (if k2 == k {
        v
    } else {
        value_of(s, k2)
    }) by {
        if k2 == k {
            lemma_key_at_unique(s2, k, s.len() as int);
        } else {
            let w = key_at(s, k2);
            assert(0 <= w < s.len() && s[w].0 == k2);
            lemma_key_at_unique(s2, k2, w);
            lemma_key_at_unique(s, k2, w);
        }
    }
    assert(map_of(s2) =~= map_of(s).insert(k, v));
}

/// Removing the pair at a position deletes exactly its key from the map.
pub proof fn lemma_remove_at<V>(s: Seq<(u64, V)>, i: int)
    requires
        unique_keys(s),
        0 <= i < s.len(),
    ensures
        unique_keys(s.remove(i)),
        map_of(s.remove(i)) == map_of(s).remove(s[i].0),
        forall|k2: u64| #[trigger] has_key(s.remove(i), k2) == (k2 != s[i].0 && has_key(s, k2)),
        forall|k2: u64|
            has_key(s.remove(i), k2) ==> #[trigger] value_of(s.remove(i), k2) == value_of(s, k2),
{
    let k = s[i].0;
    let s2 = s.remove(i);
    assert forall|j: int| 0 <= j < s2.len() implies (#[trigger] s2[j]) == (if j < i {
        s[j]
    } else {
        s[j + 1]
    }) by {}
    assert forall|a: int, b: int|
        0 <= a < s2.len() && 0 <= b < s2.len() && a != b implies (#[trigger] s2[a]).0 != (
    #[trigger] s2[b]).0 by {
        let a0 = if a < i { a } else { a + 1 };
        let b0 = if b < i { b } else { b + 1 };
        assert(s2[a] == s[a0] && s2[b] == s[b0] && a0 != b0);
    }
    assert forall|k2: u64| #[trigger] has_key(s2, k2) == (k2 != k && has_key(s, k2)) by {
        if has_key(s2, k2) {
            let w = choose|w: int| 0 <= w < s2.len() && (#[trigger] s2[w]).0 == k2;
            let w0 = if w < i { w } else { w + 1 };
            assert(s[w0].0 == k2);
            assert(w0 != i);
            assert(k2 != k);
        }
        if has_key(s, k2) && k2 != k {
            let w = choose|w: int| 0 <= w < s.len() && (#[trigger] s[w]).0 == k2;
            assert(w != i);
            if w < i {
                assert(s2[w].0 == k2);
            } else {
                assert(s2[w - 1].0 == k2);
            }
        }
    }
    assert forall|k2: u64| has_key(s2, k2) implies #[trigger] value_of(s2, k2) == value_of(s, k2) by {
        let w = key_at(s, k2);
        assert(0 <= w < s.len() && s[w].0 == k2);
        assert(w != i);
        if w < i {
            lemma_key_at_unique(s2, k2, w);
        } else {
            lemma_key_at_unique(s2, k2, w - 1);
        }
        lemma_key_at_unique(s, k2, w);
    }
    assert(map_of(s2) =~= map_of(s).remove(k));
}

/// Find the position of the pair with the given key, if any.
pub fn find_key<V>(pairs: &Vec<(u64, V)>, key: u64) -> (r: Option<usize>)
    ensures
        match r {
            Some(i) => i < pairs@.len() && pairs@[i as int].0 == key,
            None => !has_key(pairs@, key),
        },
{
    let n = pairs.len();
    for i in 0..n
        invariant
            n == pairs@.len(),
            forall|j: int| 0 <= j < i ==> (#[trigger] pairs@[j]).0 != key,
    {
        if pairs[i].0 == key {
            return Some(i);
        }
    }
    None
}

/// Bind `key` to `value`, replacing any previous binding.
pub fn set_key<V>(pairs: &mut Vec<(u64, V)>, key: u64, value: V)
    requires
        unique_keys(old(pairs)@),
    ensures
        unique_keys(final(pairs)@),
        map_of(final(pairs)@) == map_of(old(pairs)@).insert(key, value),
{
    let found = find_key(pairs, key);
    match found {
        Some(i) => {
            proof {
                lemma_update_value(pairs@, i as int, key, value);
            }
            pairs[i] = (key, value);
        }
        None => {
            proof {
                lemma_push_new(pairs@, key, value);
            }
            pairs.push((key, value));
        }
    }
}

/// Drop the binding for `key`, returning the value it had.
pub fn remove_key<V>(pairs: &mut Vec<(u64, V)>, key: u64) -> (r: Option<V>)
    requires
        unique_keys(old(pairs)@),
    ensures
        unique_keys(final(pairs)@),
        map_of(final(pairs)@) == map_of(old(pairs)@).remove(key),
        match r {
            Some(v) => has_key(old(pairs)@, key) && v == value_of(old(pairs)@, key),
            None => !has_key(old(pairs)@, key) && final(pairs)@ == old(pairs)@,
        },
{
    let found = find_key(pairs, key);
    match found {
        Some(i) => {
            proof {
                lemma_remove_at(pairs@, i as int);
                lemma_key_at_unique(pairs@, key, i as int);
            }
            let pair = pairs.remove(i);
            Some(pair.1)
        }
        None => {
            proof {
                assert(map_of(pairs@) =~= map_of(pairs@).remove(key));
            }
            None
        }
    }
}

/// Whether all keys in the vector are distinct; quadratic, used only when a
/// snapshot is loaded.
pub fn check_unique_keys<V>(pairs: &Vec<(u64, V)>) -> (r: bool)
    ensures
        r == unique_keys(pairs@),
{
    let n = pairs.len();
    for i in 0..n
        invariant
            n == pairs@.len(),
            forall|a: int, b: int|
                0 <= a < i && 0 <= b < pairs@.len() && a != b ==> (#[trigger] pairs@[a]).0 != (
                #[trigger] pairs@[b]).0,
    {
        for j in i + 1..n
            invariant
                n == pairs@.len(),
                i < n,
                forall|a: int, b: int|
                    0 <= a < i && 0 <= b < pairs@.len() && a != b ==> (#[trigger] pairs@[a]).0 != (
                    #[trigger] pairs@[b]).0,
                forall|b: int| i < b < j ==> (#[trigger] pairs@[b]).0 != pairs@[i as int].0,
        {
            if pairs[i].0 == pairs[j].0 {
                return false;
            }
        }
    }
    true
}

} // verus!
