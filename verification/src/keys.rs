//! Keys: what is asked of a key type, and how a list of keys loses its
//! repetitions.
use vstd::prelude::*;
use vstd::laws_eq::obeys_concrete_eq;
use vstd::std_specs::hash::obeys_key_model;
use std::hash::Hash;

verus! {

/// What the engine asks of a key type: `==` decides whether two keys are the
/// same value, and hashing agrees with it.
pub open spec fn obeys_key_laws<K: Eq + Hash>() -> bool {
    &&& obeys_concrete_eq::<K>()
    &&& obeys_key_model::<K>()
}

/// The keys of `keys` in the order of their first occurrence, each once.
pub open spec fn unique<K>(keys: Seq<K>) -> Seq<K>
    decreases keys.len(),
{
    if keys.len() == 0 {
        Seq::empty()
    } else {
        let before = unique(keys.drop_last());
        if before.contains(keys.last()) {
            before
        } else {
            before.push(keys.last())
        }
    }
}

/// `unique` holds exactly the keys of its argument, none of them twice, and
/// is no longer than its argument.
pub proof fn lemma_unique<K>(keys: Seq<K>)
    ensures
        unique(keys).no_duplicates(),
        unique(keys).len() <= keys.len(),
        forall|k: K| unique(keys).contains(k) <==> keys.contains(k),
    decreases keys.len(),
{
    if keys.len() > 0 {
        let front = keys.drop_last();
        let before = unique(front);
        let all = unique(keys);
        lemma_unique(front);
        assert forall|k: K| all.contains(k) <==> keys.contains(k) by {
            if keys.contains(k) {
                let i = choose|i: int| 0 <= i < keys.len() && keys[i] == k;
                if i < keys.len() - 1 {
                    assert(front[i] == k);
                    assert(front.contains(k));
                    assert(before.contains(k));
                    let j = choose|j: int| 0 <= j < before.len() && before[j] == k;
                    assert(all[j] == k);
                } else if before.contains(k) {
                    assert(all.contains(k));
                } else {
                    assert(all[before.len() as int] == k);
                }
            }
            if all.contains(k) {
                let j = choose|j: int| 0 <= j < all.len() && all[j] == k;
                if j < before.len() {
                    assert(before[j] == k);
                    assert(before.contains(k));
                    assert(front.contains(k));
                    let i = choose|i: int| 0 <= i < front.len() && front[i] == k;
                    assert(keys[i] == k);
                } else {
                    assert(keys[keys.len() - 1] == k);
                }
            }
        }
    }
}

/// Where `key` stands in `keys`, if it stands there.
pub fn position<K: Eq + Hash>(keys: &Vec<K>, key: &K) -> (found: Option<usize>)
    requires
        obeys_key_laws::<K>(),
    ensures
        match found {
            Some(i) => i < keys.len() && keys[i as int] == *key && forall|j: int|
                0 <= j < i ==> keys[j] != *key,
            None => !keys@.contains(*key),
        },
{
    let mut i: usize = 0;
    while i < keys.len()
        invariant
            i <= keys.len(),
            obeys_concrete_eq::<K>(),
            forall|j: int| 0 <= j < i ==> keys[j] != *key,
        decreases keys.len() - i,
    {
        proof {
            reveal(obeys_concrete_eq);
        }
        if keys[i] == *key {
            return Some(i);
        }
        i += 1;
    }
    None
}

/// A clone of a key is the same key.
pub open spec fn obeys_clone_laws<K: Clone>() -> bool {
    forall|key: K, copy: K| #[trigger] cloned(key, copy) ==> key == copy
}

} // verus!
