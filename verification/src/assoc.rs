//! Account-keyed association lists: the storage shape shared by the ledger
//! and the ownership index, with the lemmas that relate their updates to
//! lookup results.

use vstd::prelude::*;

verus! {

/// The first value stored under `key`, searching from the front.
pub open spec fn assoc_get<V>(s: Seq<(u64, V)>, key: u64) -> Option<V>
    decreases s.len(),
{
    if s.len() == 0 {
        None
    } else if s[0].0 == key {
        Some(s[0].1)
    } else {
        assoc_get(s.drop_first(), key)
    }
}

/// No key appears twice.
pub open spec fn keys_unique<V>(s: Seq<(u64, V)>) -> bool {
    forall|i: int, j: int| 0 <= i < j < s.len() ==> (#[trigger] s[i].0) != (#[trigger] s[j].0)
}

/// Dropping the first entry keeps the keys unique.
pub proof fn lemma_keys_unique_drop_first<V>(s: Seq<(u64, V)>)
    requires
        keys_unique(s),
        s.len() > 0,
    ensures
        keys_unique(s.drop_first()),
{
    assert forall|i: int, j: int| 0 <= i < j < s.drop_first().len() implies
        (#[trigger] s.drop_first()[i].0) != (#[trigger] s.drop_first()[j].0) by {
        assert(s.drop_first()[i] == s[i + 1]);
        assert(s.drop_first()[j] == s[j + 1]);
    }
}

/// Under unique keys, the entry at any index is the one lookup finds.
pub proof fn lemma_assoc_get_at<V>(s: Seq<(u64, V)>, i: int)
    requires
        keys_unique(s),
        0 <= i < s.len(),
    ensures
        assoc_get(s, s[i].0) == Some(s[i].1),
    decreases s.len(),
{
    if i > 0 {
        lemma_keys_unique_drop_first(s);
        assert(s.drop_first()[i - 1] == s[i]);
        lemma_assoc_get_at(s.drop_first(), i - 1);
        assert(s[0].0 != s[i].0);
    }
}

/// A key at no index is found at none.
pub proof fn lemma_assoc_get_absent<V>(s: Seq<(u64, V)>, key: u64)
    requires
        forall|i: int| 0 <= i < s.len() ==> (#[trigger] s[i].0) != key,
    ensures
        assoc_get(s, key) is None,
    decreases s.len(),
{
    if s.len() > 0 {
        assert forall|i: int| 0 <= i < s.drop_first().len() implies
            (#[trigger] s.drop_first()[i].0) != key by {
            assert(s.drop_first()[i] == s[i + 1]);
        }
        lemma_assoc_get_absent(s.drop_first(), key);
    }
}

/// Replacing the value at one index changes lookup only for that entry's key.
pub proof fn lemma_assoc_get_update<V>(s: Seq<(u64, V)>, i: int, v: V, key: u64)
    requires
        keys_unique(s),
        0 <= i < s.len(),
    ensures
        assoc_get(s.update(i, (s[i].0, v)), key) == (if key == s[i].0 {
            Some(v)
        } else {
            assoc_get(s, key)
        }),
        keys_unique(s.update(i, (s[i].0, v))),
    decreases s.len(),
{
    let s2 = s.update(i, (s[i].0, v));
    assert forall|p: int, q: int| 0 <= p < q < s2.len() implies
        (#[trigger] s2[p].0) != (#[trigger] s2[q].0) by {
        assert(s2[p].0 == s[p].0);
        assert(s2[q].0 == s[q].0);
    }
    if i == 0 {
        if key != s[0].0 {
            assert(s2.drop_first() =~= s.drop_first());
        }
    } else {
        lemma_keys_unique_drop_first(s);
        assert(s2.drop_first() =~= s.drop_first().update(i - 1, (s.drop_first()[i - 1].0, v)));
        lemma_assoc_get_update(s.drop_first(), i - 1, v, key);
        assert(s2[0] == s[0]);
    }
}

/// Appending an entry under a fresh key changes lookup only for that key.
pub proof fn lemma_assoc_get_push<V>(s: Seq<(u64, V)>, k2: u64, v: V, key: u64)
    requires
        forall|i: int| 0 <= i < s.len() ==> (#[trigger] s[i].0) != k2,
    ensures
        assoc_get(s.push((k2, v)), key) == (if key == k2 {
            Some(v)
        } else {
            assoc_get(s, key)
        }),
        keys_unique(s) ==> keys_unique(s.push((k2, v))),
    decreases s.len(),
{
    let s2 = s.push((k2, v));
    if s.len() == 0 {
        if key != k2 {
            assert(assoc_get(s, key) is None);
        }
    } else {
        assert(s2.drop_first() =~= s.drop_first().push((k2, v)));
        assert forall|i: int| 0 <= i < s.drop_first().len() implies
            (#[trigger] s.drop_first()[i].0) != k2 by {
            assert(s.drop_first()[i] == s[i + 1]);
        }
        lemma_assoc_get_push(s.drop_first(), k2, v, key);
        assert(s2[0] == s[0]);
    }
    if keys_unique(s) {
        assert forall|p: int, q: int| 0 <= p < q < s2.len() implies
            (#[trigger] s2[p].0) != (#[trigger] s2[q].0) by {
            if q < s.len() {
                assert(s2[p].0 == s[p].0);
                assert(s2[q].0 == s[q].0);
            } else {
                assert(s2[p].0 == s[p].0);
                assert(s2[q].0 == k2);
            }
        }
    }
}

/// A successful lookup has a backing index.
pub proof fn lemma_assoc_get_some_index<V>(s: Seq<(u64, V)>, key: u64)
    requires
        assoc_get(s, key) is Some,
    ensures
        exists|i: int| 0 <= i < s.len() && (#[trigger] s[i].0) == key
            && Some(s[i].1) == assoc_get(s, key),
    decreases s.len(),
{
    if s.len() > 0 {
        if s[0].0 == key {
            assert(s[0].0 == key && Some(s[0].1) == assoc_get(s, key));
        } else {
            lemma_assoc_get_some_index(s.drop_first(), key);
            let i = choose|i: int| 0 <= i < s.drop_first().len()
                && (#[trigger] s.drop_first()[i].0) == key
                && Some(s.drop_first()[i].1) == assoc_get(s.drop_first(), key);
            assert(s[i + 1] == s.drop_first()[i]);
            assert(s[i + 1].0 == key && Some(s[i + 1].1) == assoc_get(s, key));
        }
    }
}

/// Finds the index holding `key`, if any.
pub fn find_key<V>(v: &Vec<(u64, V)>, key: u64) -> (r: Option<usize>)
    ensures
        match r {
            Some(i) => i < v@.len() && v@[i as int].0 == key,
            None => forall|i: int| 0 <= i < v@.len() ==> (#[trigger] v@[i].0) != key,
        },
{
    let mut i: usize = 0;
    while i < v.len()
        invariant
            i <= v@.len(),
            forall|j: int| 0 <= j < i ==> (#[trigger] v@[j].0) != key,
        decreases v@.len() - i,
    {
        if v[i].0 == key {
            return Some(i);
        }
        i += 1;
    }
    None
}

} // verus!
