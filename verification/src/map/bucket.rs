//! One bucket of the map: a short list of entries, no key twice.

use vstd::prelude::*;
use crate::order::exact_eq;

verus! {

/// Some entry of `s` has the key `k`.
pub open spec fn has_key<K, V>(s: Seq<(K, V)>, k: K) -> bool {
    exists|i: int| 0 <= i < s.len() && (#[trigger] s[i]).0 == k
}

/// No two entries of `s` have the same key.
pub open spec fn distinct_keys<K, V>(s: Seq<(K, V)>) -> bool {
    forall|i: int, j: int| 0 <= i < j < s.len() ==> (#[trigger] s[i]).0 != (#[trigger] s[j]).0
}

/// The entries of `s` as a map from key to value.
pub open spec fn entries_map<K, V>(s: Seq<(K, V)>) -> Map<K, V> {
    Map::new(
        |k: K| has_key(s, k),
        |k: K| s[choose|i: int| 0 <= i < s.len() && (#[trigger] s[i]).0 == k].1,
    )
}

/// Every entry of a list with distinct keys is what the map has for its key.
pub proof fn lemma_entry<K, V>(s: Seq<(K, V)>, i: int)
    requires
        distinct_keys(s),
        0 <= i < s.len(),
    ensures
        entries_map(s).contains_key(s[i].0),
        entries_map(s)[s[i].0] == s[i].1,
{
    let k = s[i].0;
    let j = choose|j: int| 0 <= j < s.len() && (#[trigger] s[j]).0 == k;
    assert(i == j);
}

/// An entry with a new key, put at the end, is an insertion into the map.
pub proof fn lemma_push<K, V>(s: Seq<(K, V)>, k: K, v: V)
    requires
        distinct_keys(s),
        !has_key(s, k),
    ensures
        distinct_keys(s.push((k, v))),
        entries_map(s.push((k, v))) == entries_map(s).insert(k, v),
{
    let t = s.push((k, v));
    assert(t[s.len() as int].0 == k);
    assert forall|x: K| has_key(t, x) <==> (x == k || has_key(s, x)) by {
        if has_key(t, x) {
            let i = choose|i: int| 0 <= i < t.len() && (#[trigger] t[i]).0 == x;
            if i < s.len() {
                assert(s[i].0 == x);
            }
        }
        if has_key(s, x) {
            let i = choose|i: int| 0 <= i < s.len() && (#[trigger] s[i]).0 == x;
            assert(t[i].0 == x);
        }
    }
    assert forall|x: K| has_key(t, x) implies entries_map(t)[x] == entries_map(s).insert(k, v)[x] by {
        let i = choose|i: int| 0 <= i < t.len() && (#[trigger] t[i]).0 == x;
        lemma_entry(t, i);
        if i < s.len() {
            assert(s[i].0 == x);
            lemma_entry(s, i);
        }
    }
    assert(entries_map(t) =~= entries_map(s).insert(k, v));
}

/// A new value in the entry of a key is an insertion into the map.
pub proof fn lemma_update<K, V>(s: Seq<(K, V)>, i: int, v: V)
    requires
        distinct_keys(s),
        0 <= i < s.len(),
    ensures
        distinct_keys(s.update(i, (s[i].0, v))),
        entries_map(s.update(i, (s[i].0, v))) == entries_map(s).insert(s[i].0, v),
{
    let k = s[i].0;
    let t = s.update(i, (k, v));
    assert forall|a: int, b: int| 0 <= a < b < t.len() implies (#[trigger] t[a]).0 != (
    #[trigger] t[b]).0 by {
        assert(t[a].0 == s[a].0 && t[b].0 == s[b].0);
    }
    assert forall|x: K| has_key(t, x) <==> has_key(s, x) by {
        if has_key(t, x) {
            let j = choose|j: int| 0 <= j < t.len() && (#[trigger] t[j]).0 == x;
            assert(s[j].0 == x);
        }
        if has_key(s, x) {
            let j = choose|j: int| 0 <= j < s.len() && (#[trigger] s[j]).0 == x;
            assert(t[j].0 == x);
        }
    }
    assert(has_key(s, k));
    assert forall|x: K| has_key(t, x) implies entries_map(t)[x] == entries_map(s).insert(k, v)[x] by {
        let j = choose|j: int| 0 <= j < t.len() && (#[trigger] t[j]).0 == x;
        lemma_entry(t, j);
        assert(s[j].0 == x);
        lemma_entry(s, j);
    }
    assert(entries_map(t) =~= entries_map(s).insert(k, v));
}

/// An entry taken out is a removal of its key from the map.
pub proof fn lemma_remove<K, V>(s: Seq<(K, V)>, i: int)
    requires
        distinct_keys(s),
        0 <= i < s.len(),
    ensures
        distinct_keys(s.remove(i)),
        entries_map(s.remove(i)) == entries_map(s).remove(s[i].0),
{
    let k = s[i].0;
    let t = s.remove(i);
    assert forall|a: int, b: int| 0 <= a < b < t.len() implies (#[trigger] t[a]).0 != (
    #[trigger] t[b]).0 by {
        let a0 = if a < i { a } else { a + 1 };
        let b0 = if b < i { b } else { b + 1 };
        assert(t[a] == s[a0] && t[b] == s[b0]);
    }
    assert forall|x: K| has_key(t, x) <==> (x != k && has_key(s, x)) by {
        if has_key(t, x) {
            let j = choose|j: int| 0 <= j < t.len() && (#[trigger] t[j]).0 == x;
            let j0 = if j < i { j } else { j + 1 };
            assert(s[j0].0 == x);
        }
        if x != k && has_key(s, x) {
            let j = choose|j: int| 0 <= j < s.len() && (#[trigger] s[j]).0 == x;
            let j1 = if j < i { j } else { j - 1 };
            assert(t[j1].0 == x);
        }
    }
    assert forall|x: K| has_key(t, x) implies entries_map(t)[x] == entries_map(s).remove(k)[x] by {
        let j = choose|j: int| 0 <= j < t.len() && (#[trigger] t[j]).0 == x;
        lemma_entry(t, j);
        let j0 = if j < i { j } else { j + 1 };
        assert(s[j0].0 == x);
        lemma_entry(s, j0);
    }
    assert(entries_map(t) =~= entries_map(s).remove(k));
}

/// A list with distinct keys has as many entries as its map has keys.
pub proof fn lemma_len<K, V>(s: Seq<(K, V)>)
    requires
        distinct_keys(s),
    ensures
        entries_map(s).dom().finite(),
        entries_map(s).dom().len() == s.len(),
    decreases s.len(),
{
    if s.len() == 0 {
        assert(entries_map(s).dom() =~= Set::<K>::empty());
    } else {
        let t = s.drop_last();
        let e = s.last();
        assert forall|a: int, b: int| 0 <= a < b < t.len() implies (#[trigger] t[a]).0 != (
        #[trigger] t[b]).0 by {
            assert(t[a] == s[a] && t[b] == s[b]);
        }
        lemma_len(t);
        assert(!has_key(t, e.0)) by {
            if has_key(t, e.0) {
                let j = choose|j: int| 0 <= j < t.len() && (#[trigger] t[j]).0 == e.0;
                assert(s[j].0 == s[s.len() - 1].0);
            }
        }
        assert(t.push((e.0, e.1)) =~= s);
        lemma_push(t, e.0, e.1);
        assert(entries_map(s).dom() =~= entries_map(t).dom().insert(e.0));
    }
}

/// A bucket: the entries whose keys hash to one place. It holds at most one
/// entry for a key.
pub struct Bucket<K: PartialEq, V> {
    entries: Vec<(K, V)>,
}

impl<K: PartialEq, V> View for Bucket<K, V> {
    type V = Map<K, V>;

    /// The bucket as a map from key to value.
    closed spec fn view(&self) -> Map<K, V> {
        entries_map(self.entries@)
    }
}

impl<K: PartialEq, V> Bucket<K, V> {
    #[verifier::type_invariant]
    spec fn inv(self) -> bool {
        exact_eq::<K>() ==> distinct_keys(self.entries@)
    }

    /// The number of entries in the bucket.
    pub closed spec fn spec_len(self) -> nat {
        self.entries@.len()
    }

    /// An empty bucket.
    pub fn new() -> (bucket: Self)
        ensures
            bucket@ == Map::<K, V>::empty(),
            bucket.spec_len() == 0,
    {
        let bucket = Bucket { entries: Vec::new() };
        assert(bucket@ =~= Map::<K, V>::empty());
        bucket
    }

    /// The number of entries, which is the number of keys.
    pub fn len(&self) -> (n: usize)
        ensures
            n == self.spec_len(),
            exact_eq::<K>() ==> self@.dom().finite() && n == self@.dom().len(),
    {
        proof {
            use_type_invariant(self);
            if exact_eq::<K>() {
                lemma_len(self.entries@);
            }
        }
        self.entries.len()
    }

    /// The place of the entry for `key`.
    fn find(&self, key: &K) -> (place: Option<usize>)
        ensures
            place matches Some(i) ==> i < self.entries@.len(),
            exact_eq::<K>() ==> match place {
                Some(i) => self.entries@[i as int].0 == *key,
                None => !has_key(self.entries@, *key),
            },
    {
        let mut i: usize = 0;
        while i < self.entries.len()
            invariant
                i <= self.entries@.len(),
                exact_eq::<K>() ==> forall|j: int|
                    0 <= j < i ==> (#[trigger] self.entries@[j]).0 != *key,
            decreases self.entries@.len() - i,
        {
            if self.entries[i].0 == *key {
                return Some(i);
            }
            i = i + 1;
        }
        None
    }

    /// The value that the bucket has for `key`.
    pub fn get(&self, key: &K) -> (value: Option<&V>)
        ensures
            exact_eq::<K>() ==> match value {
                Some(v) => self@.contains_key(*key) && self@[*key] == *v,
                None => !self@.contains_key(*key),
            },
    {
        proof {
            use_type_invariant(self);
        }
        match self.find(key) {
            Some(i) => {
                proof {
                    if exact_eq::<K>() {
                        lemma_entry(self.entries@, i as int);
                    }
                }
                Some(&self.entries[i].1)
            },
            None => None,
        }
    }

    /// Whether the bucket has an entry for `key`.
    pub fn contains(&self, key: &K) -> (found: bool)
        ensures
            exact_eq::<K>() ==> found == self@.contains_key(*key),
    {
        self.get(key).is_some()
    }

    /// Gives `key` the value `value`: the entry for `key` gets the new value,
    /// or a new entry is made when there is none. Returns whether the bucket
    /// grew. What is said of the map holds where `==` on keys is identity.
    pub fn put(&mut self, key: K, value: V) -> (grew: bool)
        ensures
            exact_eq::<K>() ==> final(self)@ == old(self)@.insert(key, value),
            exact_eq::<K>() ==> grew == !old(self)@.contains_key(key),
            final(self).spec_len() == old(self).spec_len() + if grew { 1int } else { 0 },
            final(self).spec_len() >= 1,
    {
        proof {
            use_type_invariant(&*self);
        }
        let place = self.find(&key);
        let mut entries = Vec::new();
        std::mem::swap(&mut self.entries, &mut entries);
        let grew = match place {
            Some(i) => {
                proof {
                    if exact_eq::<K>() {
                        lemma_entry(entries@, i as int);
                        lemma_update(entries@, i as int, value);
                    }
                }
                entries[i] = (key, value);
                false
            },
            None => {
                proof {
                    if exact_eq::<K>() {
                        lemma_push(entries@, key, value);
                    }
                }
                entries.push((key, value));
                true
            },
        };
        self.entries = entries;
        grew
    }

    /// Takes the entry for `key` out of the bucket. Returns whether there
    /// was one. What is said of the map holds where `==` on keys is identity.
    pub fn remove(&mut self, key: &K) -> (found: bool)
        ensures
            exact_eq::<K>() ==> final(self)@ == old(self)@.remove(*key),
            exact_eq::<K>() ==> found == old(self)@.contains_key(*key),
            final(self).spec_len() == old(self).spec_len() - if found { 1int } else { 0 },
    {
        proof {
            use_type_invariant(&*self);
        }
        match self.find(key) {
            Some(i) => {
                let mut entries = Vec::new();
                std::mem::swap(&mut self.entries, &mut entries);
                proof {
                    if exact_eq::<K>() {
                        lemma_entry(entries@, i as int);
                        lemma_remove(entries@, i as int);
                    }
                }
                entries.remove(i);
                self.entries = entries;
                true
            },
            None => {
                assert(exact_eq::<K>() ==> self@.remove(*key) =~= self@);
                false
            },
        }
    }

    /// Takes all entries out of the bucket, in the order in which it held
    /// them, and leaves it empty.
    pub fn take_all(&mut self) -> (entries: Vec<(K, V)>)
        ensures
            final(self)@ == Map::<K, V>::empty(),
            final(self).spec_len() == 0,
            entries@.len() == old(self).spec_len(),
            exact_eq::<K>() ==> distinct_keys(entries@),
            entries_map(entries@) == old(self)@,
    {
        proof {
            use_type_invariant(&*self);
        }
        let mut entries = Vec::new();
        std::mem::swap(&mut self.entries, &mut entries);
        assert(self@ =~= Map::<K, V>::empty());
        entries
    }
}

} // verus!
