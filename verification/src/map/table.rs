//! The bucket array of the map: where a key goes, when the array grows, and
//! what growing does to the entries.
//!
//! Hashes come from outside and are taken as given. The functions here work
//! for any hash values; the laws at the end say what follows when the hash is
//! a function of the key.

use vstd::prelude::*;
use crate::map::bucket::{distinct_keys, entries_map, has_key, lemma_entry, Bucket};
use crate::order::exact_eq;

verus! {

/// The bucket for a hash in an array of `n` buckets.
pub open spec fn slot_of(h: u64, n: nat) -> int {
    (h as int) % (n as int)
}

/// The bucket for the hash `h` in an array of `n` buckets: `h` modulo `n`.
pub fn bucket_index(h: u64, n: usize) -> (b: usize)
    requires
        n > 0,
    ensures
        b == slot_of(h, n as nat),
        b < n,
{
    (h % (n as u64)) as usize
}

/// When the bucket array is to grow.
#[derive(Clone, Copy, Debug, PartialEq, Eq, Structural)]
pub enum ResizePolicy {
    /// As soon as a bucket holds more entries than this.
    MaxBucketSize(usize),
    /// As soon as the buckets hold this many entries on average.
    MaxAvgBucketSize(usize),
}

/// Whether the policy asks for growth, given the size of the bucket that was
/// just written, the number of entries in all buckets, and the number of
/// buckets.
pub open spec fn wants_resize(policy: ResizePolicy, bucket_len: nat, total: nat, buckets: nat) -> bool {
    match policy {
        ResizePolicy::MaxBucketSize(max) => bucket_len > max,
        ResizePolicy::MaxAvgBucketSize(max) => (total as int) / (buckets as int) >= max,
    }
}

/// Whether the policy asks for growth.
pub fn should_resize(policy: ResizePolicy, bucket_len: usize, total: usize, buckets: usize) -> (grow:
    bool)
    requires
        buckets > 0,
    ensures
        grow == wants_resize(policy, bucket_len as nat, total as nat, buckets as nat),
{
    match policy {
        ResizePolicy::MaxBucketSize(max) => bucket_len > max,
        ResizePolicy::MaxAvgBucketSize(max) => total / buckets >= max,
    }
}

/// Twice `n`: the number of buckets after growth. `None` when the machine has
/// no such number.
pub fn doubled(n: usize) -> (m: Option<usize>)
    ensures
        match m {
            Some(m) => m == 2 * n,
            None => 2 * n > usize::MAX,
        },
{
    n.checked_mul(2)
}

/// The buckets of an array as maps.
pub open spec fn views<K: PartialEq, V>(buckets: Seq<Bucket<K, V>>) -> Seq<Map<K, V>> {
    Seq::new(buckets.len(), |b: int| buckets[b]@)
}

/// What a lookup of `k` under the hash `h` finds in the table `t`.
pub open spec fn table_get<K, V>(t: Seq<Map<K, V>>, h: u64, k: K) -> Option<V> {
    let bucket = t[slot_of(h, t.len())];
    if bucket.contains_key(k) {
        Some(bucket[k])
    } else {
        None
    }
}

/// The table `t` after `k` got the value `v` under the hash `h`.
pub open spec fn table_put<K, V>(t: Seq<Map<K, V>>, h: u64, k: K, v: V) -> Seq<Map<K, V>> {
    t.update(slot_of(h, t.len()), t[slot_of(h, t.len())].insert(k, v))
}

/// What a call saw of the bucket it worked on: which bucket it was, what the
/// bucket held when the call had its lock, and what it held when the call
/// let go.
#[verifier::reject_recursive_types(K)]
pub struct Visit<K, V> {
    pub bucket: int,
    pub before: Map<K, V>,
    pub after: Map<K, V>,
}

/// The entries from place `from` up to place `to`, without their hashes.
pub open spec fn segment<K, V>(entries: Seq<(u64, K, V)>, from: int, to: int) -> Seq<(K, V)> {
    Seq::new((to - from) as nat, |i: int| (entries[from + i].1, entries[from + i].2))
}

/// The entries are those of the buckets `seen`, bucket by bucket: the
/// entries between one cut and the next have each key once and are, as a
/// map, what that bucket held. So no entry is left out, none comes twice and
/// no value is changed.
pub open spec fn gathered<K, V>(
    entries: Seq<(u64, K, V)>,
    seen: Seq<Map<K, V>>,
    cuts: Seq<int>,
) -> bool {
    &&& cuts.len() == seen.len() + 1
    &&& cuts[0] == 0
    &&& cuts.last() == entries.len()
    &&& forall|b: int|
        0 <= b < seen.len() ==> {
            &&& 0 <= #[trigger] cuts[b] <= cuts[b + 1] <= entries.len()
            &&& distinct_keys(segment(entries, cuts[b], cuts[b + 1]))
            &&& entries_map(segment(entries, cuts[b], cuts[b + 1])) == seen[b]
        }
}

/// What growth saw and made: the maps of the old buckets, in their order, as
/// it emptied them; the entries it took out, each with the hash it was given;
/// where the entries of each bucket begin; and the maps of the new buckets.
#[verifier::reject_recursive_types(K)]
pub struct Growth<K, V> {
    pub before: Seq<Map<K, V>>,
    pub entries: Seq<(u64, K, V)>,
    pub cuts: Seq<int>,
    pub after: Seq<Map<K, V>>,
}

/// The table `t` after `k` was removed under the hash `h`.
pub open spec fn table_remove<K, V>(t: Seq<Map<K, V>>, h: u64, k: K) -> Seq<Map<K, V>> {
    t.update(slot_of(h, t.len()), t[slot_of(h, t.len())].remove(k))
}

/// The table that results from putting the entries, first to last, into `n`
/// empty buckets, each under the hash it comes with.
pub open spec fn placed<K, V>(entries: Seq<(u64, K, V)>, n: nat) -> Seq<Map<K, V>>
    decreases entries.len(),
{
    if entries.len() == 0 {
        Seq::new(n, |b: int| Map::empty())
    } else {
        let e = entries.last();
        table_put(placed(entries.drop_last(), n), e.0, e.1, e.2)
    }
}

/// Putting entries into a table keeps the number of buckets.
pub proof fn lemma_placed_len<K, V>(entries: Seq<(u64, K, V)>, n: nat)
    requires
        n > 0,
    ensures
        placed(entries, n).len() == n,
    decreases entries.len(),
{
    if entries.len() > 0 {
        lemma_placed_len(entries.drop_last(), n);
        lemma_slot_in_range(entries.last().0, n);
    }
}

/// Gives `key` the value `value` in the bucket that the hash `h` names, and
/// leaves the other buckets as they are. Where `==` on keys is identity, the
/// table is the old one after that put.
pub fn place<K: PartialEq, V>(buckets: &mut Vec<Bucket<K, V>>, h: u64, key: K, value: V)
    requires
        old(buckets)@.len() > 0,
    ensures
        final(buckets)@.len() == old(buckets)@.len(),
        forall|j: int|
            0 <= j < old(buckets)@.len() && j != slot_of(h, old(buckets)@.len())
                ==> final(buckets)@[j] == old(buckets)@[j],
        exact_eq::<K>() ==> views(final(buckets)@) == table_put(
            views(old(buckets)@),
            h,
            key,
            value,
        ),
{
    let b = bucket_index(h, buckets.len());
    buckets[b].put(key, value);
    assert(exact_eq::<K>() ==> views(buckets@) =~= table_put(
        views(old(buckets)@),
        h,
        key,
        value,
    ));
}

/// The values of `v` in the opposite order.
pub fn reversed<T>(v: Vec<T>) -> (r: Vec<T>)
    ensures
        r@.len() == v@.len(),
        forall|j: int| 0 <= j < r@.len() ==> r@[j] == v@[v@.len() - 1 - j],
{
    let ghost all = v@;
    let mut v = v;
    let mut r: Vec<T> = Vec::new();
    while v.len() > 0
        invariant
            r@.len() + v@.len() == all.len(),
            forall|j: int| 0 <= j < r@.len() ==> r@[j] == all[all.len() - 1 - j],
            v@ == all.take(v@.len() as int),
        decreases v@.len(),
    {
        let e = v.pop().unwrap();
        r.push(e);
    }
    r
}

/// A new array of `n` buckets that holds the entries, each in the bucket that
/// its hash names. Where two entries have the same key in the same bucket,
/// the later one stays. What is said of the buckets' contents holds where
/// `==` on keys is identity.
pub fn distribute<K: PartialEq, V>(entries: Vec<(u64, K, V)>, n: usize) -> (buckets: Vec<
    Bucket<K, V>,
>)
    requires
        n > 0,
    ensures
        buckets@.len() == n,
        exact_eq::<K>() ==> views(buckets@) == placed(entries@, n as nat),
{
    let mut buckets: Vec<Bucket<K, V>> = Vec::new();
    let mut b: usize = 0;
    while b < n
        invariant
            b <= n,
            buckets@.len() == b,
            forall|j: int| 0 <= j < b ==> (#[trigger] buckets@[j])@ == Map::<K, V>::empty(),
        decreases n - b,
    {
        buckets.push(Bucket::new());
        b = b + 1;
    }
    assert(views(buckets@) =~= placed(entries@.take(0), n as nat));
    let ghost all = entries@;
    let mut rest = reversed(entries);
    let ghost mut done: int = 0;
    while rest.len() > 0
        invariant
            n > 0,
            buckets@.len() == n,
            done + rest@.len() == all.len(),
            0 <= done,
            forall|j: int| 0 <= j < rest@.len() ==> rest@[j] == all[all.len() - 1 - j],
            exact_eq::<K>() ==> views(buckets@) == placed(all.take(done), n as nat),
        decreases rest@.len(),
    {
        let (h, key, value) = rest.pop().unwrap();
        proof {
            assert(all.take(done + 1).drop_last() =~= all.take(done));
            assert(all.take(done + 1).last() == (h, key, value));
        }
        place(&mut buckets, h, key, value);
        proof {
            done = done + 1;
        }
    }
    assert(all.take(all.len() as int) =~= all);
    buckets
}

/// Every key of the table sits in the bucket that the hash function `hf`
/// names for it.
pub open spec fn well_placed<K, V>(t: Seq<Map<K, V>>, hf: spec_fn(K) -> u64) -> bool {
    forall|b: int, k: K|
        0 <= b < t.len() && #[trigger] t[b].contains_key(k) ==> slot_of(hf(k), t.len()) == b
}

/// The table as one map, for lookups under the hash function `hf`.
pub open spec fn table_map<K, V>(t: Seq<Map<K, V>>, hf: spec_fn(K) -> u64) -> Map<K, V> {
    Map::new(
        |k: K| t[slot_of(hf(k), t.len())].contains_key(k),
        |k: K| t[slot_of(hf(k), t.len())][k],
    )
}

/// The entries as one map, later entries first in rank.
pub open spec fn listed<K, V>(entries: Seq<(u64, K, V)>) -> Map<K, V>
    decreases entries.len(),
{
    if entries.len() == 0 {
        Map::empty()
    } else {
        listed(entries.drop_last()).insert(entries.last().1, entries.last().2)
    }
}

/// Every entry comes with the hash that `hf` gives its key.
pub open spec fn hashed_by<K, V>(entries: Seq<(u64, K, V)>, hf: spec_fn(K) -> u64) -> bool {
    forall|i: int| 0 <= i < entries.len() ==> (#[trigger] entries[i]).0 == hf(entries[i].1)
}

/// A remainder is a bucket of the array.
pub proof fn lemma_slot_in_range(h: u64, n: nat)
    requires
        n > 0,
    ensures
        0 <= slot_of(h, n) < n,
{
}

/// A put under the key's hash is an insertion into the map that the table
/// stands for, and leaves every key in its bucket.
pub proof fn lemma_put_is_insert<K, V>(t: Seq<Map<K, V>>, hf: spec_fn(K) -> u64, k: K, v: V)
    requires
        t.len() > 0,
        well_placed(t, hf),
    ensures
        well_placed(table_put(t, hf(k), k, v), hf),
        table_map(table_put(t, hf(k), k, v), hf) == table_map(t, hf).insert(k, v),
        table_put(t, hf(k), k, v).len() == t.len(),
{
    let t2 = table_put(t, hf(k), k, v);
    lemma_slot_in_range(hf(k), t.len());
    assert forall|b: int, x: K| 0 <= b < t2.len() && #[trigger] t2[b].contains_key(x) implies slot_of(
        hf(x),
        t2.len(),
    ) == b by {
        if x != k {
            assert(t[b].contains_key(x));
        }
    }
    assert forall|x: K| #[trigger] table_map(t2, hf).contains_key(x) <==> table_map(t, hf).insert(
        k,
        v,
    ).contains_key(x) by {
        lemma_slot_in_range(hf(x), t.len());
    }
    assert forall|x: K| #[trigger] table_map(t2, hf).contains_key(x) implies table_map(t2, hf)[x]
        == table_map(t, hf).insert(k, v)[x] by {
        lemma_slot_in_range(hf(x), t.len());
    }
    assert(table_map(t2, hf) =~= table_map(t, hf).insert(k, v));
}

/// A removal under the key's hash is a removal from the map that the table
/// stands for.
pub proof fn lemma_remove_is_remove<K, V>(t: Seq<Map<K, V>>, hf: spec_fn(K) -> u64, k: K)
    requires
        t.len() > 0,
        well_placed(t, hf),
    ensures
        well_placed(table_remove(t, hf(k), k), hf),
        table_map(table_remove(t, hf(k), k), hf) == table_map(t, hf).remove(k),
{
    let t2 = table_remove(t, hf(k), k);
    lemma_slot_in_range(hf(k), t.len());
    assert forall|b: int, x: K| 0 <= b < t2.len() && #[trigger] t2[b].contains_key(x) implies slot_of(
        hf(x),
        t2.len(),
    ) == b by {
        assert(t[b].contains_key(x));
    }
    assert forall|x: K| #[trigger] table_map(t2, hf).contains_key(x) <==> table_map(t, hf).remove(
        k,
    ).contains_key(x) by {
        lemma_slot_in_range(hf(x), t.len());
    }
    assert forall|x: K| #[trigger] table_map(t2, hf).contains_key(x) implies table_map(t2, hf)[x]
        == table_map(t, hf).remove(k)[x] by {
        lemma_slot_in_range(hf(x), t.len());
    }
    assert(table_map(t2, hf) =~= table_map(t, hf).remove(k));
}

/// A lookup under the key's hash finds what the map has for the key.
pub proof fn lemma_get_is_lookup<K, V>(t: Seq<Map<K, V>>, hf: spec_fn(K) -> u64, k: K)
    requires
        t.len() > 0,
    ensures
        table_get(t, hf(k), k) == (if table_map(t, hf).contains_key(k) {
            Some(table_map(t, hf)[k])
        } else {
            None
        }),
{
}

/// Key uniqueness: after `k` was put twice, a lookup yields the second value,
/// and the table holds one entry for `k`: the second put made no new entry,
/// and no bucket but the one that the hash names has the key.
pub proof fn lemma_put_twice<K, V>(t: Seq<Map<K, V>>, hf: spec_fn(K) -> u64, k: K, v1: V, v2: V)
    requires
        t.len() > 0,
        well_placed(t, hf),
    ensures
        ({
            let t1 = table_put(t, hf(k), k, v1);
            let t2 = table_put(t1, hf(k), k, v2);
            &&& table_get(t2, hf(k), k) == Some(v2)
            &&& table_map(t2, hf) == table_map(t, hf).insert(k, v2)
            &&& forall|b: int| 0 <= b < t2.len() ==> (#[trigger] t2[b]).dom() == t1[b].dom()
            &&& forall|b: int|
                0 <= b < t2.len() ==> ((#[trigger] t2[b]).contains_key(k) <==> b == slot_of(
                    hf(k),
                    t.len(),
                ))
        }),
{
    let t1 = table_put(t, hf(k), k, v1);
    let t2 = table_put(t1, hf(k), k, v2);
    lemma_slot_in_range(hf(k), t.len());
    lemma_put_is_insert(t, hf, k, v1);
    lemma_put_is_insert(t1, hf, k, v2);
    assert(table_map(t, hf).insert(k, v1).insert(k, v2) =~= table_map(t, hf).insert(k, v2));
    assert forall|b: int| 0 <= b < t2.len() implies (#[trigger] t2[b]).dom() == t1[b].dom() by {
        assert(t2[b].dom() =~= t1[b].dom());
    }
}

/// Putting entries that come with the hashes of their keys into empty buckets
/// gives a table that stands for the map of the entries.
pub proof fn lemma_placed_is_listed<K, V>(entries: Seq<(u64, K, V)>, n: nat, hf: spec_fn(K) -> u64)
    requires
        n > 0,
        hashed_by(entries, hf),
    ensures
        placed(entries, n).len() == n,
        well_placed(placed(entries, n), hf),
        table_map(placed(entries, n), hf) == listed(entries),
    decreases entries.len(),
{
    lemma_placed_len(entries, n);
    if entries.len() == 0 {
        assert(table_map(placed(entries, n), hf) =~= listed(entries)) by {
            assert forall|k: K| !(#[trigger] table_map(placed(entries, n), hf).contains_key(k)) by {
                lemma_slot_in_range(hf(k), n);
            }
        }
    } else {
        let front = entries.drop_last();
        let e = entries.last();
        assert forall|i: int| 0 <= i < front.len() implies (#[trigger] front[i]).0 == hf(
            front[i].1,
        ) by {
            assert(front[i] == entries[i]);
        }
        lemma_placed_is_listed(front, n, hf);
        assert(e == entries[entries.len() - 1]);
        assert(e.0 == hf(e.1));
        lemma_put_is_insert(placed(front, n), hf, e.1, e.2);
    }
}

/// Resize preserves entries: a table rebuilt with twice the buckets from a
/// list of its entries stands for the same map, so every key is found with
/// its value as before.
pub proof fn lemma_resize_preserves<K, V>(
    t: Seq<Map<K, V>>,
    hf: spec_fn(K) -> u64,
    entries: Seq<(u64, K, V)>,
)
    requires
        t.len() > 0,
        hashed_by(entries, hf),
        listed(entries) == table_map(t, hf),
    ensures
        placed(entries, 2 * t.len()).len() == 2 * t.len(),
        well_placed(placed(entries, 2 * t.len()), hf),
        table_map(placed(entries, 2 * t.len()), hf) == table_map(t, hf),
        forall|k: K|
            table_get(placed(entries, 2 * t.len()), hf(k), k) == #[trigger] table_get(t, hf(k), k),
{
    let t2 = placed(entries, 2 * t.len());
    lemma_placed_is_listed(entries, 2 * t.len(), hf);
    assert forall|k: K| table_get(t2, hf(k), k) == #[trigger] table_get(t, hf(k), k) by {
        lemma_get_is_lookup(t, hf, k);
        lemma_get_is_lookup(t2, hf, k);
    }
}

/// The keys of the map of a list of entries are the keys of the entries.
proof fn lemma_listed_keys<K, V>(entries: Seq<(u64, K, V)>, k: K)
    ensures
        listed(entries).contains_key(k) <==> exists|i: int|
            0 <= i < entries.len() && (#[trigger] entries[i]).1 == k,
    decreases entries.len(),
{
    if entries.len() > 0 {
        let rest = entries.drop_last();
        lemma_listed_keys(rest, k);
        if listed(entries).contains_key(k) {
            if entries.last().1 == k {
                assert(entries[entries.len() - 1].1 == k);
            } else {
                let i = choose|i: int| 0 <= i < rest.len() && (#[trigger] rest[i]).1 == k;
                assert(entries[i].1 == k);
            }
        }
        if exists|i: int| 0 <= i < entries.len() && (#[trigger] entries[i]).1 == k {
            let i = choose|i: int| 0 <= i < entries.len() && (#[trigger] entries[i]).1 == k;
            if i < rest.len() {
                assert(rest[i].1 == k);
            }
        }
    }
}

/// Where no key comes twice, the map of a list of entries gives each key the
/// value of its entry.
proof fn lemma_listed_value<K, V>(entries: Seq<(u64, K, V)>, i: int)
    requires
        0 <= i < entries.len(),
        forall|a: int, b: int|
            0 <= a < b < entries.len() ==> (#[trigger] entries[a]).1 != (#[trigger] entries[b]).1,
    ensures
        listed(entries).contains_key(entries[i].1),
        listed(entries)[entries[i].1] == entries[i].2,
    decreases entries.len(),
{
    let rest = entries.drop_last();
    if i < entries.len() - 1 {
        assert forall|a: int, b: int| 0 <= a < b < rest.len() implies (#[trigger] rest[a]).1 != (
        #[trigger] rest[b]).1 by {
            assert(rest[a] == entries[a] && rest[b] == entries[b]);
        }
        assert(rest[i] == entries[i]);
        lemma_listed_value(rest, i);
        assert(entries[i].1 != entries[entries.len() - 1].1);
    }
}

/// The bucket whose entries hold place `i`, looked for from bucket `b` on.
proof fn lemma_segment_of<K, V>(
    entries: Seq<(u64, K, V)>,
    seen: Seq<Map<K, V>>,
    cuts: Seq<int>,
    i: int,
    b: int,
) -> (at: int)
    requires
        gathered(entries, seen, cuts),
        0 <= i < entries.len(),
        0 <= b < seen.len(),
        cuts[b] <= i,
    ensures
        0 <= at < seen.len(),
        cuts[at] <= i < cuts[at + 1],
    decreases seen.len() - b,
{
    if i < cuts[b + 1] {
        b
    } else {
        lemma_segment_of(entries, seen, cuts, i, b + 1)
    }
}

/// Entries gathered from a table in which every key sits in the bucket of
/// its hash are, as a map, the map that the table stands for.
#[verifier::rlimit(40)]
pub proof fn lemma_gathered_is_listed<K, V>(
    entries: Seq<(u64, K, V)>,
    t: Seq<Map<K, V>>,
    cuts: Seq<int>,
    hf: spec_fn(K) -> u64,
)
    requires
        t.len() > 0,
        gathered(entries, t, cuts),
        well_placed(t, hf),
    ensures
        listed(entries) == table_map(t, hf),
{
    // An entry at place `i` sits in the map of its bucket, with its value.
    assert forall|i: int, b: int|
        0 <= b < t.len() && cuts[b] <= i < cuts[b + 1] implies #[trigger] t[b].contains_key(
        (#[trigger] entries[i]).1,
    ) && t[b][entries[i].1] == entries[i].2 by {
        let part = segment(entries, cuts[b], cuts[b + 1]);
        assert(part[i - cuts[b]] == (entries[i].1, entries[i].2));
        lemma_entry(part, i - cuts[b]);
    }
    // So no key comes twice among the entries.
    assert forall|a: int, b: int| 0 <= a < b < entries.len() implies (#[trigger] entries[a]).1 != (
    #[trigger] entries[b]).1 by {
        let sa = lemma_segment_of(entries, t, cuts, a, 0);
        let sb = lemma_segment_of(entries, t, cuts, b, 0);
        assert(t[sa].contains_key(entries[a].1));
        assert(t[sb].contains_key(entries[b].1));
        if sa == sb {
            let part = segment(entries, cuts[sa], cuts[sa + 1]);
            assert(part[a - cuts[sa]].0 == entries[a].1);
            assert(part[b - cuts[sa]].0 == entries[b].1);
        }
    }
    assert forall|k: K| listed(entries).contains_key(k) <==> table_map(t, hf).contains_key(
        k,
    ) by {
        lemma_listed_keys(entries, k);
        lemma_slot_in_range(hf(k), t.len());
        let s = slot_of(hf(k), t.len());
        if listed(entries).contains_key(k) {
            let i = choose|i: int| 0 <= i < entries.len() && (#[trigger] entries[i]).1 == k;
            let b = lemma_segment_of(entries, t, cuts, i, 0);
            assert(t[b].contains_key(entries[i].1));
        }
        if t[s].contains_key(k) {
            let part = segment(entries, cuts[s], cuts[s + 1]);
            assert(has_key(part, k));
            let j = choose|j: int| 0 <= j < part.len() && (#[trigger] part[j]).0 == k;
            assert(entries[cuts[s] + j].1 == k);
        }
    }
    assert forall|k: K| listed(entries).contains_key(k) implies listed(entries)[k] == table_map(
        t,
        hf,
    )[k] by {
        lemma_listed_keys(entries, k);
        let i = choose|i: int| 0 <= i < entries.len() && (#[trigger] entries[i]).1 == k;
        lemma_listed_value(entries, i);
        let b = lemma_segment_of(entries, t, cuts, i, 0);
        assert(t[b].contains_key(entries[i].1));
    }
    assert(listed(entries) =~= table_map(t, hf));
}

/// Growth keeps the map: where the entries were gathered from a table in
/// which every key sits in the bucket of its hash, and each entry comes with
/// the hash of its key, the table rebuilt from them with twice the buckets
/// finds every key with its value as before, and every key sits in the
/// bucket of its hash again.
pub proof fn lemma_growth_preserves<K, V>(made: Growth<K, V>, hf: spec_fn(K) -> u64)
    requires
        made.before.len() > 0,
        gathered(made.entries, made.before, made.cuts),
        made.after == placed(made.entries, 2 * made.before.len()),
        well_placed(made.before, hf),
        hashed_by(made.entries, hf),
    ensures
        made.after.len() == 2 * made.before.len(),
        well_placed(made.after, hf),
        table_map(made.after, hf) == table_map(made.before, hf),
{
    lemma_gathered_is_listed(made.entries, made.before, made.cuts, hf);
    lemma_resize_preserves(made.before, hf, made.entries);
}

} // verus!
