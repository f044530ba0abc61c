//! A hash map with one lock per bucket that grows by doubling.
//!
//! Every call reads the bucket array under a shared lock and works on one
//! bucket under that bucket's own lock. Growth takes the array exclusively:
//! it waits until no call is under way, and no call sees the array half
//! rebuilt. At most one thread grows the array at a time; a thread that finds
//! growth under way goes on without growing.

use vstd::prelude::*;
use crossbeam::utils::CachePadded;
use std::collections::hash_map::RandomState;
use std::hash::BuildHasher;
use std::hash::Hash;
use std::sync::atomic::AtomicBool;
use std::sync::atomic::AtomicUsize;
use std::sync::RwLock;
use crate::map::bucket::Bucket;
use crate::map::bucket::{distinct_keys, entries_map};
use crate::map::table::{
    bucket_index, distribute, doubled, gathered, placed, reversed, segment, should_resize, slot_of,
    views, Growth, ResizePolicy, Visit,
};
use crate::order::exact_eq;
use crate::map::ConcurrentMap;
use crate::sync::{
    cache_padded, padded_ref, read_guard_ref, read_unlock, rwlock_new, rwlock_read, rwlock_write,
    write_guard_mut, write_unlock,
};

verus! {

/// The number of buckets of a map made by `new`.
pub const DEFAULT_NUM_BUCKETS: usize = 4096;

/// The bucket size beyond which a map made by `new` grows.
pub const DEFAULT_MAX_BUCKET_SIZE: usize = 10;

/// `BuildHasher::hash_one`: the hash of `key` under the hasher that `state`
/// builds. Nothing is claimed of the number: the map works for whatever comes
/// back, and finds a key again where its hash comes back the same.
#[verifier::external_body]
fn hash_one<K: Hash, S: BuildHasher>(state: &S, key: &K) -> u64 {
    state.hash_one(key)
}

/// `RandomState::new`: a hasher state with keys drawn at random. Nothing is
/// claimed of it.
#[verifier::external_body]
fn random_state() -> RandomState {
    RandomState::new()
}

/// The number of buckets of a map made for `capacity` entries: two for every
/// full ten.
pub fn buckets_for(capacity: usize) -> (n: usize)
    ensures
        n == (capacity / DEFAULT_MAX_BUCKET_SIZE) * 2,
        n > 0 <==> capacity >= DEFAULT_MAX_BUCKET_SIZE,
{
    (capacity / DEFAULT_MAX_BUCKET_SIZE) * 2
}

/// Each of the buckets, in their order, behind a lock of its own.
fn lock_all<K: PartialEq, V>(buckets: Vec<Bucket<K, V>>) -> (locks: Vec<RwLock<Bucket<K, V>>>)
    ensures
        locks@.len() == buckets@.len(),
{
    let mut rest = reversed(buckets);
    let mut locks: Vec<RwLock<Bucket<K, V>>> = Vec::new();
    while rest.len() > 0
        invariant
            locks@.len() + rest@.len() == buckets@.len(),
        decreases rest@.len(),
    {
        let bucket = rest.pop().unwrap();
        locks.push(rwlock_new(bucket));
    }
    locks
}

/// Puts the entries of `taken`, in their order and each with its hash under
/// `state`, behind those of `out`.
fn append_hashed<K: Hash, V, S: BuildHasher>(
    state: &S,
    taken: Vec<(K, V)>,
    out: &mut Vec<(u64, K, V)>,
)
    ensures
        final(out)@.len() == old(out)@.len() + taken@.len(),
        forall|i: int| 0 <= i < old(out)@.len() ==> final(out)@[i] == old(out)@[i],
        forall|i: int|
            0 <= i < taken@.len() ==> (#[trigger] final(out)@[old(out)@.len() + i]).1 == taken@[i].0
                && final(out)@[old(out)@.len() + i].2 == taken@[i].1,
{
    let mut rest = reversed(taken);
    let ghost mut done: int = 0;
    while rest.len() > 0
        invariant
            0 <= done,
            done + rest@.len() == taken@.len(),
            forall|j: int| 0 <= j < rest@.len() ==> rest@[j] == taken@[taken@.len() - 1 - j],
            out@.len() == old(out)@.len() + done,
            forall|i: int| 0 <= i < old(out)@.len() ==> out@[i] == old(out)@[i],
            forall|i: int|
                0 <= i < done ==> (#[trigger] out@[old(out)@.len() + i]).1 == taken@[i].0
                    && out@[old(out)@.len() + i].2 == taken@[i].1,
        decreases rest@.len(),
    {
        let (key, value) = rest.pop().unwrap();
        let h = hash_one(state, &key);
        out.push((h, key, value));
        proof {
            done = done + 1;
        }
    }
}

/// The bucket array: at least one bucket, each behind its own lock.
#[verifier::reject_recursive_types(K)]
#[verifier::reject_recursive_types(V)]
struct Stripes<K: PartialEq, V> {
    buckets: Vec<RwLock<Bucket<K, V>>>,
}

impl<K: PartialEq, V> Stripes<K, V> {
    #[verifier::type_invariant]
    spec fn inv(self) -> bool {
        self.buckets@.len() > 0
    }

    /// The number of buckets.
    closed spec fn spec_len(self) -> nat {
        self.buckets@.len()
    }

    /// An array of `num_buckets` empty buckets.
    fn new(num_buckets: usize) -> (stripes: Self)
        requires
            num_buckets > 0,
        ensures
            stripes.spec_len() == num_buckets,
    {
        let mut empty: Vec<Bucket<K, V>> = Vec::new();
        let mut b: usize = 0;
        while b < num_buckets
            invariant
                b <= num_buckets,
                empty@.len() == b,
            decreases num_buckets - b,
        {
            empty.push(Bucket::new());
            b = b + 1;
        }
        Stripes { buckets: lock_all(empty) }
    }

    /// The number of buckets.
    fn len(&self) -> (n: usize)
        ensures
            n == self.spec_len(),
            n > 0,
    {
        proof {
            use_type_invariant(self);
        }
        self.buckets.len()
    }

    /// A copy of the value for `key` in the bucket that the hash `h` names,
    /// and what the call saw of that bucket. Where `==` on keys is identity,
    /// a value comes back just when the bucket holds the key, and it is a
    /// copy of the key's value.
    fn get(&self, h: u64, key: &K) -> (out: (Option<V>, Ghost<Visit<K, V>>)) where V: Clone
        ensures
            out.1@.bucket == slot_of(h, self.spec_len()),
            out.1@.after == out.1@.before,
            exact_eq::<K>() ==> match out.0 {
                Some(value) => out.1@.before.contains_key(*key) && cloned(
                    out.1@.before[*key],
                    value,
                ),
                None => !out.1@.before.contains_key(*key),
            },
    {
        let b = bucket_index(h, self.len());
        let guard = rwlock_read(&self.buckets[b]);
        let bucket = read_guard_ref(&guard);
        let ghost visit = Visit { bucket: b as int, before: bucket@, after: bucket@ };
        match bucket.get(key) {
            Some(value) => (Some(value.clone()), Ghost(visit)),
            None => (None, Ghost(visit)),
        }
    }

    /// Whether the bucket that the hash `h` names has a value for `key`, and
    /// what the call saw of that bucket.
    fn contains(&self, h: u64, key: &K) -> (out: (bool, Ghost<Visit<K, V>>))
        ensures
            out.1@.bucket == slot_of(h, self.spec_len()),
            out.1@.after == out.1@.before,
            exact_eq::<K>() ==> out.0 == out.1@.before.contains_key(*key),
    {
        let b = bucket_index(h, self.len());
        let guard = rwlock_read(&self.buckets[b]);
        let bucket = read_guard_ref(&guard);
        let ghost visit = Visit { bucket: b as int, before: bucket@, after: bucket@ };
        (bucket.contains(key), Ghost(visit))
    }

    /// Gives `key` the value `value` in the bucket that the hash `h` names.
    /// Returns whether the bucket grew, how many entries it holds now (at
    /// least the one that was just written), and what the call saw of the
    /// bucket. Where `==` on keys is identity, the bucket afterwards is the
    /// bucket before with the key set to the value, it grew just when it had
    /// no value for the key, and its size is the number of its keys.
    fn put(&self, h: u64, key: K, value: V) -> (written: (bool, usize, Ghost<Visit<K, V>>))
        ensures
            written.1 >= 1,
            written.2@.bucket == slot_of(h, self.spec_len()),
            exact_eq::<K>() ==> {
                &&& written.2@.after == written.2@.before.insert(key, value)
                &&& written.0 == !written.2@.before.contains_key(key)
                &&& written.2@.after.dom().finite()
                &&& written.1 == written.2@.after.dom().len()
            },
    {
        let b = bucket_index(h, self.len());
        let mut guard = rwlock_write(&self.buckets[b]);
        let bucket = write_guard_mut(&mut guard);
        let ghost before = bucket@;
        let grew = bucket.put(key, value);
        let size = bucket.len();
        let ghost visit = Visit { bucket: b as int, before, after: bucket@ };
        (grew, size, Ghost(visit))
    }

    /// Removes `key` from the bucket that the hash `h` names. Returns whether
    /// it was there, and what the call saw of the bucket. Where `==` on keys
    /// is identity, the bucket afterwards is the bucket before without the
    /// key, and the key was there just when the bucket held it.
    fn remove(&self, h: u64, key: &K) -> (out: (bool, Ghost<Visit<K, V>>))
        ensures
            out.1@.bucket == slot_of(h, self.spec_len()),
            exact_eq::<K>() ==> {
                &&& out.1@.after == out.1@.before.remove(*key)
                &&& out.0 == out.1@.before.contains_key(*key)
            },
    {
        let b = bucket_index(h, self.len());
        let mut guard = rwlock_write(&self.buckets[b]);
        let bucket = write_guard_mut(&mut guard);
        let ghost before = bucket@;
        let found = bucket.remove(key);
        let ghost visit = Visit { bucket: b as int, before, after: bucket@ };
        (found, Ghost(visit))
    }

    /// Takes the entries out of all buckets, bucket by bucket in their order,
    /// each with its hash under `state`. Every bucket's lock is taken for
    /// writing and given back before the next one's, so that when the pass is
    /// over no thread is at work on any bucket.
    ///
    /// Returns the entries, and as ghost values what each bucket held when it
    /// was emptied and where its entries begin among those returned. Where
    /// `==` on keys is identity, the entries are those of the buckets, each
    /// once and with its value.
    #[verifier::rlimit(40)]
    fn drain<S: BuildHasher>(&self, state: &S) -> (out: (
        Vec<(u64, K, V)>,
        Ghost<Seq<Map<K, V>>>,
        Ghost<Seq<int>>,
    )) where K: Hash
        ensures
            out.1@.len() == self.spec_len(),
            exact_eq::<K>() ==> gathered(out.0@, out.1@, out.2@),
    {
        let mut entries: Vec<(u64, K, V)> = Vec::new();
        let mut b: usize = 0;
        let ghost mut seen: Seq<Map<K, V>> = Seq::empty();
        let ghost mut cuts: Seq<int> = Seq::empty().push(0int);
        while b < self.buckets.len()
            invariant
                b <= self.buckets@.len(),
                seen.len() == b,
                cuts.len() == b + 1,
                cuts[0] == 0,
                cuts[b as int] == entries@.len(),
                exact_eq::<K>() ==> forall|c: int|
                    0 <= c < b ==> {
                        &&& 0 <= #[trigger] cuts[c] <= cuts[c + 1] <= entries@.len()
                        &&& distinct_keys(segment(entries@, cuts[c], cuts[c + 1]))
                        &&& entries_map(segment(entries@, cuts[c], cuts[c + 1])) == seen[c]
                    },
            decreases self.buckets@.len() - b,
        {
            let mut guard = rwlock_write(&self.buckets[b]);
            let bucket = write_guard_mut(&mut guard);
            let ghost held = bucket@;
            let taken = bucket.take_all();
            write_unlock(guard);
            let ghost old_entries = entries@;
            let ghost old_cuts = cuts;
            let ghost old_seen = seen;
            append_hashed(state, taken, &mut entries);
            proof {
                seen = seen.push(held);
                cuts = cuts.push(entries@.len() as int);
                if exact_eq::<K>() {
                    assert(segment(entries@, old_entries.len() as int, entries@.len() as int)
                        =~= taken@);
                    assert forall|c: int| 0 <= c < b + 1 implies {
                        &&& 0 <= #[trigger] cuts[c] <= cuts[c + 1] <= entries@.len()
                        &&& distinct_keys(segment(entries@, cuts[c], cuts[c + 1]))
                        &&& entries_map(segment(entries@, cuts[c], cuts[c + 1])) == seen[c]
                    } by {
                        if c < b {
                            assert(cuts[c] == old_cuts[c] && cuts[c + 1] == old_cuts[c + 1]);
                            assert(seen[c] == old_seen[c]);
                            assert(segment(entries@, cuts[c], cuts[c + 1]) =~= segment(
                                old_entries,
                                old_cuts[c],
                                old_cuts[c + 1],
                            ));
                        }
                    }
                }
            }
            b = b + 1;
        }
        (entries, Ghost(seen), Ghost(cuts))
    }

    /// Doubles the number of buckets and puts every entry into the bucket
    /// that its hash under `state` names among the new ones. Does nothing
    /// when the machine has no number for twice the buckets.
    ///
    /// Returns, as a ghost value, what it saw and made. Where `==` on keys
    /// is identity and the array grew, the entries taken out are those of
    /// the old buckets, each once and with its value, and the new buckets
    /// are what putting them, first to last, into empty buckets gives.
    fn grow<S: BuildHasher>(&mut self, state: &S) -> (made: Ghost<Growth<K, V>>) where K: Hash
        ensures
            final(self).spec_len() == 2 * old(self).spec_len() || (final(self).spec_len() == old(
                self,
            ).spec_len() && 2 * old(self).spec_len() > usize::MAX),
            exact_eq::<K>() && final(self).spec_len() != old(self).spec_len() ==> {
                &&& made@.before.len() == old(self).spec_len()
                &&& gathered(made@.entries, made@.before, made@.cuts)
                &&& made@.after == placed(made@.entries, final(self).spec_len())
            },
    {
        proof {
            use_type_invariant(&*self);
        }
        let wider = match doubled(self.buckets.len()) {
            None => {
                let ghost nothing = Growth::<K, V> {
                    before: Seq::empty(),
                    entries: Seq::empty(),
                    cuts: Seq::empty(),
                    after: Seq::empty(),
                };
                return Ghost(nothing);
            },
            Some(wider) => wider,
        };
        let (entries, Ghost(before), Ghost(cuts)) = self.drain(state);
        let ghost taken = entries@;
        let fresh = distribute(entries, wider);
        let ghost made = Growth { before, entries: taken, cuts, after: views(fresh@) };
        let locks = lock_all(fresh);
        self.buckets = locks;
        Ghost(made)
    }
}

/// A concurrent hash map with one lock per bucket.
#[verifier::reject_recursive_types(K)]
#[verifier::reject_recursive_types(V)]
pub struct StripedHashMap<K: PartialEq, V, S = RandomState> {
    table: RwLock<Stripes<K, V>>,
    policy: ResizePolicy,
    count: CachePadded<AtomicUsize>,
    resize_in_progress: CachePadded<AtomicBool>,
    state: S,
}

impl<K: PartialEq, V, S> StripedHashMap<K, V, S> {
    /// The rule by which the map grows. It is set when the map is made and
    /// stays as it is.
    pub closed spec fn policy(&self) -> ResizePolicy {
        self.policy
    }

    /// The hasher state under which the map hashes its keys. It is set when
    /// the map is made and stays as it is.
    pub closed spec fn hasher(&self) -> S {
        self.state
    }
}

impl<K: Hash + PartialEq, V> Default for StripedHashMap<K, V, RandomState> {
    /// An empty map, as `new` makes it.
    fn default() -> (map: Self)
        ensures
            map.policy() == ResizePolicy::MaxBucketSize(DEFAULT_MAX_BUCKET_SIZE),
    {
        StripedHashMap::new()
    }
}

impl<K: Hash + PartialEq, V> StripedHashMap<K, V, RandomState> {
    /// An empty map with the default number of buckets and the default
    /// bucket size.
    pub fn new() -> (map: Self)
        ensures
            map.policy() == ResizePolicy::MaxBucketSize(DEFAULT_MAX_BUCKET_SIZE),
    {
        StripedHashMap::build(
            DEFAULT_NUM_BUCKETS,
            random_state(),
            ResizePolicy::MaxBucketSize(DEFAULT_MAX_BUCKET_SIZE),
        )
    }

    /// An empty map with room for `capacity` entries before it grows: as
    /// many buckets as `buckets_for` gives.
    pub fn with_capacity(capacity: usize) -> (map: Self)
        requires
            capacity >= DEFAULT_MAX_BUCKET_SIZE,
        ensures
            map.policy() == ResizePolicy::MaxBucketSize(DEFAULT_MAX_BUCKET_SIZE),
    {
        let num_buckets = buckets_for(capacity);
        StripedHashMap::build(
            num_buckets,
            random_state(),
            ResizePolicy::MaxBucketSize(DEFAULT_MAX_BUCKET_SIZE),
        )
    }

    /// An empty map with `num_buckets` buckets.
    pub fn with_num_buckets(num_buckets: usize) -> (map: Self)
        requires
            num_buckets > 0,
        ensures
            map.policy() == ResizePolicy::MaxBucketSize(DEFAULT_MAX_BUCKET_SIZE),
    {
        StripedHashMap::build(
            num_buckets,
            random_state(),
            ResizePolicy::MaxBucketSize(DEFAULT_MAX_BUCKET_SIZE),
        )
    }
}

impl<K: Hash + PartialEq, V, S: BuildHasher> StripedHashMap<K, V, S> {
    /// An empty map that hashes with `hasher`.
    pub fn with_hasher(hasher: S) -> (map: Self)
        ensures
            map.policy() == ResizePolicy::MaxBucketSize(DEFAULT_MAX_BUCKET_SIZE),
            map.hasher() == hasher,
    {
        StripedHashMap::build(
            DEFAULT_NUM_BUCKETS,
            hasher,
            ResizePolicy::MaxBucketSize(DEFAULT_MAX_BUCKET_SIZE),
        )
    }

    /// An empty map with `num_buckets` buckets that hashes with `hasher` and
    /// grows as `policy` says.
    pub fn build(num_buckets: usize, hasher: S, policy: ResizePolicy) -> (map: Self)
        requires
            num_buckets > 0,
        ensures
            map.policy() == policy,
            map.hasher() == hasher,
    {
        StripedHashMap {
            table: rwlock_new(Stripes::new(num_buckets)),
            policy,
            count: cache_padded(AtomicUsize::new(0)),
            resize_in_progress: cache_padded(AtomicBool::new(false)),
            state: hasher,
        }
    }

    /// The hash of `key`.
    fn hash(&self, key: &K) -> u64 {
        hash_one(&self.state, key)
    }

    /// The number of buckets at the moment of the call.
    pub fn num_buckets(&self) -> (n: usize)
        ensures
            n > 0,
    {
        let guard = rwlock_read(&self.table);
        read_guard_ref(&guard).len()
    }

    /// Grows the bucket array unless another thread is growing it. Returns
    /// whether this thread grew it.
    fn try_resize(&self) -> bool {
        let flag = padded_ref(&self.resize_in_progress);
        let won = flag.compare_exchange(
            false,
            true,
            core::sync::atomic::Ordering::SeqCst,
            core::sync::atomic::Ordering::SeqCst,
        ).is_ok();
        if won {
            self.resize();
            flag.store(false, core::sync::atomic::Ordering::SeqCst);
        }
        won
    }

    /// Grows the bucket array. The array is taken exclusively, so the call
    /// waits for every call that is under way and holds back those to come.
    fn resize(&self) {
        let mut guard = rwlock_write(&self.table);
        let _ = write_guard_mut(&mut guard).grow(&self.state);
    }
}

impl<K: Hash + PartialEq, V: Clone, S: BuildHasher> ConcurrentMap for StripedHashMap<K, V, S> {
    type Key = K;

    type Val = V;

    fn get(&self, key: &K) -> Option<V> {
        let h = self.hash(key);
        let guard = rwlock_read(&self.table);
        let (value, _) = read_guard_ref(&guard).get(h, key);
        value
    }

    fn contains(&self, key: &K) -> bool {
        let h = self.hash(key);
        let guard = rwlock_read(&self.table);
        let (found, _) = read_guard_ref(&guard).contains(h, key);
        found
    }

    fn put(&self, key: K, value: V) {
        let h = self.hash(&key);
        let guard = rwlock_read(&self.table);
        let table = read_guard_ref(&guard);
        let (grew, size, _) = table.put(h, key, value);
        let buckets = table.len();
        read_unlock(guard);
        let count = padded_ref(&self.count);
        if grew {
            count.fetch_add(1, core::sync::atomic::Ordering::Relaxed);
        }
        let total = count.load(core::sync::atomic::Ordering::Relaxed);
        if should_resize(self.policy, size, total, buckets) {
            self.try_resize();
        }
    }

    fn remove(&self, key: &K) -> bool {
        let h = self.hash(key);
        let guard = rwlock_read(&self.table);
        let (found, _) = read_guard_ref(&guard).remove(h, key);
        read_unlock(guard);
        if found {
            padded_ref(&self.count).fetch_sub(1, core::sync::atomic::Ordering::Relaxed);
        }
        found
    }
}

} // verus!
