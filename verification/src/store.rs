//! The sharded key-value store backing GET and SET: a fixed-length sequence
//! of independent partitions of a key-to-value mapping, addressed by a hash
//! of the key. No invariant spans partitions, so callers may lock and work
//! on different partitions fully in parallel.

use vstd::prelude::*;

verus! {

/// A stable, deterministic hash over the key bytes, processed left to
/// right with xor-and-multiply rounds over a 64-bit accumulator.
pub open spec fn spec_hash(key: Seq<u8>) -> u64
    decreases key.len(),
{
    if key.len() == 0 {
        0xcbf29ce484222325u64
    } else {
        (((spec_hash(key.drop_last()) ^ (key.last() as u64)) as int * 0x100000001b3)
            % 0x10000000000000000) as u64
    }
}

/// The partition that `key` belongs to, for a store of `n` partitions.
pub open spec fn shard_of(key: Seq<u8>, n: nat) -> nat
    recommends
        n >= 1,
{
    (spec_hash(key) as nat) % n
}

/// Hash a key; the same key always maps to the same value.
#[verifier::loop_isolation(false)]
pub fn calculate_hash(key: &[u8]) -> (r: u64)
    ensures
        r == spec_hash(key@),
{
    let mut h: u64 = 0xcbf29ce484222325;
    let mut i: usize = 0;
    proof {
        assert(key@.take(0) =~= Seq::<u8>::empty());
    }
    while i < key.len()
        invariant
            i <= key@.len(),
            h == spec_hash(key@.take(i as int)),
        decreases key@.len() - i,
    {
        h = (h ^ (key[i] as u64)).wrapping_mul(0x100000001b3);
        proof {
            assert(key@.take(i as int + 1).drop_last() =~= key@.take(i as int));
            assert(key@.take(i as int + 1).last() == key@[i as int]);
        }
        i = i + 1;
    }
    proof {
        assert(key@.take(key@.len() as int) =~= key@);
    }
    h
}

/// The partition index for `key` in a store of `num_shards` partitions.
pub fn shard_index(key: &[u8], num_shards: usize) -> (r: usize)
    requires
        num_shards >= 1,
    ensures
        r == shard_of(key@, num_shards as nat),
        r < num_shards,
{
    let h = calculate_hash(key);
    (h % (num_shards as u64)) as usize
}

/// One independently lockable slice of the key space: a last-writer-wins
/// association list from key bytes to value bytes, which only grows.
pub struct Partition {
    entries: Vec<(Vec<u8>, Vec<u8>)>,
}

/// The mapping that an association list denotes: later entries win.
pub open spec fn assoc_view(s: Seq<(Vec<u8>, Vec<u8>)>) -> Map<Seq<u8>, Seq<u8>>
    decreases s.len(),
{
    if s.len() == 0 {
        Map::empty()
    } else {
        assoc_view(s.drop_last()).insert(s.last().0@, s.last().1@)
    }
}

/// A key absent from every entry is absent from the denoted map.
proof fn lemma_assoc_absent(s: Seq<(Vec<u8>, Vec<u8>)>, k: Seq<u8>)
    requires
        forall|i: int| 0 <= i < s.len() ==> (#[trigger] s[i]).0@ != k,
    ensures
        !assoc_view(s).dom().contains(k),
    decreases s.len(),
{
    if s.len() > 0 {
        assert(s[s.len() - 1].0@ != k);
        lemma_assoc_absent(s.drop_last(), k);
    }
}

/// The latest entry for a key gives its value in the denoted map.
proof fn lemma_assoc_latest(s: Seq<(Vec<u8>, Vec<u8>)>, k: Seq<u8>, i: int)
    requires
        0 <= i < s.len(),
        s[i].0@ == k,
        forall|j: int| i < j < s.len() ==> (#[trigger] s[j]).0@ != k,
    ensures
        assoc_view(s).dom().contains(k),
        assoc_view(s)[k] == s[i].1@,
    decreases s.len(),
{
    if i == s.len() - 1 {
    } else {
        assert(s[s.len() - 1].0@ != k);
        lemma_assoc_latest(s.drop_last(), k, i);
    }
}

/// The two key vectors hold the same bytes.
fn bytes_eq(a: &[u8], b: &[u8]) -> (r: bool)
    ensures
        r == (a@ == b@),
{
    if a.len() != b.len() {
        proof {
            assert(a@ != b@);
        }
        return false;
    }
    let mut i: usize = 0;
    while i < a.len()
        invariant
            i <= a@.len(),
            a@.len() == b@.len(),
            forall|j: int| 0 <= j < i ==> a@[j] == b@[j],
        decreases a@.len() - i,
    {
        if a[i] != b[i] {
            proof {
                assert(a@[i as int] != b@[i as int]);
            }
            return false;
        }
        i = i + 1;
    }
    proof {
        assert(a@ =~= b@);
    }
    true
}

impl View for Partition {
    type V = Map<Seq<u8>, Seq<u8>>;

    closed spec fn view(&self) -> Map<Seq<u8>, Seq<u8>> {
        assoc_view(self.entries@)
    }
}

impl Partition {
    pub fn new() -> (r: Partition)
        ensures
            r@ == Map::<Seq<u8>, Seq<u8>>::empty(),
    {
        Partition { entries: Vec::new() }
    }

    /// Insert or overwrite; always succeeds, and the previous value for the
    /// key, if any, is silently replaced -- last writer wins.
    pub fn insert(&mut self, key: Vec<u8>, val: Vec<u8>)
        ensures
            final(self)@ == old(self)@.insert(key@, val@),
    {
        self.entries.push((key, val));
        proof {
            assert(self.entries@.drop_last() =~= old(self).entries@);
        }
    }

    /// Look the key up and copy the value out.
    #[verifier::loop_isolation(false)]
    pub fn get(&self, key: &[u8]) -> (r: Option<Vec<u8>>)
        ensures
            match r {
                Some(v) => self@.dom().contains(key@) && v@ == self@[key@],
                None => !self@.dom().contains(key@),
            },
    {
        let mut i = self.entries.len();
        while i > 0
            invariant
                i <= self.entries@.len(),
                forall|j: int| i <= j < self.entries@.len()
                    ==> (#[trigger] self.entries@[j]).0@ != key@,
            decreases i,
        {
            i = i - 1;
            if bytes_eq(self.entries[i].0.as_slice(), key) {
                proof {
                    lemma_assoc_latest(self.entries@, key@, i as int);
                }
                return Some(vstd::slice::slice_to_vec(self.entries[i].1.as_slice()));
            }
        }
        proof {
            lemma_assoc_absent(self.entries@, key@);
        }
        None
    }
}

/// A generic dictionary interface, for alternative store backends; the
/// status code of `Put` and the found flag of `Get` follow the interface
/// it abstracts.
#[allow(non_camel_case_types)]
pub trait dict {
    #[allow(non_snake_case)]
    fn Put<T>(key: String, val: T) -> i32;

    #[allow(non_snake_case)]
    fn Get<T>(key: String) -> (T, bool);
}

/// The store: a fixed number of independent partitions. The shard count
/// never changes after construction, so a key belongs to exactly one
/// partition for the lifetime of the store.
pub struct ShardedDict {
    db: Vec<Partition>,
}

impl ShardedDict {
    /// How many partitions the store was built with.
    pub closed spec fn shard_count(&self) -> nat {
        self.db@.len()
    }

    /// The mapping a single partition holds.
    pub closed spec fn partition(&self, i: int) -> Map<Seq<u8>, Seq<u8>> {
        self.db@[i]@
    }

    pub open spec fn wf(&self) -> bool {
        self.shard_count() >= 1
    }

    /// The one mapping the whole store denotes: each key is read in the
    /// partition its hash selects.
    pub open spec fn view(&self) -> Map<Seq<u8>, Seq<u8>> {
        Map::new(
            |k: Seq<u8>| self.partition(shard_of(k, self.shard_count()) as int).dom().contains(k),
            |k: Seq<u8>| self.partition(shard_of(k, self.shard_count()) as int)[k],
        )
    }

    pub fn shards(&self) -> (r: usize)
        ensures
            r == self.shard_count(),
    {
        self.db.len()
    }

    /// Insert or overwrite, touching only the partition the key hashes to.
    pub fn insert(&mut self, key: Vec<u8>, val: Vec<u8>)
        requires
            old(self).wf(),
        ensures
            final(self).wf(),
            final(self).shard_count() == old(self).shard_count(),
            final(self)@ == old(self)@.insert(key@, val@),
            forall|j: int| 0 <= j < old(self).shard_count()
                && j != shard_of(key@, old(self).shard_count())
                ==> final(self).partition(j) == old(self).partition(j),
    {
        let idx = shard_index(key.as_slice(), self.db.len());
        let ghost k = key@;
        let mut part = self.db.remove(idx);
        part.insert(key, val);
        self.db.insert(idx, part);
        proof {
            assert(self.db@ =~= old(self).db@.update(idx as int, part));
            assert(self@ =~= old(self)@.insert(k, val@));
        }
    }

    /// Look the key up in the partition its hash selects.
    pub fn get(&self, key: &[u8]) -> (r: Option<Vec<u8>>)
        requires
            self.wf(),
        ensures
            match r {
                Some(v) => self@.dom().contains(key@) && v@ == self@[key@],
                None => !self@.dom().contains(key@),
            },
    {
        let idx = shard_index(key, self.db.len());
        self.db[idx].get(key)
    }
}

/// Build a store of `num_shards` empty partitions.
#[verifier::loop_isolation(false)]
pub fn new_sharded_db(num_shards: usize) -> (r: ShardedDict)
    requires
        num_shards >= 1,
    ensures
        r.wf(),
        r.shard_count() == num_shards,
        r@ == Map::<Seq<u8>, Seq<u8>>::empty(),
        forall|j: int| 0 <= j < num_shards
            ==> r.partition(j) == Map::<Seq<u8>, Seq<u8>>::empty(),
{
    let mut db: Vec<Partition> = Vec::new();
    let mut i: usize = 0;
    while i < num_shards
        invariant
            i <= num_shards,
            db@.len() == i,
            forall|j: int| 0 <= j < i ==> (#[trigger] db@[j])@
                == Map::<Seq<u8>, Seq<u8>>::empty(),
        decreases num_shards - i,
    {
        db.push(Partition::new());
        i = i + 1;
    }
    let r = ShardedDict { db };
    proof {
        assert(r@ =~= Map::<Seq<u8>, Seq<u8>>::empty());
    }
    r
}

/// Partition independence: an update that touches only the partition one
/// key hashes to leaves the partition of any key with a different hash
/// slot exactly as it was. Work on the two keys can therefore proceed
/// fully in parallel, serialized only within a partition.
pub proof fn lemma_partition_independence(
    before: ShardedDict,
    after: ShardedDict,
    k1: Seq<u8>,
    k2: Seq<u8>,
)
    requires
        before.wf(),
        after.wf(),
        after.shard_count() == before.shard_count(),
        shard_of(k1, before.shard_count()) != shard_of(k2, before.shard_count()),
        forall|j: int| 0 <= j < before.shard_count()
            && j != shard_of(k1, before.shard_count())
            ==> after.partition(j) == before.partition(j),
    ensures
        after.partition(shard_of(k2, before.shard_count()) as int)
            == before.partition(shard_of(k2, before.shard_count()) as int),
{
}

/// Store correctness: in the mapping the store denotes, a lookup right
/// after `insert(key, v)` yields `v`; any other key reads as before the
/// insert; and nothing is ever found under a key never inserted.
pub proof fn lemma_store_semantics(m: Map<Seq<u8>, Seq<u8>>, k: Seq<u8>, v: Seq<u8>)
    ensures
        m.insert(k, v).dom().contains(k),
        m.insert(k, v)[k] == v,
        forall|k2: Seq<u8>| k2 != k ==> m.insert(k, v).dom().contains(k2)
            == m.dom().contains(k2),
        forall|k2: Seq<u8>| k2 != k && m.dom().contains(k2) ==> m.insert(k, v)[k2] == m[k2],
        !Map::<Seq<u8>, Seq<u8>>::empty().dom().contains(k),
{
}

} // verus!
