//! The sharded key-value store: a fixed number of independent partitions,
//! each a string-keyed map, with a stable hash routing every key to one
//! partition. Locking is the caller's concern: a concurrent deployment wraps
//! each `Shard` in its own lock and routes with `shard_index_for`, so that
//! operations on keys of different shards never contend.
use vstd::prelude::*;

use vstd::hash_map::StringHashMap;
use vstd::pervasive::cloned;
use vstd::pervasive::VecAdditionalExecFns;

verus! {

/// Offset basis of the key hash.
pub const HASH_SEED: u64 = 0xcbf29ce484222325;

/// Multiplier of the key hash.
pub const HASH_PRIME: u64 = 0x100000001b3;

/// The stable hash of a key: a fold over its characters, fixed for the life
/// of the process and beyond, so a key always routes to the same shard.
pub open spec fn spec_key_hash(s: Seq<char>) -> int
    decreases s.len(),
{
    if s.len() == 0 {
        HASH_SEED as int
    } else {
        (((spec_key_hash(s.drop_last()) as u64) ^ ((s.last() as u32) as u64)) as int
            * HASH_PRIME as int) % 0x10000000000000000
    }
}

/// Which shard a key belongs to, out of `n`.
pub open spec fn spec_shard_index(key: Seq<char>, n: int) -> int {
    spec_key_hash(key) % n
}

/// Compute the stable hash of a key.
#[verifier::loop_isolation(false)]
pub fn key_hash(key: &str) -> (h: u64)
    ensures
        h as int == spec_key_hash(key@),
{
    let n = key.unicode_len();
    let mut h: u64 = HASH_SEED;
    let mut i: usize = 0;
    while i < n
        invariant
            i <= n,
            n == key@.len(),
            h as int == spec_key_hash(key@.subrange(0, i as int)),
        decreases n - i,
    {
        let c = key.get_char(i);
        h = (h ^ ((c as u32) as u64)).wrapping_mul(HASH_PRIME);
        proof {
            assert(key@.subrange(0, i + 1).drop_last() =~= key@.subrange(0, i as int));
            assert(key@.subrange(0, i + 1).last() == key@[i as int]);
        }
        i = i + 1;
    }
    proof {
        assert(key@.subrange(0, key@.len() as int) =~= key@);
    }
    h
}

/// Route a key to one of `n` shards by its stable hash.
pub fn shard_index_for(key: &str, n: usize) -> (i: usize)
    requires
        n >= 1,
    ensures
        i as int == spec_shard_index(key@, n as int),
        i < n,
{
    let h = key_hash(key);
    let i = h % (n as u64);
    proof {
        assert(i as int == spec_key_hash(key@) % (n as int));
    }
    i as usize
}

/// One partition of the store: a map from text keys to values.
#[verifier::reject_recursive_types(V)]
pub struct Shard<V> {
    map: StringHashMap<V>,
}

impl<V> View for Shard<V> {
    type V = Map<Seq<char>, V>;

    closed spec fn view(&self) -> Map<Seq<char>, V> {
        self.map@
    }
}

impl<V> Shard<V> {
    /// An empty partition.
    pub fn new() -> (r: Self)
        ensures
            r@ == Map::<Seq<char>, V>::empty(),
    {
        Shard { map: StringHashMap::new() }
    }

    /// Store a value under a key, replacing any previous value.
    pub fn insert(&mut self, key: &str, value: V)
        ensures
            final(self)@ == old(self)@.insert(key@, value),
    {
        self.map.insert(String::from_str(key), value);
    }
}

impl<V: Clone> Shard<V> {
    /// Copy out the value stored under a key, if any. No reference into the
    /// partition escapes: the caller receives a clone.
    pub fn get(&self, key: &str) -> (r: Option<V>)
        ensures
            match r {
                Some(v) => self@.contains_key(key@) && cloned(self@[key@], v),
                None => !self@.contains_key(key@),
            },
    {
        match self.map.get(key) {
            Some(v) => Some(v.clone()),
            None => None,
        }
    }
}

/// The whole store: `n >= 1` shards fixed at construction, with every key
/// routed to the shard its stable hash picks. Viewed abstractly it is one
/// map from keys to values.
#[verifier::reject_recursive_types(V)]
pub struct ShardedDB<V> {
    shards: Vec<Shard<V>>,
}

impl<V> ShardedDB<V> {
    /// The store is usable: it has at least one shard.
    pub closed spec fn wf(&self) -> bool {
        self.shards@.len() >= 1
    }

    /// How many shards the store was built with.
    pub closed spec fn num_shards(&self) -> int {
        self.shards@.len() as int
    }

    /// The map each shard holds, in shard order.
    pub closed spec fn shard_maps(&self) -> Seq<Map<Seq<char>, V>> {
        self.shards@.map_values(|s: Shard<V>| s@)
    }
}

impl<V> View for ShardedDB<V> {
    type V = Map<Seq<char>, V>;

    closed spec fn view(&self) -> Map<Seq<char>, V> {
        Map::new(
            |k: Seq<char>| self.shard_maps()[spec_shard_index(k, self.num_shards())].contains_key(
                k,
            ),
            |k: Seq<char>| self.shard_maps()[spec_shard_index(k, self.num_shards())][k],
        )
    }
}

impl<V> ShardedDB<V> {
    /// Allocate `num_shards` empty partitions.
    #[verifier::loop_isolation(false)]
    pub fn new(num_shards: usize) -> (r: Self)
        requires
            num_shards >= 1,
        ensures
            r.wf(),
            r.num_shards() == num_shards,
            r@ == Map::<Seq<char>, V>::empty(),
            forall|j: int| 0 <= j < num_shards ==> r.shard_maps()[j] == Map::<Seq<char>, V>::empty(),
    {
        let mut shards: Vec<Shard<V>> = Vec::new();
        let mut i: usize = 0;
        while i < num_shards
            invariant
                i <= num_shards,
                shards@.len() == i,
                forall|j: int| 0 <= j < i ==> #[trigger] shards@[j]@ == Map::<Seq<char>, V>::empty(),
            decreases num_shards - i,
        {
            shards.push(Shard::new());
            i = i + 1;
        }
        let r = ShardedDB { shards };
        proof {
            assert(r@ =~= Map::<Seq<char>, V>::empty());
        }
        r
    }

    /// Route a key to its shard: the same key always lands on the same
    /// shard for the life of the store.
    pub fn get_key_shard(&self, key: &str) -> (i: usize)
        requires
            self.wf(),
        ensures
            i as int == spec_shard_index(key@, self.num_shards()),
            i < self.num_shards(),
    {
        shard_index_for(key, self.shards.len())
    }

    /// Store a value under a key: only the shard the key routes to changes,
    /// and as a whole the store now maps the key to the value.
    pub fn insert(&mut self, key: &str, value: V)
        requires
            old(self).wf(),
        ensures
            final(self).wf(),
            final(self).num_shards() == old(self).num_shards(),
            final(self)@ == old(self)@.insert(key@, value),
            forall|j: int|
                0 <= j < old(self).num_shards() && j != spec_shard_index(
                    key@,
                    old(self).num_shards(),
                ) ==> final(self).shard_maps()[j] == old(self).shard_maps()[j],
    {
        let i = self.get_key_shard(key);
        let mut tmp: Shard<V> = Shard::new();
        self.shards.set_and_swap(i, &mut tmp);
        tmp.insert(key, value);
        self.shards.set_and_swap(i, &mut tmp);
        proof {
            assert(self.shards@ =~= old(self).shards@.update(i as int, self.shards@[i as int]));
            assert(self.shard_maps() =~= old(self).shard_maps().update(
                i as int,
                old(self).shard_maps()[i as int].insert(key@, value),
            ));
            assert(self@ =~= old(self)@.insert(key@, value));
        }
    }

}

impl<V: Clone> ShardedDB<V> {
    /// Look a key up in its shard and copy the value out, if one is there.
    pub fn get(&self, key: &str) -> (r: Option<V>)
        requires
            self.wf(),
        ensures
            match r {
                Some(v) => self@.contains_key(key@) && cloned(self@[key@], v),
                None => !self@.contains_key(key@),
            },
    {
        let i = self.get_key_shard(key);
        self.shards[i].get(key)
    }
}

/// Shard correctness, at the store's abstract map: storing a value under a
/// key and then looking that key up yields exactly that value.
pub proof fn lemma_insert_then_get<V>(m: Map<Seq<char>, V>, key: Seq<char>, value: V)
    ensures
        m.insert(key, value).contains_key(key),
        m.insert(key, value)[key] == value,
{
}

/// Shard isolation, sequentially: an operation that only touches the shard
/// one key routes to leaves every key of every other shard untouched — the
/// reason per-shard locks never contend across shards.
pub proof fn lemma_shard_isolation<V>(
    pre: ShardedDB<V>,
    post: ShardedDB<V>,
    key: Seq<char>,
    other: Seq<char>,
)
    requires
        pre.wf(),
        post.wf(),
        post.num_shards() == pre.num_shards(),
        forall|j: int|
            0 <= j < pre.num_shards() && j != spec_shard_index(key, pre.num_shards())
                ==> post.shard_maps()[j] == pre.shard_maps()[j],
        spec_shard_index(other, pre.num_shards()) != spec_shard_index(key, pre.num_shards()),
    ensures
        post.shard_maps()[spec_shard_index(other, post.num_shards())] == pre.shard_maps()[
            spec_shard_index(other, pre.num_shards())],
        post@.contains_key(other) == pre@.contains_key(other),
        post@.contains_key(other) ==> post@[other] == pre@[other],
{
    let n = pre.num_shards();
    assert(0 <= spec_shard_index(other, n) < n);
}

} // verus!
