//! The cuckoo hash table: two equal-sized slot arrays, one hash function per
//! array, insertion by bounded displacement with rehash as the fallback.

use crate::displacement::{displacement_bound, max_displacements};
use crate::hashes::{hash_value, HashFamily, HashFunction};
use vstd::prelude::*;

verus! {

/// How many slot arrays the table keeps; a key has one candidate bucket in each.
pub const NUM_TABLES: usize = 2;

/// How many fresh hash function pairs a rehash may try before giving up and
/// leaving the table untouched. Each attempt succeeds with decent probability
/// at sane load factors, so the budget is beyond reach in practice.
pub const MAX_REHASH_ATTEMPTS: u64 = 4294967295;

/// One storage cell: a key, meaningful only while `occupied` is set.
#[derive(Clone, Copy)]
struct Slot {
    value: i32,
    occupied: bool,
}

/// A fixed-capacity cuckoo hash table over `i32` keys.
///
/// Abstractly the table is the set of keys it holds, `self@`; `wf()` ties that
/// set to the slots: every stored key sits in the bucket its current hash
/// function assigns to it, no key is stored twice, and `size` counts the
/// occupied slots.
pub struct CuckooHashTable {
    size: usize,
    buckets_per_table: usize,
    total_buckets: usize,
    buckets: Vec<Vec<Slot>>,
    hashes: Vec<HashFunction>,
    family: HashFamily,
}

/// How many slots of `s` are occupied.
spec fn occ_count(s: Seq<Slot>) -> int
    decreases s.len(),
{
    if s.len() == 0 {
        0
    } else {
        occ_count(s.drop_last()) + if s.last().occupied {
            1int
        } else {
            0int
        }
    }
}

proof fn lemma_occ_count_bounds(s: Seq<Slot>)
    ensures
        0 <= occ_count(s) <= s.len(),
    decreases s.len(),
{
    if s.len() > 0 {
        lemma_occ_count_bounds(s.drop_last());
    }
}

/// Overwriting one slot changes the occupancy count by the difference of the
/// two slots' flags.
proof fn lemma_occ_count_update(s: Seq<Slot>, j: int, v: Slot)
    requires
        0 <= j < s.len(),
    ensures
        occ_count(s.update(j, v)) == occ_count(s) - (if s[j].occupied {
            1int
        } else {
            0int
        }) + (if v.occupied {
            1int
        } else {
            0int
        }),
    decreases s.len(),
{
    let su = s.update(j, v);
    if j == s.len() - 1 {
        assert(su.drop_last() =~= s.drop_last());
    } else {
        assert(su.drop_last() =~= s.drop_last().update(j, v));
        lemma_occ_count_update(s.drop_last(), j, v);
    }
}

/// An occupied slot makes the occupancy count positive.
proof fn lemma_occ_count_pos(s: Seq<Slot>, j: int)
    requires
        0 <= j < s.len(),
        s[j].occupied,
    ensures
        occ_count(s) >= 1,
    decreases s.len(),
{
    lemma_occ_count_bounds(s.drop_last());
    if j < s.len() - 1 {
        lemma_occ_count_pos(s.drop_last(), j);
    }
}

proof fn lemma_occ_count_all_empty(s: Seq<Slot>)
    requires
        forall|j: int| 0 <= j < s.len() ==> !(#[trigger] s[j]).occupied,
    ensures
        occ_count(s) == 0,
    decreases s.len(),
{
    if s.len() > 0 {
        lemma_occ_count_all_empty(s.drop_last());
    }
}

/// Whether some occupied slot of `s` holds `k`.
spec fn region_has(s: Seq<Slot>, k: i32) -> bool {
    exists|j: int| 0 <= j < s.len() && (#[trigger] s[j]).occupied && s[j].value == k
}

/// Scanning one more slot extends both the occupancy count and the set of
/// keys seen by exactly that slot's contribution.
proof fn lemma_scan_step(s: Seq<Slot>, j: int)
    requires
        0 <= j < s.len(),
    ensures
        occ_count(s.take(j + 1)) == occ_count(s.take(j)) + (if s[j].occupied {
            1int
        } else {
            0int
        }),
        forall|k: i32|
            #[trigger] region_has(s.take(j + 1), k) <==> (region_has(s.take(j), k) || (
            s[j].occupied && s[j].value == k)),
{
    assert(s.take(j + 1).drop_last() =~= s.take(j));
    assert(s.take(j + 1).last() == s[j]);
    assert forall|k: i32|
        #[trigger] region_has(s.take(j + 1), k) <==> (region_has(s.take(j), k) || (s[j].occupied
            && s[j].value == k)) by {
        if region_has(s.take(j + 1), k) {
            let w = choose|w: int|
                0 <= w < j + 1 && (#[trigger] s.take(j + 1)[w]).occupied && s.take(j + 1)[w].value
                    == k;
            if w < j {
                assert(s.take(j)[w].occupied && s.take(j)[w].value == k);
            }
        }
        if region_has(s.take(j), k) {
            let w = choose|w: int|
                0 <= w < j && (#[trigger] s.take(j)[w]).occupied && s.take(j)[w].value == k;
            assert(s.take(j + 1)[w].occupied && s.take(j + 1)[w].value == k);
        }
        if s[j].occupied && s[j].value == k {
            assert(s.take(j + 1)[j].occupied && s.take(j + 1)[j].value == k);
        }
    }
}

/// The displacement chain, run deterministically on the slot arrays: the
/// carried key goes to its bucket of table `d % 2`; a free bucket ends the
/// chain, an occupied one is overwritten and its resident carried onward.
/// Yields whether the chain placed every key within `bound` steps, and the
/// two slot arrays as the chain left them.
spec fn chain_run(
    t0: Seq<Slot>,
    t1: Seq<Slot>,
    h0: HashFunction,
    h1: HashFunction,
    bpt: int,
    data: i32,
    d: int,
    bound: int,
) -> (bool, Seq<Slot>, Seq<Slot>)
    decreases bound - d,
{
    if d >= bound {
        (false, t0, t1)
    } else if d % 2 == 0 {
        let b = hash_value(h0, data) % bpt;
        if !t0[b].occupied {
            (true, t0.update(b, Slot { value: data, occupied: true }), t1)
        } else {
            chain_run(
                t0.update(b, Slot { value: data, occupied: true }),
                t1,
                h0,
                h1,
                bpt,
                t0[b].value,
                d + 1,
                bound,
            )
        }
    } else {
        let b = hash_value(h1, data) % bpt;
        if !t1[b].occupied {
            (true, t0, t1.update(b, Slot { value: data, occupied: true }))
        } else {
            chain_run(
                t0,
                t1.update(b, Slot { value: data, occupied: true }),
                h0,
                h1,
                bpt,
                t1[b].value,
                d + 1,
                bound,
            )
        }
    }
}

/// Whether one reinsertion pass succeeds: each key of `values[i..]` in turn
/// placed by its own displacement chain, over the slots the previous chains
/// left behind.
spec fn batch_places(
    t0: Seq<Slot>,
    t1: Seq<Slot>,
    h0: HashFunction,
    h1: HashFunction,
    bpt: int,
    values: Seq<i32>,
    i: int,
    bound: int,
) -> bool
    decreases values.len() - i,
{
    if i >= values.len() {
        true
    } else {
        let run = chain_run(t0, t1, h0, h1, bpt, values[i], 0, bound);
        run.0 && batch_places(run.1, run.2, h0, h1, bpt, values, i + 1, bound)
    }
}

impl CuckooHashTable {
    /// The number of keys currently stored.
    pub closed spec fn spec_size(self) -> int {
        self.size as int
    }

    /// The capacity the table was constructed with.
    pub closed spec fn spec_total_buckets(self) -> int {
        self.total_buckets as int
    }

    /// The length of each of the two slot arrays.
    pub closed spec fn spec_buckets_per_table(self) -> int {
        self.buckets_per_table as int
    }

    spec fn table(self, t: int) -> Seq<Slot> {
        self.buckets@[t]@
    }

    /// The bucket that table `t`'s current hash function assigns to `key`.
    spec fn bucket_of(self, key: i32, t: int) -> int {
        hash_value(self.hashes@[t], key) % self.spec_buckets_per_table()
    }

    /// Whether `key` sits in its designated bucket of table `t`.
    spec fn slot_hit(self, key: i32, t: int) -> bool {
        let s = self.table(t)[self.bucket_of(key, t)];
        s.occupied && s.value == key
    }

    /// Whether `key` is stored: it sits in its designated bucket of one of the
    /// two tables, which is exactly where `contains` looks.
    pub closed spec fn has_key(self, key: i32) -> bool {
        self.slot_hit(key, 0) || self.slot_hit(key, 1)
    }

    spec fn occ_total(self) -> int {
        occ_count(self.table(0)) + occ_count(self.table(1))
    }

    /// Whether the displacement chain for `key` — a deterministic function of
    /// the current slots and hash functions, no randomness involved — places
    /// every displaced key within `bound` steps. This is exactly the
    /// condition under which `insert` succeeds without falling back to a
    /// rehash.
    pub closed spec fn chain_places(self, key: i32, bound: int) -> bool {
        chain_run(
            self.table(0),
            self.table(1),
            self.hashes@[0],
            self.hashes@[1],
            self.spec_buckets_per_table(),
            key,
            0,
            bound,
        ).0
    }

    /// On an empty, well-formed table any key places at once: its first
    /// designated bucket is free.
    proof fn lemma_empty_chain(self, key: i32, bound: int)
        requires
            self.wf(),
            self@ == Set::<i32>::empty(),
            bound >= 1,
        ensures
            self.chain_places(key, bound),
    {
        let b = self.bucket_of(key, 0);
        vstd::arithmetic::div_mod::lemma_mod_bound(
            hash_value(self.hashes@[0], key),
            self.spec_buckets_per_table(),
        );
        if self.table(0)[b].occupied {
            let v = self.table(0)[b].value;
            assert(b == self.bucket_of(v, 0));
            assert(self.slot_hit(v, 0));
            assert(self@.contains(v));
            assert(!Set::<i32>::empty().contains(v));
            assert(false);
        }
        assert(chain_run(
            self.table(0),
            self.table(1),
            self.hashes@[0],
            self.hashes@[1],
            self.spec_buckets_per_table(),
            key,
            0,
            bound,
        ).0);
    }

    /// The two slot arrays and the two hash functions are present and equally
    /// sized.
    spec fn shape_ok(self) -> bool {
        &&& self.buckets@.len() == 2
        &&& self.table(0).len() == self.spec_buckets_per_table()
        &&& self.table(1).len() == self.spec_buckets_per_table()
        &&& self.hashes@.len() == 2
        &&& self.buckets_per_table >= 1
    }

    /// No key sits in two occupied slots.
    spec fn slots_unique(self) -> bool {
        forall|t1: int, j1: int, t2: int, j2: int|
            #![trigger self.table(t1)[j1], self.table(t2)[j2]]
            0 <= t1 < 2 && 0 <= j1 < self.spec_buckets_per_table() && 0 <= t2 < 2 && 0 <= j2
                < self.spec_buckets_per_table() && self.table(t1)[j1].occupied && self.table(
                t2,
            )[j2].occupied && self.table(t1)[j1].value == self.table(t2)[j2].value ==> t1 == t2
                && j1 == j2
    }

    /// Every occupied slot is the bucket its key hashes to under the current
    /// hash functions.
    spec fn slots_consistent(self) -> bool {
        forall|t: int, j: int|
            0 <= t < 2 && 0 <= j < self.spec_buckets_per_table() && (#[trigger] self.table(
                t,
            )[j]).occupied ==> j == self.bucket_of(self.table(t)[j].value, t)
    }

    spec fn slots_ok(self) -> bool {
        self.shape_ok() && self.slots_unique() && self.slots_consistent()
    }

    /// The table's invariant: well-shaped slot arrays, each stored key in its
    /// designated bucket, no duplicates, `size` equal to the number of occupied
    /// slots, and each array exactly half the requested capacity.
    pub closed spec fn wf(self) -> bool {
        &&& self.slots_ok()
        &&& self.size as int == self.occ_total()
        &&& self.size <= self.total_buckets
        &&& self.buckets_per_table as int == self.total_buckets as int / 2
    }

    /// Whether `insert(key)` is within the table's contract: a key already
    /// present is always accepted (and ignored); a fresh key needs a free slot.
    pub open spec fn insert_allowed(self, key: i32) -> bool {
        self@.contains(key) || self.spec_size() < self.spec_total_buckets()
    }

    /// The stored-key set reads only the slots, the hash functions and the
    /// array length, so it survives changes to the other fields.
    proof fn lemma_view_from_slots(a: Self, b: Self)
        requires
            a.buckets == b.buckets,
            a.hashes == b.hashes,
            a.buckets_per_table == b.buckets_per_table,
        ensures
            forall|k: i32| #[trigger] a.has_key(k) == b.has_key(k),
            a@ == b@,
    {
        assert forall|k: i32| #[trigger] a.has_key(k) == b.has_key(k) by {
            assert(a.bucket_of(k, 0) == b.bucket_of(k, 0));
            assert(a.bucket_of(k, 1) == b.bucket_of(k, 1));
        }
        assert(a@ =~= b@);
    }

    /// An occupied slot never holds a key the table does not have: such a slot
    /// would have to be the key's designated bucket.
    proof fn lemma_absent_key_no_slot(self, key: i32)
        requires
            self.slots_ok(),
            !self.has_key(key),
        ensures
            forall|t: int, j: int|
                0 <= t < 2 && 0 <= j < self.spec_buckets_per_table() && (#[trigger] self.table(
                    t,
                )[j]).occupied ==> self.table(t)[j].value != key,
    {
        assert forall|t: int, j: int|
            0 <= t < 2 && 0 <= j < self.spec_buckets_per_table() && (#[trigger] self.table(
                t,
            )[j]).occupied implies self.table(t)[j].value != key by {
            if self.table(t)[j].value == key {
                assert(j == self.bucket_of(key, t));
                assert(self.slot_hit(key, t));
            }
        }
    }
}

impl View for CuckooHashTable {
    type V = Set<i32>;

    /// The set of stored keys.
    closed spec fn view(&self) -> Set<i32> {
        Set::new(|k: i32| self.has_key(k))
    }
}

/// A slot array of `n` cells, all unoccupied.
fn empty_table(n: usize) -> (r: Vec<Slot>)
    ensures
        r@.len() == n,
        forall|j: int| 0 <= j < n ==> !(#[trigger] r@[j]).occupied,
        occ_count(r@) == 0,
{
    let mut t: Vec<Slot> = Vec::new();
    while t.len() < n
        invariant
            t@.len() <= n,
            forall|j: int| 0 <= j < t@.len() ==> !(#[trigger] t@[j]).occupied,
        decreases n - t@.len(),
    {
        t.push(Slot { value: 0, occupied: false });
    }
    proof {
        lemma_occ_count_all_empty(t@);
    }
    t
}

impl CuckooHashTable {
    /// Builds a table of `num_buckets` slots in all — half per array, with an
    /// odd unit of capacity truncated away — and draws one initial hash
    /// function per array from `family`.
    pub fn new(num_buckets: usize, family: HashFamily) -> (r: CuckooHashTable)
        requires
            num_buckets >= 2,
        ensures
            r.wf(),
            r@ == Set::<i32>::empty(),
            r.spec_size() == 0,
            r.spec_total_buckets() == num_buckets as int,
            r.spec_buckets_per_table() == num_buckets as int / 2,
    {
        let table_size: usize = num_buckets / NUM_TABLES;
        let mut t: Vec<Vec<Slot>> = Vec::new();
        t.push(empty_table(table_size));
        t.push(empty_table(table_size));
        let mut hashes: Vec<HashFunction> = Vec::new();
        hashes.push(family.get());
        hashes.push(family.get());
        let r = CuckooHashTable {
            size: 0,
            total_buckets: num_buckets,
            buckets_per_table: table_size,
            buckets: t,
            hashes,
            family,
        };
        proof {
            assert(r@ =~= Set::<i32>::empty());
        }
        r
    }

    /// The number of keys currently stored.
    pub fn len(&self) -> (r: usize)
        ensures
            r as int == self.spec_size(),
    {
        self.size
    }

    /// The bucket `key` hashes to in table `table` under the current functions.
    fn get_bucket(&self, key: i32, table: usize) -> (r: usize)
        requires
            self.shape_ok(),
            table < 2,
        ensures
            r as int == self.bucket_of(key, table as int),
            r < self.buckets_per_table,
    {
        self.hashes[table].apply(key) % self.buckets_per_table
    }

    /// What one slot write does to the table: writing `data` into its
    /// designated bucket of table `t` adds `data` to the stored keys and, if
    /// the bucket was occupied, evicts the key that sat there.
    proof fn lemma_write_slot(pre: Self, post: Self, t: int, data: i32)
        requires
            pre.slots_ok(),
            !pre.has_key(data),
            0 <= t < 2,
            post.buckets@.len() == 2,
            post.table(t) == pre.table(t).update(
                pre.bucket_of(data, t),
                Slot { value: data, occupied: true },
            ),
            post.table(1 - t) == pre.table(1 - t),
            post.hashes@ == pre.hashes@,
            post.buckets_per_table == pre.buckets_per_table,
        ensures
            post.slots_ok(),
            pre.table(t)[pre.bucket_of(data, t)].occupied ==> {
                let v = pre.table(t)[pre.bucket_of(data, t)].value;
                &&& post.occ_total() == pre.occ_total()
                &&& !post.has_key(v)
                &&& v != data
                &&& forall|k: i32|
                    (#[trigger] post.has_key(k) || k == v) <==> (pre.has_key(k) || k == data)
            },
            !pre.table(t)[pre.bucket_of(data, t)].occupied ==> {
                &&& post.occ_total() == pre.occ_total() + 1
                &&& forall|k: i32| #[trigger] post.has_key(k) <==> (pre.has_key(k) || k == data)
            },
    {
        let u = 1 - t;
        let b = pre.bucket_of(data, t);
        let news = Slot { value: data, occupied: true };
        let olds = pre.table(t)[b];
        pre.lemma_absent_key_no_slot(data);
        vstd::arithmetic::div_mod::lemma_mod_bound(
            hash_value(pre.hashes@[t], data),
            pre.spec_buckets_per_table(),
        );
        assert(0 <= b < pre.spec_buckets_per_table());
        // Buckets are assigned by the same hash functions before and after.
        assert forall|k: i32, t2: int| 0 <= t2 < 2 implies #[trigger] post.bucket_of(k, t2)
            == pre.bucket_of(k, t2) by {}
        // Every slot but `(t, b)` is unchanged.
        assert forall|t2: int, j2: int|
            0 <= t2 < 2 && 0 <= j2 < pre.spec_buckets_per_table() && !(t2 == t && j2
                == b) implies #[trigger] post.table(t2)[j2] == pre.table(t2)[j2] by {}
        assert(post.table(t)[b] == news);
        assert(post.shape_ok());
        // No slot but `(t, b)` can hold `data`, and in `pre` none did.
        assert(post.slots_unique()) by {
            assert forall|t1: int, j1: int, t2: int, j2: int|
                #![trigger post.table(t1)[j1], post.table(t2)[j2]]
                0 <= t1 < 2 && 0 <= j1 < post.spec_buckets_per_table() && 0 <= t2 < 2 && 0 <= j2
                    < post.spec_buckets_per_table() && post.table(t1)[j1].occupied && post.table(
                    t2,
                )[j2].occupied && post.table(t1)[j1].value == post.table(t2)[j2].value implies t1
                == t2 && j1 == j2 by {
                if t1 == t && j1 == b {
                    if !(t2 == t && j2 == b) {
                        assert(pre.table(t2)[j2].occupied && pre.table(t2)[j2].value == data);
                    }
                } else if t2 == t && j2 == b {
                    assert(pre.table(t1)[j1].occupied && pre.table(t1)[j1].value == data);
                } else {
                    assert(pre.table(t1)[j1] == post.table(t1)[j1]);
                    assert(pre.table(t2)[j2] == post.table(t2)[j2]);
                }
            }
        }
        assert(post.slots_consistent()) by {
            assert forall|t2: int, j2: int|
                0 <= t2 < 2 && 0 <= j2 < post.spec_buckets_per_table() && (#[trigger] post.table(
                    t2,
                )[j2]).occupied implies j2 == post.bucket_of(post.table(t2)[j2].value, t2) by {
                if t2 == t && j2 == b {
                    assert(post.table(t2)[j2].value == data);
                } else {
                    assert(post.table(t2)[j2] == pre.table(t2)[j2]);
                }
            }
        }
        // Occupancy counts.
        lemma_occ_count_update(pre.table(t), b, news);
        assert(post.table(u) == pre.table(u));
        // Membership.
        if olds.occupied {
            let v = olds.value;
            assert(v != data);
            assert(b == pre.bucket_of(v, t));
            assert(!post.has_key(v)) by {
                assert(post.table(t)[post.bucket_of(v, t)].value == data);
                if post.slot_hit(v, u) {
                    assert(pre.table(u)[pre.bucket_of(v, u)].occupied && pre.table(
                        u,
                    )[pre.bucket_of(v, u)].value == v);
                    assert(pre.table(t)[b].occupied && pre.table(t)[b].value == v);
                    assert(false);
                }
            }
            assert forall|k: i32|
                (#[trigger] post.has_key(k) || k == v) <==> (pre.has_key(k)
                    || k == data) by {
                assert(post.slot_hit(k, u) == pre.slot_hit(k, u));
                if k == data {
                    assert(post.bucket_of(data, t) == b);
                    assert(post.slot_hit(data, t));
                } else if k == v {
                    assert(pre.slot_hit(v, t));
                } else {
                    if pre.bucket_of(k, t) == b {
                        assert(!post.slot_hit(k, t));
                        assert(!pre.slot_hit(k, t));
                    } else {
                        assert(post.table(t)[post.bucket_of(k, t)] == pre.table(t)[pre.bucket_of(
                            k,
                            t,
                        )]);
                    }
                }
            }
        } else {
            assert forall|k: i32| #[trigger]
                post.has_key(k) <==> (pre.has_key(k) || k == data) by {
                assert(post.slot_hit(k, u) == pre.slot_hit(k, u));
                if k == data {
                    assert(post.slot_hit(data, t));
                } else {
                    if pre.bucket_of(k, t) == b {
                        assert(!post.slot_hit(k, t));
                        assert(!pre.slot_hit(k, t));
                    } else {
                        assert(post.table(t)[post.bucket_of(k, t)] == pre.table(t)[pre.bucket_of(
                            k,
                            t,
                        )]);
                    }
                }
            }
        }
    }

    /// Whether `key` is stored: looks at `key`'s designated bucket in each
    /// table, the only places the invariant allows it to sit.
    pub fn contains(&self, key: i32) -> (r: bool)
        requires
            self.wf(),
        ensures
            r == self@.contains(key),
    {
        let b0: usize = self.get_bucket(key, 0);
        let b1: usize = self.get_bucket(key, 1);
        let s0 = &self.buckets[0][b0];
        if s0.occupied && s0.value == key {
            return true;
        }
        let s1 = &self.buckets[1][b1];
        if s1.occupied && s1.value == key {
            return true;
        }
        false
    }

    /// Runs the displacement chain for `key`: up to `bound` evictions,
    /// alternating between the two tables. Returns `None` once a key lands in
    /// a free slot, or `Some(evicted)` with the key left in hand when the
    /// chain is exhausted — exactly as the deterministic `chain_run` of the
    /// starting state predicts, slot for slot. The stored keys gain `key`
    /// and, on failure, lose the evicted survivor; `size` is left untouched.
    fn try_place(&mut self, key: i32, bound: usize) -> (r: Option<i32>)
        requires
            old(self).slots_ok(),
            !old(self).has_key(key),
        ensures
            final(self).slots_ok(),
            final(self).hashes@ == old(self).hashes@,
            final(self).size == old(self).size,
            final(self).buckets_per_table == old(self).buckets_per_table,
            final(self).total_buckets == old(self).total_buckets,
            final(self).family == old(self).family,
            match r {
                None => {
                    &&& final(self).occ_total() == old(self).occ_total() + 1
                    &&& forall|k: i32|
                        #[trigger] final(self).has_key(k) <==> (old(self).has_key(k) || k == key)
                },
                Some(evicted) => {
                    &&& final(self).occ_total() == old(self).occ_total()
                    &&& !final(self).has_key(evicted)
                    &&& forall|k: i32|
                        (#[trigger] final(self).has_key(k) || k == evicted) <==> (old(
                            self,
                        ).has_key(k) || k == key)
                },
            },
            ({
                let run = chain_run(
                    old(self).table(0),
                    old(self).table(1),
                    old(self).hashes@[0],
                    old(self).hashes@[1],
                    old(self).spec_buckets_per_table(),
                    key,
                    0,
                    bound as int,
                );
                &&& (r is None <==> run.0)
                &&& final(self).table(0) == run.1
                &&& final(self).table(1) == run.2
            }),
    {
        let mut data: i32 = key;
        let mut d: usize = 0;
        while d < bound
            invariant
                self.slots_ok(),
                self.hashes@ == old(self).hashes@,
                self.size == old(self).size,
                self.buckets_per_table == old(self).buckets_per_table,
                self.total_buckets == old(self).total_buckets,
                self.family == old(self).family,
                self.occ_total() == old(self).occ_total(),
                !self.has_key(data),
                forall|k: i32|
                    (#[trigger] self.has_key(k) || k == data) <==> (old(self).has_key(k) || k
                        == key),
                d <= bound,
                chain_run(
                    old(self).table(0),
                    old(self).table(1),
                    old(self).hashes@[0],
                    old(self).hashes@[1],
                    old(self).spec_buckets_per_table(),
                    key,
                    0,
                    bound as int,
                ) == chain_run(
                    self.table(0),
                    self.table(1),
                    old(self).hashes@[0],
                    old(self).hashes@[1],
                    old(self).spec_buckets_per_table(),
                    data,
                    d as int,
                    bound as int,
                ),
            decreases bound - d,
        {
            let table: usize = d % NUM_TABLES;
            let b: usize = self.get_bucket(data, table);
            let ghost pre = *self;
            if !self.buckets[table][b].occupied {
                self.buckets[table][b] = Slot { value: data, occupied: true };
                proof {
                    assert(self.table(table as int) =~= pre.table(table as int).update(
                        b as int,
                        Slot { value: data, occupied: true },
                    ));
                    assert(self.table(1 - table as int) =~= pre.table(1 - table as int));
                    Self::lemma_write_slot(pre, *self, table as int, data);
                    assert(chain_run(
                        pre.table(0),
                        pre.table(1),
                        old(self).hashes@[0],
                        old(self).hashes@[1],
                        old(self).spec_buckets_per_table(),
                        data,
                        d as int,
                        bound as int,
                    ) == (true, self.table(0), self.table(1)));
                }
                return None;
            } else {
                let displaced: i32 = self.buckets[table][b].value;
                self.buckets[table][b] = Slot { value: data, occupied: true };
                proof {
                    assert(self.table(table as int) =~= pre.table(table as int).update(
                        b as int,
                        Slot { value: data, occupied: true },
                    ));
                    assert(self.table(1 - table as int) =~= pre.table(1 - table as int));
                    Self::lemma_write_slot(pre, *self, table as int, data);
                    assert(chain_run(
                        pre.table(0),
                        pre.table(1),
                        old(self).hashes@[0],
                        old(self).hashes@[1],
                        old(self).spec_buckets_per_table(),
                        data,
                        d as int,
                        bound as int,
                    ) == chain_run(
                        self.table(0),
                        self.table(1),
                        old(self).hashes@[0],
                        old(self).hashes@[1],
                        old(self).spec_buckets_per_table(),
                        displaced,
                        d as int + 1,
                        bound as int,
                    ));
                }
                data = displaced;
            }
            d = d + 1;
        }
        proof {
            assert(chain_run(
                self.table(0),
                self.table(1),
                old(self).hashes@[0],
                old(self).hashes@[1],
                old(self).spec_buckets_per_table(),
                data,
                d as int,
                bound as int,
            ) == (false, self.table(0), self.table(1)));
        }
        Some(data)
    }

    /// Clears `key`'s slot if `key` is stored; removing an absent key changes
    /// nothing. The key set loses `key` and `size` drops accordingly.
    pub fn remove(&mut self, key: i32)
        requires
            old(self).wf(),
        ensures
            final(self).wf(),
            final(self)@ == old(self)@.remove(key),
            final(self).spec_size() == old(self).spec_size() - (if old(self)@.contains(key) {
                1int
            } else {
                0int
            }),
            final(self).spec_total_buckets() == old(self).spec_total_buckets(),
            final(self).spec_buckets_per_table() == old(self).spec_buckets_per_table(),
    {
        let b0: usize = self.get_bucket(key, 0);
        let b1: usize = self.get_bucket(key, 1);
        let ghost pre = *self;
        let s0 = &self.buckets[0][b0];
        if s0.occupied && s0.value == key {
            self.buckets[0][b0] = Slot { value: key, occupied: false };
            proof {
                lemma_occ_count_pos(pre.table(0), b0 as int);
                lemma_occ_count_bounds(pre.table(1));
            }
            self.size = self.size - 1;
            proof {
                Self::lemma_clear_slot(pre, *self, 0, key, b0 as int);
            }
            return;
        }
        let s1 = &self.buckets[1][b1];
        if s1.occupied && s1.value == key {
            self.buckets[1][b1] = Slot { value: key, occupied: false };
            proof {
                lemma_occ_count_pos(pre.table(1), b1 as int);
                lemma_occ_count_bounds(pre.table(0));
            }
            self.size = self.size - 1;
            proof {
                Self::lemma_clear_slot(pre, *self, 1, key, b1 as int);
            }
            return;
        }
        proof {
            assert(!pre.has_key(key));
            assert(self@ =~= pre@.remove(key));
        }
    }

    /// What clearing `key`'s designated, occupied bucket of table `t` does:
    /// the stored keys lose exactly `key`.
    proof fn lemma_clear_slot(pre: Self, post: Self, t: int, key: i32, b: int)
        requires
            pre.wf(),
            0 <= t < 2,
            b == pre.bucket_of(key, t),
            pre.table(t)[b].occupied,
            pre.table(t)[b].value == key,
            post.buckets@.len() == 2,
            post.table(t) == pre.table(t).update(b, Slot { value: key, occupied: false }),
            post.table(1 - t) == pre.table(1 - t),
            post.hashes@ == pre.hashes@,
            post.buckets_per_table == pre.buckets_per_table,
            post.total_buckets == pre.total_buckets,
            post.size as int == pre.size as int - 1,
        ensures
            post.wf(),
            post@ == pre@.remove(key),
            post.spec_size() == pre.spec_size() - 1,
            pre@.contains(key),
    {
        let u = 1 - t;
        let news = Slot { value: key, occupied: false };
        vstd::arithmetic::div_mod::lemma_mod_bound(
            hash_value(pre.hashes@[t], key),
            pre.spec_buckets_per_table(),
        );
        assert(0 <= b < pre.spec_buckets_per_table());
        assert(pre.slot_hit(key, t));
        assert forall|k: i32, t2: int| 0 <= t2 < 2 implies #[trigger] post.bucket_of(k, t2)
            == pre.bucket_of(k, t2) by {}
        assert forall|t2: int, j2: int|
            0 <= t2 < 2 && 0 <= j2 < pre.spec_buckets_per_table() && !(t2 == t && j2
                == b) implies #[trigger] post.table(t2)[j2] == pre.table(t2)[j2] by {}
        assert(post.shape_ok());
        assert(post.slots_unique()) by {
            assert forall|t1: int, j1: int, t2: int, j2: int|
                #![trigger post.table(t1)[j1], post.table(t2)[j2]]
                0 <= t1 < 2 && 0 <= j1 < post.spec_buckets_per_table() && 0 <= t2 < 2 && 0 <= j2
                    < post.spec_buckets_per_table() && post.table(t1)[j1].occupied && post.table(
                    t2,
                )[j2].occupied && post.table(t1)[j1].value == post.table(t2)[j2].value implies t1
                == t2 && j1 == j2 by {
                if !(t1 == t && j1 == b) && !(t2 == t && j2 == b) {
                    assert(pre.table(t1)[j1] == post.table(t1)[j1]);
                    assert(pre.table(t2)[j2] == post.table(t2)[j2]);
                }
            }
        }
        assert(post.slots_consistent()) by {
            assert forall|t2: int, j2: int|
                0 <= t2 < 2 && 0 <= j2 < post.spec_buckets_per_table() && (#[trigger] post.table(
                    t2,
                )[j2]).occupied implies j2 == post.bucket_of(post.table(t2)[j2].value, t2) by {
                if !(t2 == t && j2 == b) {
                    assert(post.table(t2)[j2] == pre.table(t2)[j2]);
                }
            }
        }
        lemma_occ_count_update(pre.table(t), b, news);
        lemma_occ_count_bounds(post.table(t));
        lemma_occ_count_bounds(post.table(u));
        assert(post.table(u) == pre.table(u));
        assert forall|k: i32| #[trigger] post.has_key(k) <==> (pre.has_key(k) && k != key) by {
            assert(post.slot_hit(k, u) == pre.slot_hit(k, u));
            if k == key {
                assert(!post.slot_hit(key, t));
                if post.slot_hit(key, u) {
                    assert(pre.table(u)[pre.bucket_of(key, u)].occupied && pre.table(
                        u,
                    )[pre.bucket_of(key, u)].value == key);
                    assert(pre.table(t)[b].occupied && pre.table(t)[b].value == key);
                    assert(false);
                }
            } else {
                if pre.bucket_of(k, t) == b {
                    assert(!post.slot_hit(k, t));
                    assert(!pre.slot_hit(k, t));
                } else {
                    assert(post.table(t)[post.bucket_of(k, t)] == pre.table(t)[pre.bucket_of(
                        k,
                        t,
                    )]);
                }
            }
        }
        assert(post@ =~= pre@.remove(key));
    }

    /// Under the slot invariants, a key is stored exactly when some occupied
    /// slot of either table holds it.
    proof fn lemma_has_key_is_region(self)
        requires
            self.slots_ok(),
        ensures
            forall|k: i32|
                #[trigger] self.has_key(k) <==> (region_has(self.table(0), k) || region_has(
                    self.table(1),
                    k,
                )),
    {
        assert forall|k: i32|
            #[trigger] self.has_key(k) <==> (region_has(self.table(0), k) || region_has(
                self.table(1),
                k,
            )) by {
            if self.has_key(k) {
                if self.slot_hit(k, 0) {
                    vstd::arithmetic::div_mod::lemma_mod_bound(
                        hash_value(self.hashes@[0], k),
                        self.spec_buckets_per_table(),
                    );
                    assert(self.table(0)[self.bucket_of(k, 0)].occupied && self.table(
                        0,
                    )[self.bucket_of(k, 0)].value == k);
                } else {
                    vstd::arithmetic::div_mod::lemma_mod_bound(
                        hash_value(self.hashes@[1], k),
                        self.spec_buckets_per_table(),
                    );
                    assert(self.table(1)[self.bucket_of(k, 1)].occupied && self.table(
                        1,
                    )[self.bucket_of(k, 1)].value == k);
                }
            }
            if region_has(self.table(0), k) {
                let w = choose|w: int|
                    0 <= w < self.table(0).len() && (#[trigger] self.table(0)[w]).occupied
                        && self.table(0)[w].value == k;
                assert(w == self.bucket_of(k, 0));
                assert(self.slot_hit(k, 0));
            }
            if region_has(self.table(1), k) {
                let w = choose|w: int|
                    0 <= w < self.table(1).len() && (#[trigger] self.table(1)[w]).occupied
                        && self.table(1)[w].value == k;
                assert(w == self.bucket_of(k, 1));
                assert(self.slot_hit(k, 1));
            }
        }
    }

    /// Collects `extra` and every stored key into one list: the working set a
    /// rehash must place again. The list repeats no key and has one entry per
    /// occupied slot, plus one for `extra`.
    fn snapshot(&self, extra: i32) -> (values: Vec<i32>)
        requires
            self.slots_ok(),
            !self.has_key(extra),
        ensures
            values@.no_duplicates(),
            values@.len() == 1 + self.occ_total(),
            forall|k: i32| #[trigger] values@.contains(k) <==> (self.has_key(k) || k == extra),
    {
        let mut values: Vec<i32> = Vec::new();
        values.push(extra);
        let ghost t0 = self.table(0);
        let ghost t1 = self.table(1);
        proof {
            self.lemma_absent_key_no_slot(extra);
            assert(t0.take(0) =~= Seq::<Slot>::empty());
            assert(t1.take(0) =~= Seq::<Slot>::empty());
            assert forall|k: i32|
                #[trigger] values@.contains(k) <==> (region_has(t0.take(0), k) || k == extra) by {
                if values@.contains(k) {
                    let w = choose|w: int| 0 <= w < values@.len() && values@[w] == k;
                    assert(w == 0);
                }
                if k == extra {
                    assert(values@[0] == k);
                }
            }
        }
        let mut j: usize = 0;
        while j < self.buckets_per_table
            invariant
                self.slots_ok(),
                t0 == self.table(0),
                t1 == self.table(1),
                !self.has_key(extra),
                forall|jj: int|
                    0 <= jj < t0.len() && (#[trigger] t0[jj]).occupied ==> t0[jj].value != extra,
                j <= self.buckets_per_table,
                t0.len() == self.spec_buckets_per_table(),
                values@.no_duplicates(),
                values@.len() == 1 + occ_count(t0.take(j as int)),
                forall|k: i32|
                    #[trigger] values@.contains(k) <==> (region_has(t0.take(j as int), k) || k
                        == extra),
            decreases self.buckets_per_table - j,
        {
            let s = &self.buckets[0][j];
            let ghost prev = values@;
            if s.occupied {
                values.push(s.value);
                proof {
                    assert(t0[j as int].occupied);
                    if region_has(t0.take(j as int), t0[j as int].value) {
                        let w = choose|w: int|
                            0 <= w < j && (#[trigger] t0.take(j as int)[w]).occupied && t0.take(
                                j as int,
                            )[w].value == t0[j as int].value;
                        assert(t0[w].occupied && t0[w].value == t0[j as int].value);
                        assert(false);
                    }
                    assert(!prev.contains(t0[j as int].value));
                    assert(values@ =~= prev.push(t0[j as int].value));
                }
            }
            proof {
                lemma_scan_step(t0, j as int);
                assert forall|k: i32|
                    #[trigger] values@.contains(k) <==> (region_has(t0.take(j as int + 1), k) || k
                        == extra) by {
                    if t0[j as int].occupied {
                        assert(values@ == prev.push(t0[j as int].value));
                        if values@.contains(k) {
                            let w = choose|w: int| 0 <= w < values@.len() && values@[w] == k;
                            if w < prev.len() {
                                assert(prev.contains(k));
                            }
                        }
                        if prev.contains(k) {
                            let w = choose|w: int| 0 <= w < prev.len() && prev[w] == k;
                            assert(values@[w] == k);
                        }
                        if k == t0[j as int].value {
                            assert(values@[prev.len() as int] == k);
                        }
                    }
                }
            }
            j = j + 1;
        }
        proof {
            assert(t0.take(self.spec_buckets_per_table()) =~= t0);
        }
        let mut j: usize = 0;
        while j < self.buckets_per_table
            invariant
                self.slots_ok(),
                t0 == self.table(0),
                t1 == self.table(1),
                !self.has_key(extra),
                forall|jj: int|
                    0 <= jj < t1.len() && (#[trigger] t1[jj]).occupied ==> t1[jj].value != extra,
                j <= self.buckets_per_table,
                t1.len() == self.spec_buckets_per_table(),
                values@.no_duplicates(),
                values@.len() == 1 + occ_count(t0) + occ_count(t1.take(j as int)),
                forall|k: i32|
                    #[trigger] values@.contains(k) <==> (region_has(t0, k) || region_has(
                        t1.take(j as int),
                        k,
                    ) || k == extra),
            decreases self.buckets_per_table - j,
        {
            let s = &self.buckets[1][j];
            let ghost prev = values@;
            if s.occupied {
                values.push(s.value);
                proof {
                    assert(t1[j as int].occupied);
                    if region_has(t1.take(j as int), t1[j as int].value) {
                        let w = choose|w: int|
                            0 <= w < j && (#[trigger] t1.take(j as int)[w]).occupied && t1.take(
                                j as int,
                            )[w].value == t1[j as int].value;
                        assert(t1[w].occupied && t1[w].value == t1[j as int].value);
                        assert(false);
                    }
                    if region_has(t0, t1[j as int].value) {
                        let w = choose|w: int|
                            0 <= w < t0.len() && (#[trigger] t0[w]).occupied && t0[w].value
                                == t1[j as int].value;
                        assert(false);
                    }
                    assert(!prev.contains(t1[j as int].value));
                    assert(values@ =~= prev.push(t1[j as int].value));
                }
            }
            proof {
                lemma_scan_step(t1, j as int);
                assert forall|k: i32|
                    #[trigger] values@.contains(k) <==> (region_has(t0, k) || region_has(
                        t1.take(j as int + 1),
                        k,
                    ) || k == extra) by {
                    if t1[j as int].occupied {
                        assert(values@ == prev.push(t1[j as int].value));
                        if values@.contains(k) {
                            let w = choose|w: int| 0 <= w < values@.len() && values@[w] == k;
                            if w < prev.len() {
                                assert(prev.contains(k));
                            }
                        }
                        if prev.contains(k) {
                            let w = choose|w: int| 0 <= w < prev.len() && prev[w] == k;
                            assert(values@[w] == k);
                        }
                        if k == t1[j as int].value {
                            assert(values@[prev.len() as int] == k);
                        }
                    }
                }
            }
            j = j + 1;
        }
        proof {
            assert(t1.take(self.spec_buckets_per_table()) =~= t1);
            self.lemma_has_key_is_region();
        }
        values
    }

    /// A fresh, empty copy of this table's geometry with two newly drawn hash
    /// functions: the canvas for one rehash attempt.
    fn fresh_attempt(&self) -> (cand: CuckooHashTable)
        requires
            self.shape_ok(),
        ensures
            cand.slots_ok(),
            cand.occ_total() == 0,
            forall|k: i32| !(#[trigger] cand.has_key(k)),
            cand.size == self.size,
            cand.buckets_per_table == self.buckets_per_table,
            cand.total_buckets == self.total_buckets,
    {
        let mut t: Vec<Vec<Slot>> = Vec::new();
        t.push(empty_table(self.buckets_per_table));
        t.push(empty_table(self.buckets_per_table));
        let mut hs: Vec<HashFunction> = Vec::new();
        hs.push(self.family.get());
        hs.push(self.family.get());
        let cand = CuckooHashTable {
            size: self.size,
            buckets_per_table: self.buckets_per_table,
            total_buckets: self.total_buckets,
            buckets: t,
            hashes: hs,
            family: self.family.clone(),
        };
        proof {
            assert forall|k: i32| !(#[trigger] cand.has_key(k)) by {
                vstd::arithmetic::div_mod::lemma_mod_bound(
                    hash_value(cand.hashes@[0], k),
                    cand.spec_buckets_per_table(),
                );
                vstd::arithmetic::div_mod::lemma_mod_bound(
                    hash_value(cand.hashes@[1], k),
                    cand.spec_buckets_per_table(),
                );
            }
            assert(cand.slots_unique());
            assert(cand.slots_consistent());
        }
        cand
    }

    /// One pass of the rehash: tries to place every snapshotted key with the
    /// usual displacement procedure, succeeding exactly when each key's chain
    /// places over the state the previous chains left (`batch_places`). The
    /// displacement bound is recomputed from `size` as it stands; `size`
    /// itself is untouched.
    fn reinsert_all(&mut self, values: &Vec<i32>) -> (ok: bool)
        requires
            old(self).slots_ok(),
            old(self).occ_total() == 0,
            forall|k: i32| !(#[trigger] old(self).has_key(k)),
            values@.no_duplicates(),
        ensures
            final(self).slots_ok(),
            final(self).size == old(self).size,
            final(self).buckets_per_table == old(self).buckets_per_table,
            final(self).total_buckets == old(self).total_buckets,
            final(self).family == old(self).family,
            ok ==> final(self).occ_total() == values@.len() && (forall|k: i32|
                #[trigger] final(self).has_key(k) <==> values@.contains(k)),
            ok <==> batch_places(
                old(self).table(0),
                old(self).table(1),
                old(self).hashes@[0],
                old(self).hashes@[1],
                old(self).spec_buckets_per_table(),
                values@,
                0,
                displacement_bound(old(self).size as int),
            ),
    {
        let mut idx: usize = 0;
        while idx < values.len()
            invariant
                self.slots_ok(),
                self.size == old(self).size,
                self.hashes@ == old(self).hashes@,
                self.buckets_per_table == old(self).buckets_per_table,
                self.total_buckets == old(self).total_buckets,
                self.family == old(self).family,
                idx <= values@.len(),
                values@.no_duplicates(),
                self.occ_total() == idx,
                forall|k: i32|
                    #[trigger] self.has_key(k) <==> values@.subrange(0, idx as int).contains(k),
                batch_places(
                    old(self).table(0),
                    old(self).table(1),
                    old(self).hashes@[0],
                    old(self).hashes@[1],
                    old(self).spec_buckets_per_table(),
                    values@,
                    0,
                    displacement_bound(old(self).size as int),
                ) == batch_places(
                    self.table(0),
                    self.table(1),
                    old(self).hashes@[0],
                    old(self).hashes@[1],
                    old(self).spec_buckets_per_table(),
                    values@,
                    idx as int,
                    displacement_bound(old(self).size as int),
                ),
            decreases values@.len() - idx,
        {
            let v: i32 = values[idx];
            proof {
                if self.has_key(v) {
                    let w = choose|w: int|
                        0 <= w < idx && values@.subrange(0, idx as int)[w] == v;
                    assert(values@[w] == v && values@[idx as int] == v);
                    assert(false);
                }
            }
            let bound: usize = max_displacements(self.size);
            let ghost before = *self;
            let ghost run = chain_run(
                before.table(0),
                before.table(1),
                old(self).hashes@[0],
                old(self).hashes@[1],
                old(self).spec_buckets_per_table(),
                v,
                0,
                bound as int,
            );
            match self.try_place(v, bound) {
                None => {
                    proof {
                        assert(run.0 && self.table(0) == run.1 && self.table(1) == run.2);
                        assert(batch_places(
                            before.table(0),
                            before.table(1),
                            old(self).hashes@[0],
                            old(self).hashes@[1],
                            old(self).spec_buckets_per_table(),
                            values@,
                            idx as int,
                            bound as int,
                        ) == batch_places(
                            self.table(0),
                            self.table(1),
                            old(self).hashes@[0],
                            old(self).hashes@[1],
                            old(self).spec_buckets_per_table(),
                            values@,
                            idx as int + 1,
                            bound as int,
                        ));
                        assert(values@.subrange(0, idx as int + 1) =~= values@.subrange(
                            0,
                            idx as int,
                        ).push(v));
                        assert forall|k: i32|
                            #[trigger] self.has_key(k) <==> values@.subrange(
                                0,
                                idx as int + 1,
                            ).contains(k) by {
                            let sub = values@.subrange(0, idx as int);
                            if self.has_key(k) {
                                if before.has_key(k) {
                                    let w = choose|w: int| 0 <= w < sub.len() && sub[w] == k;
                                    assert(sub.push(v)[w] == k);
                                }  else  {
                                    assert(sub.push(v)[sub.len() as int] == k);
                                }
                            }
                            if values@.subrange(0, idx as int + 1).contains(k) {
                                let w = choose|w: int|
                                    0 <= w < sub.push(v).len() && sub.push(v)[w] == k;
                                if w < sub.len() {
                                    assert(sub[w] == k);
                                }
                            }
                        }
                    }
                    idx = idx + 1;
                },
                Some(_) => {
                    proof {
                        assert(!run.0);
                        assert(!batch_places(
                            before.table(0),
                            before.table(1),
                            old(self).hashes@[0],
                            old(self).hashes@[1],
                            old(self).spec_buckets_per_table(),
                            values@,
                            idx as int,
                            bound as int,
                        ));
                    }
                    return false;
                },
            }
        }
        proof {
            assert(values@.subrange(0, values@.len() as int) =~= values@);
            assert(batch_places(
                self.table(0),
                self.table(1),
                old(self).hashes@[0],
                old(self).hashes@[1],
                old(self).spec_buckets_per_table(),
                values@,
                idx as int,
                displacement_bound(old(self).size as int),
            ));
        }
        true
    }

    /// Rebuilds the table around the stored keys plus `extra`: draws fresh
    /// hash function pairs until one displacement pass places the entire
    /// working set, building each attempt in a fresh pair of slot arrays so
    /// that a failed pass is discarded wholesale. Success means every key of
    /// the working set is stored under the new functions; after
    /// `MAX_REHASH_ATTEMPTS` fruitless draws — beyond reach in practice — the
    /// table is left exactly as it was. `size` is not adjusted here.
    fn rehash(&mut self, extra: i32) -> (placed: bool)
        requires
            old(self).slots_ok(),
            !old(self).has_key(extra),
        ensures
            final(self).size == old(self).size,
            final(self).buckets_per_table == old(self).buckets_per_table,
            final(self).total_buckets == old(self).total_buckets,
            final(self).family == old(self).family,
            placed ==> final(self).slots_ok() && final(self).occ_total() == old(
                self,
            ).occ_total() + 1 && (forall|k: i32|
                #[trigger] final(self).has_key(k) <==> (old(self).has_key(k) || k == extra)),
            !placed ==> *final(self) == *old(self),
    {
        let values = self.snapshot(extra);
        let mut attempts: u64 = 0;
        while attempts < MAX_REHASH_ATTEMPTS
            invariant
                *self == *old(self),
                self.slots_ok(),
                values@.no_duplicates(),
                values@.len() == self.occ_total() + 1,
                forall|k: i32|
                    #[trigger] values@.contains(k) <==> (self.has_key(k) || k == extra),
            decreases MAX_REHASH_ATTEMPTS - attempts,
        {
            let mut cand = self.fresh_attempt();
            if cand.reinsert_all(&values) {
                self.buckets = cand.buckets;
                self.hashes = cand.hashes;
                proof {
                    assert(self.table(0) == cand.table(0));
                    assert(self.table(1) == cand.table(1));
                    assert forall|k: i32| #[trigger] self.has_key(k) <==> cand.has_key(k) by {
                        assert(self.bucket_of(k, 0) == cand.bucket_of(k, 0));
                        assert(self.bucket_of(k, 1) == cand.bucket_of(k, 1));
                    }
                }
                return true;
            }
            attempts = attempts + 1;
        }
        false
    }

    /// A well-formed table's size is a count: never negative, never past the
    /// constructed capacity. Exported so that a caller who reads `len` can
    /// conclude `insert_allowed` from `len() != total_buckets`.
    pub proof fn lemma_size_bounds(self)
        requires
            self.wf(),
        ensures
            0 <= self.spec_size() <= self.spec_total_buckets(),
    {
    }

    /// Bucket consistency: a key belongs to the table's abstract set exactly
    /// when it sits in a designated bucket under the *now-current* hash
    /// functions — the only places `contains` looks. With `insert`'s
    /// postcondition this means every resident key stays discoverable after
    /// any insert, including one that rehashed and replaced both functions.
    pub proof fn lemma_resident_discoverable(t: CuckooHashTable, k: i32)
        ensures
            t@.contains(k) <==> t.has_key(k),
    {
        assert(t@.contains(k) == t.has_key(k));
    }

    /// Adds `key` to the table: a no-op if `key` is already stored, otherwise
    /// a free slot is found within the displacement bound or, failing that,
    /// by rehashing, and `size` grows by one. A fresh key may only be
    /// inserted while the table is below its constructed capacity.
    ///
    /// Returns `None` on success. Success is guaranteed — no random draw is
    /// consulted — for a key already stored, for any key on an empty table,
    /// and in general whenever the deterministic displacement chain places
    /// within the bound (`chain_places`). `Some(evicted)` is the pathological
    /// outcome — every one of `MAX_REHASH_ATTEMPTS` freshly drawn hash
    /// function pairs failed to place the working set: `key` is stored, but
    /// the one displaced survivor `evicted` has fallen out of the table.
    pub fn insert(&mut self, key: i32) -> (r: Option<i32>)
        requires
            old(self).wf(),
            old(self).insert_allowed(key),
        ensures
            final(self).wf(),
            final(self).spec_total_buckets() == old(self).spec_total_buckets(),
            final(self).spec_buckets_per_table() == old(self).spec_buckets_per_table(),
            r is None ==> final(self)@ == old(self)@.insert(key) && final(self).spec_size()
                == old(self).spec_size() + (if old(self)@.contains(key) {
                0int
            } else {
                1int
            }),
            r matches Some(evicted) ==> !old(self)@.contains(key) && (old(self)@.contains(evicted)
                || evicted == key) && final(self)@ == old(self)@.insert(key).remove(evicted)
                && final(self).spec_size() == old(self).spec_size(),
            old(self)@.contains(key) ==> r is None,
            old(self).chain_places(key, displacement_bound(old(self).spec_size())) ==> r is None,
            old(self)@ == Set::<i32>::empty() ==> r is None,
    {
        if self.contains(key) {
            proof {
                assert(self@ =~= self@.insert(key));
            }
            return None;
        }
        // Unreachable under the precondition; kept as the original's guard
        // against inserting a fresh key into a full table.
        if self.size == self.total_buckets {
            return Some(key);
        }
        let bound: usize = max_displacements(self.size);
        let ghost pre = *self;
        match self.try_place(key, bound) {
            None => {
                let ghost mid = *self;
                self.size = self.size + 1;
                proof {
                    Self::lemma_view_from_slots(mid, *self);
                    assert forall|k: i32| #[trigger] self@.contains(k) <==> (pre@.contains(k) || k
                        == key) by {
                        assert(self@.contains(k) == self.has_key(k));
                        assert(self.has_key(k) == mid.has_key(k));
                        assert(pre@.contains(k) == pre.has_key(k));
                    }
                    assert(self@ =~= pre@.insert(key));
                }
                None
            },
            Some(evicted) => {
                let ghost mid = *self;
                if self.rehash(evicted) {
                    let ghost reh = *self;
                    self.size = self.size + 1;
                    proof {
                        Self::lemma_view_from_slots(reh, *self);
                        assert forall|k: i32| #[trigger] self@.contains(k) <==> (pre@.contains(k)
                            || k == key) by {
                            assert(self@.contains(k) == self.has_key(k));
                            assert(self.has_key(k) == reh.has_key(k));
                            assert(reh.has_key(k) <==> (mid.has_key(k) || k == evicted));
                            assert(pre@.contains(k) == pre.has_key(k));
                        }
                        assert(self@ =~= pre@.insert(key));
                    }
                    None
                } else {
                    proof {
                        assert(!pre.chain_places(key, bound as int));
                        if pre@ == Set::<i32>::empty() {
                            pre.lemma_empty_chain(key, bound as int);
                        }
                        assert forall|k: i32| #[trigger] self@.contains(k) <==> ((pre@.contains(k)
                            || k == key) && k != evicted) by {
                            assert(self@.contains(k) == self.has_key(k));
                            assert(self.has_key(k) == mid.has_key(k));
                            assert(pre@.contains(k) == pre.has_key(k));
                        }
                        assert(self@ =~= pre@.insert(key).remove(evicted));
                    }
                    Some(evicted)
                }
            },
        }
    }
}

} // verus!
