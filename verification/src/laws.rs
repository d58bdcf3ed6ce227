//! Laws of the table, stated over the abstract model that the operation
//! contracts use: `self@` (the set of stored keys) and `spec_size`. Each
//! proof function is one guarantee a caller may rely on across calls.

use crate::table::CuckooHashTable;
use vstd::prelude::*;

verus! {

/// The size `insert` reports after one call: it grows by one exactly for a
/// key that was not yet stored.
pub open spec fn size_after_insert(keys: Set<i32>, size: int, key: i32) -> int {
    size + if keys.contains(key) {
        0int
    } else {
        1int
    }
}

/// The key set after inserting each element of `ks` in order, starting from
/// `init`.
pub open spec fn keys_after_inserts(init: Set<i32>, ks: Seq<i32>) -> Set<i32>
    decreases ks.len(),
{
    if ks.len() == 0 {
        init
    } else {
        keys_after_inserts(init, ks.drop_last()).insert(ks.last())
    }
}

/// The size after inserting each element of `ks` in order, starting from a
/// table whose keys are `init` and whose size is `size`.
pub open spec fn size_after_inserts(init: Set<i32>, size: int, ks: Seq<i32>) -> int
    decreases ks.len(),
{
    if ks.len() == 0 {
        size
    } else {
        size_after_insert(
            keys_after_inserts(init, ks.drop_last()),
            size_after_inserts(init, size, ks.drop_last()),
            ks.last(),
        )
    }
}

/// Idempotence: inserting a key twice in a row yields the same observable
/// state — key set and size — as inserting it once, so the size grows by at
/// most one per distinct key.
pub proof fn lemma_insert_idempotent(keys: Set<i32>, size: int, key: i32)
    ensures
        keys.insert(key).insert(key) == keys.insert(key),
        size_after_insert(keys.insert(key), size_after_insert(keys, size, key), key)
            == size_after_insert(keys, size, key),
{
    assert(keys.insert(key).insert(key) =~= keys.insert(key));
}

/// Round trip: for a key not previously inserted, `insert` makes `contains`
/// answer true, and a subsequent `remove` makes it answer false again.
pub proof fn lemma_insert_round_trip(keys: Set<i32>, key: i32)
    requires
        !keys.contains(key),
    ensures
        keys.insert(key).contains(key),
        !keys.insert(key).remove(key).contains(key),
{
}

/// A table populated by a sequence of inserts holds exactly the inserted
/// keys: membership in the resulting set is membership in the sequence.
pub proof fn lemma_populated_membership(ks: Seq<i32>, k: i32)
    ensures
        keys_after_inserts(Set::empty(), ks).contains(k) <==> ks.contains(k),
    decreases ks.len(),
{
    if ks.len() > 0 {
        lemma_populated_membership(ks.drop_last(), k);
        if ks.contains(k) {
            let w = choose|w: int| 0 <= w < ks.len() && ks[w] == k;
            if w < ks.len() - 1 {
                assert(ks.drop_last()[w] == k);
            }
        }
        if ks.drop_last().contains(k) {
            let w = choose|w: int| 0 <= w < ks.len() - 1 && ks.drop_last()[w] == k;
            assert(ks[w] == k);
        }
    }
}

/// Negative lookups: populating a table with the keys of `ks` leaves any key
/// outside `ks` out of the table, so `contains` answers false for it.
pub proof fn lemma_negative_lookup(ks: Seq<i32>, k: i32)
    requires
        !ks.contains(k),
    ensures
        !keys_after_inserts(Set::empty(), ks).contains(k),
{
    lemma_populated_membership(ks, k);
}

/// Filling a table: inserting distinct fresh keys starting from an empty
/// table makes the size exactly the number of keys inserted — so all
/// `total_buckets` inserts into a table of that capacity stay within
/// `insert`'s contract, each one finding `size` strictly below the capacity.
pub proof fn lemma_capacity_fill(ks: Seq<i32>)
    requires
        ks.no_duplicates(),
    ensures
        size_after_inserts(Set::empty(), 0, ks) == ks.len(),
    decreases ks.len(),
{
    if ks.len() > 0 {
        assert(ks.drop_last().no_duplicates());
        lemma_capacity_fill(ks.drop_last());
        lemma_populated_membership(ks.drop_last(), ks.last());
        if ks.drop_last().contains(ks.last()) {
            let w = choose|w: int| 0 <= w < ks.len() - 1 && ks.drop_last()[w] == ks.last();
            assert(ks[w] == ks[ks.len() - 1]);
            assert(false);
        }
    }
}

/// The key set after removing each element of `ks` in order, starting from
/// `init`.
pub open spec fn keys_after_removes(init: Set<i32>, ks: Seq<i32>) -> Set<i32>
    decreases ks.len(),
{
    if ks.len() == 0 {
        init
    } else {
        keys_after_removes(init, ks.drop_last()).remove(ks.last())
    }
}

/// The size after removing each element of `ks` in order: each remove takes
/// one off exactly when its key is still present, as `remove`'s contract
/// states.
pub open spec fn size_after_removes(init: Set<i32>, size: int, ks: Seq<i32>) -> int
    decreases ks.len(),
{
    if ks.len() == 0 {
        size
    } else {
        size_after_removes(init, size, ks.drop_last()) - (if keys_after_removes(
            init,
            ks.drop_last(),
        ).contains(ks.last()) {
            1int
        } else {
            0int
        })
    }
}

/// Removing a list of distinct, present keys takes each one out and lowers
/// the size by exactly the number removed.
proof fn lemma_removes_general(init: Set<i32>, size: int, ks: Seq<i32>)
    requires
        ks.no_duplicates(),
        forall|i: int| 0 <= i < ks.len() ==> init.contains(#[trigger] ks[i]),
    ensures
        forall|k: i32|
            #[trigger] keys_after_removes(init, ks).contains(k) <==> (init.contains(k)
                && !ks.contains(k)),
        size_after_removes(init, size, ks) == size - ks.len(),
    decreases ks.len(),
{
    if ks.len() > 0 {
        let prefix = ks.drop_last();
        let last = ks.last();
        assert(prefix.no_duplicates());
        assert forall|i: int| 0 <= i < prefix.len() implies init.contains(#[trigger] prefix[i]) by {
            assert(prefix[i] == ks[i]);
        }
        lemma_removes_general(init, size, prefix);
        if prefix.contains(last) {
            let w = choose|w: int| 0 <= w < prefix.len() && prefix[w] == last;
            assert(ks[w] == ks[ks.len() - 1]);
            assert(false);
        }
        assert(init.contains(ks[ks.len() - 1]));
        assert(keys_after_removes(init, prefix).contains(last));
        assert forall|k: i32|
            #[trigger] keys_after_removes(init, ks).contains(k) <==> (init.contains(k)
                && !ks.contains(k)) by {
            if ks.contains(k) {
                let w = choose|w: int| 0 <= w < ks.len() && ks[w] == k;
                if w < ks.len() - 1 {
                    assert(prefix[w] == k);
                }
            }
            if prefix.contains(k) {
                let w = choose|w: int| 0 <= w < prefix.len() && prefix[w] == k;
                assert(ks[w] == k);
            }
        }
    }
}

/// Draining: inserting the distinct keys of `ks` into an empty table and then
/// removing each of them leaves no key stored and the size back at zero — the
/// whole-run accounting of an insert-all-then-remove-all pass.
pub proof fn lemma_drain(ks: Seq<i32>)
    requires
        ks.no_duplicates(),
    ensures
        forall|k: i32|
            !(#[trigger] keys_after_removes(keys_after_inserts(Set::empty(), ks), ks).contains(k)),
        size_after_removes(
            keys_after_inserts(Set::empty(), ks),
            size_after_inserts(Set::empty(), 0, ks),
            ks,
        ) == 0,
{
    let populated = keys_after_inserts(Set::empty(), ks);
    lemma_capacity_fill(ks);
    assert forall|i: int| 0 <= i < ks.len() implies populated.contains(#[trigger] ks[i]) by {
        lemma_populated_membership(ks, ks[i]);
        assert(0 <= i < ks.len() && ks[i] == ks[i]);
        assert(ks.contains(ks[i]));
    }
    lemma_removes_general(populated, ks.len() as int, ks);
    assert forall|k: i32|
        !(#[trigger] keys_after_removes(populated, ks).contains(k)) by {
        if keys_after_removes(populated, ks).contains(k) {
            lemma_populated_membership(ks, k);
        }
    }
}

/// Capacity boundary: a key not yet stored is accepted by `insert` exactly
/// while the table is below its constructed capacity; at capacity, one more
/// distinct key falls outside the contract.
pub proof fn lemma_capacity_boundary(t: CuckooHashTable, key: i32)
    requires
        !t@.contains(key),
    ensures
        t.insert_allowed(key) <==> t.spec_size() < t.spec_total_buckets(),
{
}

} // verus!
