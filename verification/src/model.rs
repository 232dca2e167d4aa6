//! The table as a mathematical value: a sequence of chains, one per bucket,
//! each chain a sequence of entries with the head of the chain first. An entry
//! is a pair of a key's view and a value.

use crate::key::{digest, Key};
use vstd::arithmetic::power2::pow2;
use vstd::prelude::*;

verus! {

/// The place of the first entry of `chain` whose key is `id`, or the length of
/// `chain` if there is none.
pub open spec fn position<I, V>(chain: Seq<(I, V)>, id: I) -> nat
    decreases chain.len(),
{
    if chain.len() == 0 || chain[0].0 == id {
        0
    } else {
        1 + position(chain.drop_first(), id)
    }
}

/// The value that `chain` holds for `id`, if any.
pub open spec fn chain_get<I, V>(chain: Seq<(I, V)>, id: I) -> Option<V> {
    let p = position(chain, id) as int;
    if p < chain.len() {
        Some(chain[p].1)
    } else {
        None
    }
}

/// `chain` after `value` has been stored for `id`: the entry for `id` keeps its
/// place and gets the new value; if there is none, a new entry becomes the head.
pub open spec fn chain_put<I, V>(chain: Seq<(I, V)>, id: I, value: V) -> Seq<(I, V)> {
    let p = position(chain, id) as int;
    if p < chain.len() {
        chain.update(p, (id, value))
    } else {
        seq![(id, value)] + chain
    }
}

/// `chain` without its entry for `id`; the other entries keep their order.
pub open spec fn chain_cut<I, V>(chain: Seq<(I, V)>, id: I) -> Seq<(I, V)> {
    let p = position(chain, id) as int;
    if p < chain.len() {
        chain.remove(p)
    } else {
        chain
    }
}

/// Whether no two entries of `entries` have the same key.
pub open spec fn distinct_keys<I, V>(entries: Seq<(I, V)>) -> bool {
    forall|i: int, j: int|
        0 <= i < j < entries.len() ==> (#[trigger] entries[i]).0 != (#[trigger] entries[j]).0
}

/// The bucket of the key with view `id` in a table of `capacity` buckets.
pub open spec fn slot<K: Key>(id: K::V, capacity: nat) -> int {
    (digest::<K>(id) as int) % (capacity as int)
}

/// A table of `capacity` empty chains.
pub open spec fn blank<K: Key, V>(capacity: nat) -> Seq<Seq<(K::V, V)>> {
    Seq::new(capacity, |b: int| Seq::empty())
}

/// The value that the table holds for `id`, if any: only the chain of the
/// key's bucket is searched.
pub open spec fn get<K: Key, V>(chains: Seq<Seq<(K::V, V)>>, id: K::V) -> Option<V> {
    chain_get(chains[slot::<K>(id, chains.len())], id)
}

/// The table after `value` has been stored for `id`, without any growth.
pub open spec fn put<K: Key, V>(chains: Seq<Seq<(K::V, V)>>, id: K::V, value: V) -> Seq<
    Seq<(K::V, V)>,
> {
    let s = slot::<K>(id, chains.len());
    chains.update(s, chain_put(chains[s], id, value))
}

/// The table without its entry for `id`.
pub open spec fn cut<K: Key, V>(chains: Seq<Seq<(K::V, V)>>, id: K::V) -> Seq<Seq<(K::V, V)>> {
    let s = slot::<K>(id, chains.len());
    chains.update(s, chain_cut(chains[s], id))
}

/// The table after `entry` has become the head of the chain of its bucket.
pub open spec fn link<K: Key, V>(chains: Seq<Seq<(K::V, V)>>, entry: (K::V, V)) -> Seq<
    Seq<(K::V, V)>,
> {
    let s = slot::<K>(entry.0, chains.len());
    chains.update(s, seq![entry] + chains[s])
}

/// The table after the entries of `entries` have been linked into it one by
/// one, the first of them first.
pub open spec fn pour<K: Key, V>(chains: Seq<Seq<(K::V, V)>>, entries: Seq<(K::V, V)>) -> Seq<
    Seq<(K::V, V)>,
>
    decreases entries.len(),
{
    if entries.len() == 0 {
        chains
    } else {
        link::<K, V>(pour::<K, V>(chains, entries.drop_last()), entries.last())
    }
}

/// All entries of the table in the order of traversal: bucket by bucket, and
/// within a bucket from the head of the chain on.
pub open spec fn traversal<K: Key, V>(chains: Seq<Seq<(K::V, V)>>) -> Seq<(K::V, V)> {
    chains.flatten()
}

/// The table rebuilt with `capacity` buckets: its entries are taken in the
/// order of traversal and linked into an empty table.
pub open spec fn regroup<K: Key, V>(chains: Seq<Seq<(K::V, V)>>, capacity: nat) -> Seq<
    Seq<(K::V, V)>,
> {
    pour::<K, V>(blank::<K, V>(capacity), traversal::<K, V>(chains))
}

/// The number of entries in the table.
pub open spec fn count<K: Key, V>(chains: Seq<Seq<(K::V, V)>>) -> nat {
    traversal::<K, V>(chains).len()
}

/// The table as a map from keys to values.
pub open spec fn contents<K: Key, V>(chains: Seq<Seq<(K::V, V)>>) -> Map<K::V, V> {
    Map::new(|id: K::V| get::<K, V>(chains, id) is Some, |id: K::V| get::<K, V>(chains, id).unwrap())
}

/// The numbers of buckets that a table can have: 16, doubled any number of times.
pub open spec fn is_capacity(n: nat) -> bool {
    exists|e: nat| n == 16 * #[trigger] pow2(e)
}

/// Whether the table has reached the load at which it grows before the next
/// insertion: three quarters of its buckets.
pub open spec fn loaded<K: Key, V>(chains: Seq<Seq<(K::V, V)>>) -> bool {
    count::<K, V>(chains) >= chains.len() * 3 / 4
}

/// The table as it is when a value is about to be stored: rebuilt with twice
/// the buckets if it has reached its load, else unchanged.
pub open spec fn grown<K: Key, V>(chains: Seq<Seq<(K::V, V)>>) -> Seq<Seq<(K::V, V)>> {
    if loaded::<K, V>(chains) {
        regroup::<K, V>(chains, 2 * chains.len())
    } else {
        chains
    }
}

/// Whether every entry of the table lies in the chain of its key's bucket.
pub open spec fn placed<K: Key, V>(chains: Seq<Seq<(K::V, V)>>) -> bool {
    forall|b: int, i: int|
        0 <= b < chains.len() && 0 <= i < chains[b].len() ==> slot::<K>(
            (#[trigger] chains[b][i]).0,
            chains.len(),
        ) == b
}

/// The invariant of the table: every entry lies in the chain of its key's
/// bucket, no chain holds a key twice, and the load is at most three quarters.
pub open spec fn valid<K: Key, V>(chains: Seq<Seq<(K::V, V)>>) -> bool {
    &&& is_capacity(chains.len())
    &&& placed::<K, V>(chains)
    &&& forall|b: int| 0 <= b < chains.len() ==> distinct_keys(#[trigger] chains[b])
    &&& 4 * count::<K, V>(chains) <= 3 * chains.len()
}

/// One change to a table: a value is stored for a key, or a key is removed.
pub enum Step<I, V> {
    Insert(I, V),
    Remove(I),
}

/// The key that a step is about.
pub open spec fn key_of<I, V>(step: Step<I, V>) -> I {
    match step {
        Step::Insert(id, _) => id,
        Step::Remove(id) => id,
    }
}

/// The table after one step: an insertion grows the table first if it has
/// reached its load.
pub open spec fn apply<K: Key, V>(chains: Seq<Seq<(K::V, V)>>, step: Step<K::V, V>) -> Seq<
    Seq<(K::V, V)>,
> {
    match step {
        Step::Insert(id, value) => put::<K, V>(grown::<K, V>(chains), id, value),
        Step::Remove(id) => cut::<K, V>(chains, id),
    }
}

/// The table after the steps of `steps`, the first of them first.
pub open spec fn run<K: Key, V>(chains: Seq<Seq<(K::V, V)>>, steps: Seq<Step<K::V, V>>) -> Seq<
    Seq<(K::V, V)>,
>
    decreases steps.len(),
{
    if steps.len() == 0 {
        chains
    } else {
        apply::<K, V>(run::<K, V>(chains, steps.drop_last()), steps.last())
    }
}

} // verus!
