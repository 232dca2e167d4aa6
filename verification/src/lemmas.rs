//! Facts about the model that the proofs of the table and of the laws rest on.

use crate::key::Key;
use crate::model::{
    blank, chain_cut, chain_get, chain_put, contents, count, cut, distinct_keys, get, is_capacity,
    loaded, placed, position, pour, put, regroup, slot, traversal, valid,
};
use vstd::arithmetic::power2::{lemma2_to64, lemma_pow2_pos, lemma_pow2_unfold, pow2};
use vstd::prelude::*;
use vstd::seq_lib::lemma_flatten_concat;

verus! {

/// What `position` finds: the first entry for `id`, if there is one.
pub(crate) proof fn lemma_position<I, V>(chain: Seq<(I, V)>, id: I)
    ensures
        position(chain, id) <= chain.len(),
        position(chain, id) < chain.len() ==> chain[position(chain, id) as int].0 == id,
        forall|i: int| 0 <= i < position(chain, id) ==> (#[trigger] chain[i]).0 != id,
    decreases chain.len(),
{
    if chain.len() > 0 && chain[0].0 != id {
        let rest = chain.drop_first();
        lemma_position(rest, id);
        assert forall|i: int| 0 <= i < position(chain, id) implies (#[trigger] chain[i]).0 != id by {
            if i > 0 {
                assert(chain[i] == rest[i - 1]);
            }
        }
    }
}

/// How the chain functions act on a chain that is given as its head and the
/// chain behind the head.
pub(crate) proof fn lemma_chain_head<I, V>(head: (I, V), rest: Seq<(I, V)>, id: I)
    ensures
        position(seq![head] + rest, id) == (if head.0 == id {
            0
        } else {
            1 + position(rest, id)
        }),
        chain_get(seq![head] + rest, id) == (if head.0 == id {
            Some(head.1)
        } else {
            chain_get(rest, id)
        }),
        chain_cut(seq![head] + rest, id) == (if head.0 == id {
            rest
        } else {
            seq![head] + chain_cut(rest, id)
        }),
        forall|value: V| #[trigger]
            chain_put(seq![head] + rest, id, value) == (if head.0 == id {
                seq![(id, value)] + rest
            } else if chain_get(rest, id) is Some {
                seq![head] + chain_put(rest, id, value)
            } else {
                seq![(id, value)] + (seq![head] + rest)
            }),
{
    assert((seq![head] + rest).drop_first() =~= rest);
}

/// How the chain functions act on a chain that is given as a front part
/// without the key and the chain behind it.
pub(crate) proof fn lemma_chain_front<I, V>(front: Seq<(I, V)>, rest: Seq<(I, V)>, id: I)
    requires
        forall|i: int| 0 <= i < front.len() ==> (#[trigger] front[i]).0 != id,
    ensures
        position(front + rest, id) == front.len() + position(rest, id),
        chain_get(front + rest, id) == chain_get(rest, id),
        chain_cut(front + rest, id) == front + chain_cut(rest, id),
        chain_get(rest, id) is Some ==> forall|value: V| #[trigger]
            chain_put(front + rest, id, value) == front + chain_put(rest, id, value),
    decreases front.len(),
{
    if front.len() > 0 {
        let head = front[0];
        let tail = front.drop_first();
        lemma_chain_front(tail, rest, id);
        lemma_chain_head(head, tail + rest, id);
        assert(front + rest =~= seq![head] + (tail + rest));
    }
}

/// The traversal passes the buckets before `b`, then the chain of `b`, then
/// the buckets behind it.
pub(crate) proof fn lemma_traversal_split<K: Key, V>(chains: Seq<Seq<(K::V, V)>>, b: int)
    requires
        0 <= b < chains.len(),
    ensures
        traversal::<K, V>(chains) == traversal::<K, V>(chains.take(b)) + chains[b] + traversal::<
            K,
            V,
        >(chains.skip(b + 1)),
{
    let one = seq![chains[b]];
    assert(chains =~= chains.take(b) + one + chains.skip(b + 1));
    lemma_flatten_concat(chains.take(b) + one, chains.skip(b + 1));
    lemma_flatten_concat(chains.take(b), one);
    one.lemma_flatten_one_element();
}

/// Replacing one chain changes the traversal in that chain's stretch only.
pub(crate) proof fn lemma_traversal_update<K: Key, V>(
    chains: Seq<Seq<(K::V, V)>>,
    b: int,
    chain: Seq<(K::V, V)>,
)
    requires
        0 <= b < chains.len(),
    ensures
        traversal::<K, V>(chains.update(b, chain)) == traversal::<K, V>(chains.take(b)) + chain
            + traversal::<K, V>(chains.skip(b + 1)),
        count::<K, V>(chains.update(b, chain)) == count::<K, V>(chains) - chains[b].len()
            + chain.len(),
{
    let after = chains.update(b, chain);
    lemma_traversal_split::<K, V>(chains, b);
    lemma_traversal_split::<K, V>(after, b);
    assert(after.take(b) =~= chains.take(b));
    assert(after.skip(b + 1) =~= chains.skip(b + 1));
}

/// A table of empty chains has no entries.
pub(crate) proof fn lemma_blank<K: Key, V>(capacity: nat)
    ensures
        traversal::<K, V>(blank::<K, V>(capacity)) == Seq::<(K::V, V)>::empty(),
    decreases capacity,
{
    let chains = blank::<K, V>(capacity);
    if capacity > 0 {
        assert(chains.drop_first() =~= blank::<K, V>((capacity - 1) as nat));
        lemma_blank::<K, V>((capacity - 1) as nat);
    }
}

/// A capacity is a multiple of 16, and so never 0.
pub(crate) proof fn lemma_capacity(n: nat)
    requires
        is_capacity(n),
    ensures
        n >= 16,
        n % 16 == 0,
{
    let e = choose|e: nat| n == 16 * #[trigger] pow2(e);
    lemma_pow2_pos(e);
}

/// 16 is a capacity, and the double of a capacity is one.
pub(crate) proof fn lemma_capacity_steps(n: nat)
    ensures
        is_capacity(16),
        is_capacity(n) ==> is_capacity(2 * n),
{
    lemma2_to64();
    if is_capacity(n) {
        let e = choose|e: nat| n == 16 * #[trigger] pow2(e);
        lemma_pow2_unfold(e + 1);
    }
}

/// `position` is the place `at`, if the key is at `at` and nowhere before it.
pub(crate) proof fn lemma_position_at<I, V>(chain: Seq<(I, V)>, id: I, at: int)
    requires
        0 <= at < chain.len(),
        chain[at].0 == id,
        forall|i: int| 0 <= i < at ==> (#[trigger] chain[i]).0 != id,
    ensures
        position(chain, id) == at,
{
    lemma_position(chain, id);
}

/// `position` is the length of the chain, if the key is nowhere in it.
pub(crate) proof fn lemma_position_none<I, V>(chain: Seq<(I, V)>, id: I)
    requires
        forall|i: int| 0 <= i < chain.len() ==> (#[trigger] chain[i]).0 != id,
    ensures
        position(chain, id) == chain.len(),
{
    lemma_position(chain, id);
}

/// What a chain holds for the keys after a value has been stored in it.
pub(crate) proof fn lemma_chain_put<I, V>(chain: Seq<(I, V)>, id: I, value: V, other: I)
    ensures
        chain_get(chain_put(chain, id, value), other) == (if other == id {
            Some(value)
        } else {
            chain_get(chain, other)
        }),
{
    let p = position(chain, id) as int;
    let q = position(chain, other) as int;
    let after = chain_put(chain, id, value);
    lemma_position(chain, id);
    lemma_position(chain, other);
    if p < chain.len() {
        // every entry has the key that it had
        if q < chain.len() {
            lemma_position_at(after, other, q);
        } else {
            lemma_position_none(after, other);
        }
    } else {
        lemma_chain_head((id, value), chain, other);
    }
}

/// What a chain of distinct keys holds for the keys after an entry has been
/// cut from it.
pub(crate) proof fn lemma_chain_cut<I, V>(chain: Seq<(I, V)>, id: I, other: I)
    requires
        distinct_keys(chain),
    ensures
        chain_get(chain_cut(chain, id), other) == (if other == id {
            None
        } else {
            chain_get(chain, other)
        }),
{
    let p = position(chain, id) as int;
    let q = position(chain, other) as int;
    let after = chain_cut(chain, id);
    lemma_position(chain, id);
    lemma_position(chain, other);
    if p < chain.len() {
        // the entry at `i` was at `i`, or at `i + 1` if it was behind the cut
        if other != id && q < chain.len() {
            let at = if q < p {
                q
            } else {
                q - 1
            };
            lemma_position_at(after, other, at);
        } else {
            lemma_position_none(after, other);
        }
    }
}

/// The value of the last entry for `id` in `entries`, if there is one.
pub(crate) open spec fn latest<I, V>(entries: Seq<(I, V)>, id: I) -> Option<V>
    decreases entries.len(),
{
    if entries.len() == 0 {
        None
    } else if entries.last().0 == id {
        Some(entries.last().1)
    } else {
        latest(entries.drop_last(), id)
    }
}

/// `latest` finds an entry of the sequence, and finds one if the key occurs.
pub(crate) proof fn lemma_latest<I, V>(entries: Seq<(I, V)>, id: I)
    ensures
        match latest(entries, id) {
            Some(value) => exists|j: int|
                0 <= j < entries.len() && #[trigger] entries[j] == (id, value),
            None => forall|j: int| 0 <= j < entries.len() ==> (#[trigger] entries[j]).0 != id,
        },
    decreases entries.len(),
{
    if entries.len() > 0 && entries.last().0 != id {
        let front = entries.drop_last();
        lemma_latest(front, id);
        match latest(front, id) {
            Some(value) => {
                let j = choose|j: int| 0 <= j < front.len() && #[trigger] front[j] == (id, value);
                assert(entries[j] == (id, value));
            },
            None => {
                assert forall|j: int| 0 <= j < entries.len() implies (#[trigger] entries[j]).0
                    != id by {
                    if j < front.len() {
                        assert(front[j] == entries[j]);
                    }
                }
            },
        }
    }
}

/// Among distinct keys, `latest` finds the one entry for the key.
pub(crate) proof fn lemma_latest_distinct<I, V>(entries: Seq<(I, V)>, id: I, at: int)
    requires
        distinct_keys(entries),
        0 <= at < entries.len(),
        entries[at].0 == id,
    ensures
        latest(entries, id) == Some(entries[at].1),
{
    lemma_latest(entries, id);
}

/// `latest` looks in the back part of a sequence first.
pub(crate) proof fn lemma_latest_concat<I, V>(front: Seq<(I, V)>, back: Seq<(I, V)>, id: I)
    ensures
        latest(front + back, id) == (match latest(back, id) {
            Some(value) => Some(value),
            None => latest(front, id),
        }),
    decreases back.len(),
{
    if back.len() > 0 {
        assert((front + back).drop_last() =~= front + back.drop_last());
        lemma_latest_concat(front, back.drop_last(), id);
    }
}

/// In a chain of distinct keys, the last entry for a key is the first one.
pub(crate) proof fn lemma_latest_chain<I, V>(chain: Seq<(I, V)>, id: I)
    requires
        distinct_keys(chain),
    ensures
        latest(chain, id) == chain_get(chain, id),
{
    let p = position(chain, id) as int;
    lemma_position(chain, id);
    if p < chain.len() {
        lemma_latest_distinct(chain, id, p);
    } else {
        lemma_latest(chain, id);
    }
}

/// What a table holds after entries have been poured into it: for each key the
/// last of them, and below those what it held before.
pub(crate) proof fn lemma_pour_get<K: Key, V>(
    chains: Seq<Seq<(K::V, V)>>,
    entries: Seq<(K::V, V)>,
    id: K::V,
)
    requires
        chains.len() > 0,
    ensures
        pour::<K, V>(chains, entries).len() == chains.len(),
        get::<K, V>(pour::<K, V>(chains, entries), id) == (match latest(entries, id) {
            Some(value) => Some(value),
            None => get::<K, V>(chains, id),
        }),
    decreases entries.len(),
{
    if entries.len() > 0 {
        let before = pour::<K, V>(chains, entries.drop_last());
        let entry = entries.last();
        lemma_pour_get::<K, V>(chains, entries.drop_last(), id);
        let s = slot::<K>(entry.0, before.len());
        if slot::<K>(id, before.len()) == s {
            lemma_chain_head(entry, before[s], id);
        }
    }
}

/// The shape of a table that was poured from entries with distinct keys into
/// empty chains: it holds just those entries, each in the chain of its bucket,
/// and no chain holds a key twice.
pub(crate) proof fn lemma_pour_blank<K: Key, V>(capacity: nat, entries: Seq<(K::V, V)>)
    requires
        capacity > 0,
        distinct_keys(entries),
    ensures
        pour::<K, V>(blank::<K, V>(capacity), entries).len() == capacity,
        count::<K, V>(pour::<K, V>(blank::<K, V>(capacity), entries)) == entries.len(),
        placed::<K, V>(pour::<K, V>(blank::<K, V>(capacity), entries)),
        forall|b: int| 0 <= b < capacity ==> distinct_keys(#[trigger] pour::<K, V>(
            blank::<K, V>(capacity), entries)[b]),
        forall|b: int, i: int|
            0 <= b < capacity && 0 <= i < pour::<K, V>(blank::<K, V>(capacity), entries)[b].len()
                ==> entries.contains(#[trigger] pour::<K, V>(blank::<K, V>(capacity), entries)[b][i]),
    decreases entries.len(),
{
    let start = blank::<K, V>(capacity);
    if entries.len() == 0 {
        lemma_blank::<K, V>(capacity);
    } else {
        let front = entries.drop_last();
        let entry = entries.last();
        let before = pour::<K, V>(start, front);
        lemma_pour_blank::<K, V>(capacity, front);
        let s = slot::<K>(entry.0, capacity);
        lemma_traversal_update::<K, V>(before, s, seq![entry] + before[s]);
    }
}

/// What the traversal of the first `n` buckets of a table holds, if every
/// entry is in the chain of its bucket and no chain holds a key twice: entries
/// of those buckets only, no key twice, and for each key of those buckets the
/// value that its chain holds.
pub(crate) proof fn lemma_traversal_prefix<K: Key, V>(chains: Seq<Seq<(K::V, V)>>, n: int)
    requires
        placed::<K, V>(chains),
        forall|b: int| 0 <= b < chains.len() ==> distinct_keys(#[trigger] chains[b]),
        0 <= n <= chains.len(),
    ensures
        forall|j: int|
            0 <= j < traversal::<K, V>(chains.take(n)).len() ==> 0 <= slot::<K>(
                (#[trigger] traversal::<K, V>(chains.take(n))[j]).0,
                chains.len(),
            ) < n,
        distinct_keys(traversal::<K, V>(chains.take(n))),
        forall|id: K::V| #[trigger]
            latest(traversal::<K, V>(chains.take(n)), id) == (if 0 <= slot::<K>(id, chains.len())
                < n {
                get::<K, V>(chains, id)
            } else {
                None
            }),
    decreases n,
{
    let now = traversal::<K, V>(chains.take(n));
    if n > 0 {
        let front = traversal::<K, V>(chains.take(n - 1));
        let chain = chains[n - 1];
        lemma_traversal_prefix::<K, V>(chains, n - 1);
        assert(chains.take(n) =~= chains.take(n - 1).push(chain));
        chains.take(n - 1).lemma_flatten_push(chain);
        assert forall|id: K::V| #[trigger]
            latest(now, id) == (if 0 <= slot::<K>(id, chains.len()) < n {
                get::<K, V>(chains, id)
            } else {
                None
            }) by {
            lemma_latest_concat(front, chain, id);
            lemma_latest_chain(chain, id);
            lemma_position(chain, id);
        }
    }
}

/// Storing a value: afterwards the table holds `value` for the key and what it
/// held before for every other key. A key that was present keeps the number of
/// entries as it was; a new key adds one. The table stays valid, provided that
/// a new key does not meet a table that has to grow first.
pub(crate) proof fn lemma_put<K: Key, V>(chains: Seq<Seq<(K::V, V)>>, id: K::V, value: V)
    requires
        valid::<K, V>(chains),
        loaded::<K, V>(chains) ==> get::<K, V>(chains, id) is Some,
    ensures
        valid::<K, V>(put::<K, V>(chains, id, value)),
        get::<K, V>(put::<K, V>(chains, id, value), id) == Some(value),
        forall|other: K::V|
            other != id ==> #[trigger] get::<K, V>(put::<K, V>(chains, id, value), other) == get::<
                K,
                V,
            >(chains, other),
        contents::<K, V>(put::<K, V>(chains, id, value)) == contents::<K, V>(chains).insert(
            id,
            value,
        ),
        count::<K, V>(put::<K, V>(chains, id, value)) == count::<K, V>(chains) + (if get::<K, V>(
            chains,
            id,
        ) is Some {
            0int
        } else {
            1int
        }),
{
    lemma_capacity(chains.len());
    let s = slot::<K>(id, chains.len());
    let chain = chains[s];
    let after = put::<K, V>(chains, id, value);
    lemma_position(chain, id);
    lemma_traversal_update::<K, V>(chains, s, chain_put(chain, id, value));
    assert forall|other: K::V| #[trigger]
        get::<K, V>(after, other) == (if other == id {
            Some(value)
        } else {
            get::<K, V>(chains, other)
        }) by {
        if slot::<K>(other, chains.len()) == s {
            lemma_chain_put(chain, id, value, other);
        }
    }
}

/// Removing a key: afterwards the table holds nothing for the key and what it
/// held before for every other key. If the key was absent the table is
/// unchanged; if it was present there is one entry fewer. The table stays valid.
pub(crate) proof fn lemma_cut<K: Key, V>(chains: Seq<Seq<(K::V, V)>>, id: K::V)
    requires
        valid::<K, V>(chains),
    ensures
        valid::<K, V>(cut::<K, V>(chains, id)),
        get::<K, V>(cut::<K, V>(chains, id), id) is None,
        forall|other: K::V|
            other != id ==> #[trigger] get::<K, V>(cut::<K, V>(chains, id), other) == get::<K, V>(
                chains,
                other,
            ),
        contents::<K, V>(cut::<K, V>(chains, id)) == contents::<K, V>(chains).remove(id),
        get::<K, V>(chains, id) is None ==> cut::<K, V>(chains, id) == chains,
        count::<K, V>(cut::<K, V>(chains, id)) == count::<K, V>(chains) - (if get::<K, V>(
            chains,
            id,
        ) is Some {
            1int
        } else {
            0int
        }),
{
    lemma_capacity(chains.len());
    let s = slot::<K>(id, chains.len());
    let chain = chains[s];
    let after = cut::<K, V>(chains, id);
    lemma_traversal_update::<K, V>(chains, s, chain_cut(chain, id));
    assert forall|other: K::V| #[trigger]
        get::<K, V>(after, other) == (if other == id {
            None
        } else {
            get::<K, V>(chains, other)
        }) by {
        if slot::<K>(other, chains.len()) == s {
            lemma_chain_cut(chain, id, other);
        }
    }
}

/// The traversal of a valid table yields every entry once: no key comes
/// twice, a pair is yielded exactly if the table holds that value for that
/// key, and the number of pairs is the number of keys of the table.
pub(crate) proof fn lemma_traversal<K: Key, V>(chains: Seq<Seq<(K::V, V)>>)
    requires
        valid::<K, V>(chains),
    ensures
        distinct_keys(traversal::<K, V>(chains)),
        forall|i: int|
            0 <= i < traversal::<K, V>(chains).len() ==> get::<K, V>(
                chains,
                (#[trigger] traversal::<K, V>(chains)[i]).0,
            ) == Some(traversal::<K, V>(chains)[i].1),
        forall|id: K::V, value: V| #[trigger]
            traversal::<K, V>(chains).contains((id, value)) <==> get::<K, V>(chains, id) == Some(
                value,
            ),
        contents::<K, V>(chains).dom().finite(),
        contents::<K, V>(chains).len() == count::<K, V>(chains),
        contents::<K, V>(chains).dom() == traversal::<K, V>(chains).map_values(
            |entry: (K::V, V)| entry.0,
        ).to_set(),
{
    lemma_capacity(chains.len());
    let all = traversal::<K, V>(chains);
    assert(chains.take(chains.len() as int) =~= chains);
    lemma_traversal_prefix::<K, V>(chains, chains.len() as int);
    assert forall|id: K::V, value: V| #[trigger]
        all.contains((id, value)) <==> get::<K, V>(chains, id) == Some(value) by {
        lemma_latest(all, id);
    }
    assert forall|i: int| 0 <= i < all.len() implies get::<K, V>(chains, (#[trigger] all[i]).0)
        == Some(all[i].1) by {
        assert(all.contains((all[i].0, all[i].1)));
    }
    let keys = all.map_values(|entry: (K::V, V)| entry.0);
    keys.unique_seq_to_set();
    assert forall|id: K::V| contents::<K, V>(chains).dom().contains(id) <==> keys.to_set().contains(
        id,
    ) by {
        lemma_latest(all, id);
        if get::<K, V>(chains, id) is Some {
            let j = choose|j: int|
                0 <= j < all.len() && #[trigger] all[j] == (id, get::<K, V>(chains, id).unwrap());
            assert(keys[j] == id);
        }
    }
    assert(contents::<K, V>(chains).dom() =~= keys.to_set());
}

/// Growth: a valid table rebuilt with another capacity, large enough for its
/// entries, is valid, holds for every key what it held before, and has as many
/// entries as before.
pub(crate) proof fn lemma_regroup<K: Key, V>(chains: Seq<Seq<(K::V, V)>>, capacity: nat)
    requires
        valid::<K, V>(chains),
        is_capacity(capacity),
        4 * count::<K, V>(chains) <= 3 * capacity,
    ensures
        valid::<K, V>(regroup::<K, V>(chains, capacity)),
        regroup::<K, V>(chains, capacity).len() == capacity,
        forall|id: K::V| #[trigger]
            get::<K, V>(regroup::<K, V>(chains, capacity), id) == get::<K, V>(chains, id),
        contents::<K, V>(regroup::<K, V>(chains, capacity)) == contents::<K, V>(chains),
        count::<K, V>(regroup::<K, V>(chains, capacity)) == count::<K, V>(chains),
{
    lemma_capacity(chains.len());
    lemma_capacity(capacity);
    let all = traversal::<K, V>(chains);
    let after = regroup::<K, V>(chains, capacity);
    assert(chains.take(chains.len() as int) =~= chains);
    lemma_traversal_prefix::<K, V>(chains, chains.len() as int);
    lemma_pour_blank::<K, V>(capacity, all);
    assert forall|id: K::V| #[trigger] get::<K, V>(after, id) == get::<K, V>(chains, id) by {
        lemma_pour_get::<K, V>(blank::<K, V>(capacity), all, id);
    }
}

} // verus!
