//! What holds of the table in every state and across its operations, stated
//! over the model that the contracts of the operations speak of.

use crate::key::Key;
use crate::lemmas::{
    lemma_blank, lemma_capacity, lemma_capacity_steps, lemma_cut, lemma_put, lemma_regroup,
    lemma_traversal,
};
use crate::model::{
    apply, blank, contents, count, cut, distinct_keys, get, grown, key_of, loaded, put, regroup,
    run, traversal, valid, Step,
};
use vstd::prelude::*;

verus! {

/// A table about to take a value is valid with room for one more entry, holds
/// what it held, and has the buckets it had, or twice as many if it had
/// reached its load.
pub proof fn law_grown<K: Key, V>(chains: Seq<Seq<(K::V, V)>>)
    requires
        valid::<K, V>(chains),
    ensures
        valid::<K, V>(grown::<K, V>(chains)),
        !loaded::<K, V>(grown::<K, V>(chains)),
        grown::<K, V>(chains).len() == (if loaded::<K, V>(chains) {
            2 * chains.len()
        } else {
            chains.len()
        }),
        forall|id: K::V| #[trigger]
            get::<K, V>(grown::<K, V>(chains), id) == get::<K, V>(chains, id),
        contents::<K, V>(grown::<K, V>(chains)) == contents::<K, V>(chains),
        count::<K, V>(grown::<K, V>(chains)) == count::<K, V>(chains),
{
    lemma_capacity(chains.len());
    if loaded::<K, V>(chains) {
        lemma_capacity_steps(chains.len());
        lemma_regroup::<K, V>(chains, 2 * chains.len());
    }
}

/// Every step keeps a valid table valid, and changes what it holds for the
/// key of the step only.
pub proof fn law_step<K: Key, V>(chains: Seq<Seq<(K::V, V)>>, step: Step<K::V, V>)
    requires
        valid::<K, V>(chains),
    ensures
        valid::<K, V>(apply::<K, V>(chains, step)),
        forall|id: K::V|
            id != key_of(step) ==> #[trigger] get::<K, V>(apply::<K, V>(chains, step), id) == get::<
                K,
                V,
            >(chains, id),
{
    match step {
        Step::Insert(id, value) => {
            law_grown::<K, V>(chains);
            lemma_put::<K, V>(grown::<K, V>(chains), id, value);
        },
        Step::Remove(id) => {
            lemma_cut::<K, V>(chains, id);
        },
    }
}

/// Uniqueness. After any sequence of insertions and removals, begun with the
/// empty table, the table is valid, and no two of its entries, of whatever
/// chains, have the same key.
pub proof fn law_unique_keys<K: Key, V>(steps: Seq<Step<K::V, V>>)
    ensures
        valid::<K, V>(run::<K, V>(blank::<K, V>(16), steps)),
        distinct_keys(traversal::<K, V>(run::<K, V>(blank::<K, V>(16), steps))),
    decreases steps.len(),
{
    if steps.len() == 0 {
        lemma_blank::<K, V>(16);
        lemma_capacity_steps(16);
    } else {
        law_unique_keys::<K, V>(steps.drop_last());
        law_step::<K, V>(run::<K, V>(blank::<K, V>(16), steps.drop_last()), steps.last());
    }
    lemma_traversal::<K, V>(run::<K, V>(blank::<K, V>(16), steps));
}

/// Round trip. Once a value has been stored for a key, the table holds that
/// value for the key, and goes on to hold it through any sequence of
/// insertions and removals of other keys.
pub proof fn law_round_trip<K: Key, V>(
    chains: Seq<Seq<(K::V, V)>>,
    id: K::V,
    value: V,
    steps: Seq<Step<K::V, V>>,
)
    requires
        valid::<K, V>(chains),
        forall|i: int| 0 <= i < steps.len() ==> key_of(#[trigger] steps[i]) != id,
    ensures
        valid::<K, V>(run::<K, V>(put::<K, V>(grown::<K, V>(chains), id, value), steps)),
        get::<K, V>(run::<K, V>(put::<K, V>(grown::<K, V>(chains), id, value), steps), id) == Some(
            value,
        ),
    decreases steps.len(),
{
    if steps.len() == 0 {
        law_grown::<K, V>(chains);
        lemma_put::<K, V>(grown::<K, V>(chains), id, value);
    } else {
        let front = steps.drop_last();
        law_round_trip::<K, V>(chains, id, value, front);
        law_step::<K, V>(
            run::<K, V>(put::<K, V>(grown::<K, V>(chains), id, value), front),
            steps.last(),
        );
    }
}

/// Update. Storing a value for a key that is present leaves the number of
/// entries as it was, and the value that was held for the key is the one to
/// return; storing a value for a new key adds one entry, and there is no value
/// to return. As a map, the table afterwards is the map before with the value
/// stored for the key.
pub proof fn law_update<K: Key, V>(chains: Seq<Seq<(K::V, V)>>, id: K::V, value: V)
    requires
        valid::<K, V>(chains),
    ensures
        get::<K, V>(chains, id) is Some ==> count::<K, V>(
            put::<K, V>(grown::<K, V>(chains), id, value),
        ) == count::<K, V>(chains),
        get::<K, V>(chains, id) is None ==> count::<K, V>(
            put::<K, V>(grown::<K, V>(chains), id, value),
        ) == count::<K, V>(chains) + 1,
        contents::<K, V>(put::<K, V>(grown::<K, V>(chains), id, value)) == contents::<K, V>(
            chains,
        ).insert(id, value),
        contents::<K, V>(chains).get(id) == get::<K, V>(chains, id),
{
    law_grown::<K, V>(chains);
    lemma_put::<K, V>(grown::<K, V>(chains), id, value);
}

/// Removal. After a key has been removed the table holds nothing for it; the
/// number of entries is one less if the key was present, and if it was absent
/// the table is what it was.
pub proof fn law_remove<K: Key, V>(chains: Seq<Seq<(K::V, V)>>, id: K::V)
    requires
        valid::<K, V>(chains),
    ensures
        get::<K, V>(cut::<K, V>(chains, id), id) is None,
        get::<K, V>(chains, id) is Some ==> count::<K, V>(cut::<K, V>(chains, id)) == count::<K, V>(
            chains,
        ) - 1,
        get::<K, V>(chains, id) is None ==> cut::<K, V>(chains, id) == chains,
        contents::<K, V>(cut::<K, V>(chains, id)) == contents::<K, V>(chains).remove(id),
{
    lemma_cut::<K, V>(chains, id);
}

/// Growth. A valid table rebuilt with twice its buckets is valid, holds for
/// every key the value that it held before, and has as many entries as before.
pub proof fn law_growth<K: Key, V>(chains: Seq<Seq<(K::V, V)>>)
    requires
        valid::<K, V>(chains),
    ensures
        regroup::<K, V>(chains, 2 * chains.len()).len() == 2 * chains.len(),
        valid::<K, V>(regroup::<K, V>(chains, 2 * chains.len())),
        forall|id: K::V| #[trigger]
            get::<K, V>(regroup::<K, V>(chains, 2 * chains.len()), id) == get::<K, V>(chains, id),
        count::<K, V>(regroup::<K, V>(chains, 2 * chains.len())) == count::<K, V>(chains),
{
    lemma_capacity_steps(chains.len());
    lemma_regroup::<K, V>(chains, 2 * chains.len());
}

/// Iteration. The traversal of a valid table has as many pairs as the table
/// has entries, which is the number of its keys; no key comes twice; a pair is
/// in it exactly if the table holds that value for that key; and the keys in
/// it are the keys of the table.
pub proof fn law_iteration<K: Key, V>(chains: Seq<Seq<(K::V, V)>>)
    requires
        valid::<K, V>(chains),
    ensures
        traversal::<K, V>(chains).len() == count::<K, V>(chains),
        contents::<K, V>(chains).dom().finite(),
        traversal::<K, V>(chains).len() == contents::<K, V>(chains).len(),
        distinct_keys(traversal::<K, V>(chains)),
        forall|i: int|
            0 <= i < traversal::<K, V>(chains).len() ==> get::<K, V>(
                chains,
                (#[trigger] traversal::<K, V>(chains)[i]).0,
            ) == Some(traversal::<K, V>(chains)[i].1),
        forall|id: K::V, value: V| #[trigger]
            traversal::<K, V>(chains).contains((id, value)) <==> get::<K, V>(chains, id) == Some(
                value,
            ),
        traversal::<K, V>(chains).map_values(|entry: (K::V, V)| entry.0).to_set() == contents::<
            K,
            V,
        >(chains).dom(),
{
    lemma_traversal::<K, V>(chains);
}

} // verus!
