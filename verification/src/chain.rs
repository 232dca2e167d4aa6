//! Chains: the singly linked lists of entries that hang from the buckets.

use crate::key::Key;
use crate::lemmas::{lemma_chain_front, lemma_chain_head};
use crate::model::{chain_cut, chain_get, chain_put};
use vstd::prelude::*;

verus! {

/// One stored pair, and the rest of its chain.
pub(crate) struct Entry<K, V> {
    pub(crate) key: K,
    pub(crate) value: V,
    pub(crate) next: Option<Box<Entry<K, V>>>,
}

impl<K: Key, V> Entry<K, V> {
    /// An entry that ends its chain.
    pub(crate) fn new(key: K, value: V) -> (entry: Self)
        ensures
            entry.key == key,
            entry.value == value,
            entry.next is None,
    {
        Entry { key, value, next: None }
    }
}

/// The entries of the chain that starts at `link`, head first.
pub(crate) open spec fn chain_of<K: Key, V>(link: Option<Box<Entry<K, V>>>) -> Seq<(K::V, V)>
    decreases link,
{
    match link {
        None => Seq::empty(),
        Some(entry) => seq![(entry.key@, entry.value)] + chain_of(entry.next),
    }
}

/// The entries from `entry` on to the end of its chain; none for no entry.
pub(crate) open spec fn chain_from<K: Key, V>(entry: Option<&Entry<K, V>>) -> Seq<(K::V, V)> {
    match entry {
        None => Seq::empty(),
        Some(entry) => seq![(entry.key@, entry.value)] + chain_of(entry.next),
    }
}

/// The chains that hang from the buckets of `buckets`.
pub(crate) open spec fn chains_of<K: Key, V>(buckets: Seq<Option<Box<Entry<K, V>>>>) -> Seq<
    Seq<(K::V, V)>,
> {
    Seq::new(buckets.len(), |b: int| chain_of(buckets[b]))
}

/// Replacing the chain of one bucket replaces that chain in the model.
pub(crate) proof fn lemma_chains_update<K: Key, V>(
    buckets: Seq<Option<Box<Entry<K, V>>>>,
    index: int,
)
    requires
        0 <= index < buckets.len(),
    ensures
        forall|link: Option<Box<Entry<K, V>>>| #[trigger]
            chains_of(buckets.update(index, link)) == chains_of(buckets).update(
                index,
                chain_of(link),
            ),
{
}

/// Stores `value` in the entry for `key` and returns the value that was there;
/// if the chain has no such entry, it stays as it is and `value` comes back.
pub(crate) fn chain_replace<K: Key, V>(
    link: &mut Option<Box<Entry<K, V>>>,
    key: &K,
    value: V,
) -> (r: Result<V, V>)
    ensures
        match r {
            Ok(prior) => {
                &&& chain_get(chain_of(*old(link)), key@) == Some(prior)
                &&& chain_of(*final(link)) == chain_put(chain_of(*old(link)), key@, value)
            },
            Err(back) => {
                &&& chain_get(chain_of(*old(link)), key@) is None
                &&& back == value
                &&& *final(link) == *old(link)
            },
        },
{
    let ghost whole = chain_of(*link);
    let ghost mut passed: Seq<(K::V, V)> = Seq::empty();
    let mut cursor = link;
    loop
        invariant
            whole == chain_of(*old(link)),
            whole == passed + chain_of(*cursor),
            forall|i: int| 0 <= i < passed.len() ==> (#[trigger] passed[i]).0 != key@,
            chain_of(*final(link)) == passed + chain_of(*final(cursor)),
            *final(cursor) == *cursor ==> *final(link) == *old(link),
        decreases *cursor,
    {
        proof {
            lemma_chain_front(passed, chain_of(*cursor), key@);
        }
        match cursor {
            None => {
                return Err(value);
            },
            Some(entry) => {
                if entry.key.same(key) {
                    let mut held = value;
                    std::mem::swap(&mut entry.value, &mut held);
                    return Ok(held);
                }
                proof {
                    passed = passed.push((entry.key@, entry.value));
                }
                cursor = &mut entry.next;
            },
        }
    }
}

/// Stores `value` for `key` in the chain and returns the value that was stored
/// for it before, if any. The entry of a key that was present keeps its place;
/// that of a new key becomes the head of the chain.
pub(crate) fn chain_insert<K: Key, V>(link: &mut Option<Box<Entry<K, V>>>, key: K, value: V) -> (prior:
    Option<V>)
    ensures
        prior == chain_get(chain_of(*old(link)), key@),
        chain_of(*final(link)) == chain_put(chain_of(*old(link)), key@, value),
{
    match chain_replace(link, &key, value) {
        Ok(prior) => Some(prior),
        Err(value) => {
            let mut entry = Box::new(Entry::new(key, value));
            entry.next = link.take();
            *link = Some(entry);
            None
        },
    }
}

/// Links `entry` in front of the chain that starts at `link`.
pub(crate) fn chain_push<K: Key, V>(link: &mut Option<Box<Entry<K, V>>>, entry: Box<Entry<K, V>>)
    ensures
        chain_of(*final(link)) == seq![(entry.key@, entry.value)] + chain_of(*old(link)),
{
    let mut entry = entry;
    entry.next = link.take();
    *link = Some(entry);
}

/// Unlinks the head of the chain that starts at `link`, if there is one, and
/// returns it with nothing behind it.
pub(crate) fn chain_pop<K: Key, V>(link: &mut Option<Box<Entry<K, V>>>) -> (head: Option<
    Box<Entry<K, V>>,
>)
    ensures
        match head {
            Some(entry) => {
                &&& chain_of(*old(link)).len() > 0
                &&& (entry.key@, entry.value) == chain_of(*old(link))[0]
                &&& entry.next is None
                &&& chain_of(*final(link)) == chain_of(*old(link)).drop_first()
            },
            None => chain_of(*old(link)).len() == 0 && *final(link) is None,
        },
{
    match link.take() {
        None => None,
        Some(mut entry) => {
            *link = entry.next.take();
            Some(entry)
        },
    }
}

/// Unlinks the entry for `key` and returns its value; the entries behind it
/// move up, and a chain without such an entry stays as it is.
pub(crate) fn chain_remove<K: Key, V>(link: &mut Option<Box<Entry<K, V>>>, key: &K) -> (r: Option<V>)
    ensures
        r == chain_get(chain_of(*old(link)), key@),
        chain_of(*final(link)) == chain_cut(chain_of(*old(link)), key@),
        r is None ==> *final(link) == *old(link),
{
    let ghost whole = chain_of(*link);
    let ghost mut passed: Seq<(K::V, V)> = Seq::empty();
    let mut cursor = link;
    loop
        invariant
            whole == chain_of(*old(link)),
            whole == passed + chain_of(*cursor),
            forall|i: int| 0 <= i < passed.len() ==> (#[trigger] passed[i]).0 != key@,
            chain_of(*final(link)) == passed + chain_of(*final(cursor)),
            *final(cursor) == *cursor ==> *final(link) == *old(link),
        decreases *cursor,
    {
        proof {
            lemma_chain_front(passed, chain_of(*cursor), key@);
        }
        let found = match cursor {
            None => {
                return None;
            },
            Some(entry) => {
                entry.key.same(key)
            },
        };
        if found {
            return match cursor.take() {
                None => None,
                Some(entry) => {
                    let Entry { key: _, value, next } = *entry;
                    *cursor = next;
                    Some(value)
                },
            };
        }
        match cursor {
            None => {
                return None;
            },
            Some(entry) => {
                proof {
                    passed = passed.push((entry.key@, entry.value));
                }
                cursor = &mut entry.next;
            },
        }
    }
}

/// The value stored for `key` in the chain that starts at `link`, if any.
pub(crate) fn chain_find<'a, K: Key, V>(link: &'a Option<Box<Entry<K, V>>>, key: &K) -> (r: Option<&'a V>)
    ensures
        r == (match chain_get(chain_of(*link), key@) {
            Some(value) => Some(&value),
            None => None,
        }),
{
    let mut current = link;
    loop
        invariant
            chain_get(chain_of(*current), key@) == chain_get(chain_of(*link), key@),
        decreases *current,
    {
        match current {
            None => { return None; },
            Some(entry) => {
                proof {
                    lemma_chain_head((entry.key@, entry.value), chain_of(entry.next), key@);
                }
                if entry.key.same(key) {
                    return Some(&entry.value);
                }
                current = &entry.next;
            },
        }
    }
}

/// The place of the value stored for `key` in the chain that starts at `link`,
/// if any; what is written there becomes the entry's value.
pub(crate) fn chain_find_mut<'a, K: Key, V>(link: &'a mut Option<Box<Entry<K, V>>>, key: &K) -> (r: Option<&'a mut V>)
    ensures
        match r {
            Some(place) => {
                &&& chain_get(chain_of(*old(link)), key@) == Some(*place)
                &&& chain_of(*final(link)) == chain_put(chain_of(*old(link)), key@, *final(place))
            },
            None => {
                &&& chain_get(chain_of(*old(link)), key@) is None
                &&& *final(link) == *old(link)
            },
        },
{
    let ghost whole = chain_of(*link);
    let ghost mut passed: Seq<(K::V, V)> = Seq::empty();
    let mut cursor = link;
    loop
        invariant
            whole == chain_of(*old(link)),
            whole == passed + chain_of(*cursor),
            forall|i: int| 0 <= i < passed.len() ==> (#[trigger] passed[i]).0 != key@,
            chain_of(*final(link)) == passed + chain_of(*final(cursor)),
            *final(cursor) == *cursor ==> *final(link) == *old(link),
        decreases *cursor,
    {
        proof {
            lemma_chain_front(passed, chain_of(*cursor), key@);
        }
        match cursor {
            None => {
                return None;
            },
            Some(entry) => {
                if entry.key.same(key) {
                    return Some(&mut entry.value);
                }
                proof {
                    passed = passed.push((entry.key@, entry.value));
                }
                cursor = &mut entry.next;
            },
        }
    }
}

} // verus!
