//! The table itself: the bucket array, and the operations on it.

use crate::chain::{
    chain_find, chain_find_mut, chain_from, chain_insert, chain_of, chain_pop, chain_push,
    chain_remove, chains_of, lemma_chains_update, Entry,
};
use crate::key::{hash, Key};
use crate::lemmas::{
    lemma_blank, lemma_capacity, lemma_capacity_steps, lemma_cut, lemma_put, lemma_regroup,
    lemma_traversal,
};
use crate::model::{
    blank, contents, count, cut, get, grown, link, loaded, pour, put, regroup, slot, traversal,
    valid,
};
use vstd::prelude::*;
use vstd::seq_lib::lemma_flatten_concat;

verus! {

/// A hash table from keys to values. Keys that fall into the same bucket are
/// chained, and the table doubles its buckets before it would be more than
/// three quarters full.
pub struct HashMap<K, V> {
    buckets: Vec<Option<Box<Entry<K, V>>>>,
    size: usize,
    capacity: usize,
}

impl<K: Key, V: Clone> View for HashMap<K, V> {
    type V = Map<K::V, V>;

    /// The table as a map from the keys' views to the values.
    open spec fn view(&self) -> Map<K::V, V> {
        contents::<K, V>(self.chains())
    }
}

/// A bucket array of `capacity` empty buckets.
fn empty_buckets<K: Key, V>(capacity: usize) -> (buckets: Vec<Option<Box<Entry<K, V>>>>)
    ensures
        buckets@.len() == capacity,
        forall|b: int| 0 <= b < capacity ==> (#[trigger] buckets@[b]) is None,
{
    let mut buckets: Vec<Option<Box<Entry<K, V>>>> = Vec::with_capacity(capacity);
    let mut made: usize = 0;
    while made < capacity
        invariant
            made <= capacity,
            buckets@.len() == made,
            forall|b: int| 0 <= b < made ==> (#[trigger] buckets@[b]) is None,
        decreases capacity - made,
    {
        buckets.push(None);
        made += 1;
    }
    buckets
}

impl<K: Key, V: Clone> HashMap<K, V> {
    /// The chains of the table, one for each bucket, each with its head first.
    pub closed spec fn chains(&self) -> Seq<Seq<(K::V, V)>> {
        chains_of(self.buckets@)
    }

    /// The invariant of the table: its chains are valid, and it knows how many
    /// buckets and entries it has.
    pub closed spec fn wf(&self) -> bool {
        &&& self.capacity == self.buckets@.len()
        &&& self.size == count::<K, V>(self.chains())
        &&& valid::<K, V>(self.chains())
    }

    /// The number of entries, as `len` returns it.
    pub open spec fn spec_len(&self) -> nat {
        count::<K, V>(self.chains())
    }

    /// The number of buckets, as `capacity` returns it.
    pub open spec fn spec_capacity(&self) -> nat {
        self.chains().len()
    }

    /// Whether the table doubles its buckets before it takes another value.
    pub open spec fn must_grow(&self) -> bool {
        loaded::<K, V>(self.chains())
    }

    /// A well-formed table has valid chains, and as many entries as keys.
    pub proof fn lemma_wf(&self)
        requires
            self.wf(),
        ensures
            valid::<K, V>(self.chains()),
            self@.dom().finite(),
            self@.len() == self.spec_len(),
            self.spec_capacity() >= 16,
            self.spec_len() <= self.spec_capacity() * 3 / 4,
    {
        lemma_traversal::<K, V>(self.chains());
        lemma_capacity(self.chains().len());
    }

    /// An empty table with 16 buckets.
    pub fn new() -> (table: Self)
        ensures
            table.wf(),
            table.chains() == blank::<K, V>(16),
            table@ == Map::<K::V, V>::empty(),
            table.spec_len() == 0,
            table.spec_capacity() == 16,
    {
        let table = HashMap { buckets: empty_buckets(16), size: 0, capacity: 16 };
        proof {
            assert(table.chains() =~= blank::<K, V>(16));
            lemma_blank::<K, V>(16);
            lemma_capacity_steps(16);
        }
        table
    }

    /// The bucket of `key`.
    fn bucket_index(&self, key: &K) -> (b: usize)
        requires
            self.wf(),
        ensures
            b == slot::<K>(key@, self.chains().len()),
            b < self.buckets@.len(),
    {
        proof {
            lemma_capacity(self.chains().len());
        }
        (hash(key) % (self.capacity as u64)) as usize
    }

    /// The value stored for `key`, if any.
    pub fn get(&self, key: &K) -> (found: Option<&V>)
        requires
            self.wf(),
        ensures
            found == (match self@.get(key@) {
                Some(value) => Some(&value),
                None => None,
            }),
    {
        let index = self.bucket_index(key);
        chain_find(&self.buckets[index], key)
    }

    /// The place of the value stored for `key`, if any: what the caller
    /// writes there is the value that the table then holds for `key`.
    pub fn get_mut(&mut self, key: &K) -> (found: Option<&mut V>)
        requires
            old(self).wf(),
        ensures
            match found {
                Some(place) => {
                    &&& old(self)@.get(key@) == Some(*place)
                    &&& final(self).chains() == put::<K, V>(
                        old(self).chains(),
                        key@,
                        *final(place),
                    )
                    &&& final(self)@ == old(self)@.insert(key@, *final(place))
                },
                None => {
                    &&& old(self)@.get(key@) is None
                    &&& final(self).chains() == old(self).chains()
                },
            },
            final(self).wf(),
            final(self).spec_len() == old(self).spec_len(),
            final(self).spec_capacity() == old(self).spec_capacity(),
    {
        let index = self.bucket_index(key);
        proof {
            let chains = self.chains();
            lemma_chains_update(self.buckets@, index as int);
            assert(self.buckets@.update(index as int, self.buckets@[index as int])
                =~= self.buckets@);
            assert(chains[index as int] == chain_of(self.buckets@[index as int]));
            if get::<K, V>(chains, key@) is Some {
                assert forall|value: V|
                    valid::<K, V>(#[trigger] put::<K, V>(chains, key@, value)) && count::<K, V>(
                        put::<K, V>(chains, key@, value),
                    ) == count::<K, V>(chains) && contents::<K, V>(
                        put::<K, V>(chains, key@, value),
                    ) == contents::<K, V>(chains).insert(key@, value) by {
                    lemma_put::<K, V>(chains, key@, value);
                }
            }
        }
        chain_find_mut(&mut self.buckets[index], key)
    }

    /// Stores `value` for `key` and returns the value that was stored for it
    /// before, if any. A table that has reached its load doubles its buckets
    /// first. The entry of a key that was present keeps its place in its
    /// chain; that of a new key becomes the head of its chain.
    pub fn insert(&mut self, key: K, value: V) -> (prior: Option<V>)
        requires
            old(self).wf(),
            old(self).must_grow() ==> 2 * old(self).spec_capacity() <= usize::MAX,
        ensures
            final(self).wf(),
            final(self).chains() == put::<K, V>(grown::<K, V>(old(self).chains()), key@, value),
            prior == old(self)@.get(key@),
            final(self)@ == old(self)@.insert(key@, value),
            final(self).spec_len() == old(self).spec_len() + (if prior is Some {
                0int
            } else {
                1int
            }),
            final(self).spec_capacity() == (if old(self).must_grow() {
                2 * old(self).spec_capacity()
            } else {
                old(self).spec_capacity()
            }),
    {
        proof {
            lemma_capacity(self.chains().len());
        }
        // three quarters of the buckets; a capacity is a multiple of four
        if self.size >= self.capacity / 4 * 3 {
            self.resize();
        }
        self.store(key, value)
    }

    /// Stores `value` for `key` in a table that has room for one more entry.
    fn store(&mut self, key: K, value: V) -> (prior: Option<V>)
        requires
            old(self).wf(),
            !loaded::<K, V>(old(self).chains()),
        ensures
            final(self).wf(),
            final(self).chains() == put::<K, V>(old(self).chains(), key@, value),
            prior == old(self)@.get(key@),
            final(self)@ == old(self)@.insert(key@, value),
            final(self).spec_len() == old(self).spec_len() + (if prior is Some {
                0int
            } else {
                1int
            }),
    {
        let index = self.bucket_index(&key);
        proof {
            lemma_chains_update(self.buckets@, index as int);
            lemma_put::<K, V>(self.chains(), key@, value);
        }
        let prior = chain_insert(&mut self.buckets[index], key, value);
        if prior.is_none() {
            self.size += 1;
        }
        prior
    }

    /// Doubles the buckets: every entry is unlinked, in the order of
    /// traversal, and becomes the head of the chain of its new bucket.
    fn resize(&mut self)
        requires
            old(self).wf(),
            2 * old(self).chains().len() <= usize::MAX,
        ensures
            final(self).wf(),
            final(self).chains() == regroup::<K, V>(
                old(self).chains(),
                2 * old(self).chains().len(),
            ),
            final(self).chains().len() == 2 * old(self).chains().len(),
            final(self)@ == old(self)@,
            count::<K, V>(final(self).chains()) == count::<K, V>(old(self).chains()),
    {
        let ghost before = self.chains();
        let new_capacity = self.capacity * 2;
        let mut new_buckets: Vec<Option<Box<Entry<K, V>>>> = empty_buckets(new_capacity);
        let mut b: usize = 0;
        while b < self.capacity
            invariant
                b <= self.capacity,
                self.capacity == self.buckets@.len(),
                self.capacity == before.len(),
                self.size == old(self).size,
                new_capacity == 2 * self.capacity,
                new_buckets@.len() == new_capacity,
                forall|i: int|
                    b <= i < self.capacity ==> chain_of(#[trigger] self.buckets@[i]) == before[i],
                chains_of(new_buckets@) == pour::<K, V>(
                    blank::<K, V>(new_capacity as nat),
                    traversal::<K, V>(before.take(b as int)),
                ),
            decreases self.capacity - b,
        {
            let ghost done = traversal::<K, V>(before.take(b as int));
            let ghost chain = before[b as int];
            let ghost mut moved: int = 0;
            loop
                invariant
                    b < self.capacity,
                    self.capacity == self.buckets@.len(),
                    self.capacity == before.len(),
                    self.size == old(self).size,
                    new_capacity == 2 * self.capacity,
                    new_buckets@.len() == new_capacity,
                    chain == before[b as int],
                    forall|i: int|
                        b < i < self.capacity ==> chain_of(#[trigger] self.buckets@[i])
                            == before[i],
                    0 <= moved <= chain.len(),
                    chain_of(self.buckets@[b as int]) == chain.skip(moved),
                    chains_of(new_buckets@) == pour::<K, V>(
                        blank::<K, V>(new_capacity as nat),
                        done + chain.take(moved),
                    ),
                ensures
                    self.capacity == self.buckets@.len(),
                    self.size == old(self).size,
                    new_buckets@.len() == new_capacity,
                    forall|i: int|
                        b < i < self.capacity ==> chain_of(#[trigger] self.buckets@[i])
                            == before[i],
                    chains_of(new_buckets@) == pour::<K, V>(
                        blank::<K, V>(new_capacity as nat),
                        done + chain,
                    ),
                decreases chain.len() - moved,
            {
                match chain_pop(&mut self.buckets[b]) {
                    None => {
                        proof {
                            assert(chain.take(moved) =~= chain);
                        }
                        break;
                    },
                    Some(entry) => {
                        proof {
                            let sofar = done + chain.take(moved);
                            let more = done + chain.take(moved + 1);
                            assert(more.drop_last() =~= sofar);
                            moved = moved + 1;
                        }
                        Self::relink(&mut new_buckets, entry);
                    },
                }
            }
            proof {
                assert(before.take(b + 1) =~= before.take(b as int).push(chain));
                before.take(b as int).lemma_flatten_push(chain);
            }
            b += 1;
        }
        proof {
            assert(before.take(b as int) =~= before);
            lemma_capacity_steps(before.len());
            lemma_regroup::<K, V>(before, new_capacity as nat);
        }
        self.buckets = new_buckets;
        self.capacity = new_capacity;
    }

    /// Links `entry` as the head of the chain of its key's bucket in `buckets`.
    fn relink(buckets: &mut Vec<Option<Box<Entry<K, V>>>>, entry: Box<Entry<K, V>>)
        requires
            old(buckets)@.len() > 0,
        ensures
            final(buckets)@.len() == old(buckets)@.len(),
            chains_of(final(buckets)@) == link::<K, V>(
                chains_of(old(buckets)@),
                (entry.key@, entry.value),
            ),
    {
        let index = (hash(&entry.key) % (buckets.len() as u64)) as usize;
        chain_push(&mut buckets[index], entry);
    }

    /// Removes `key` and returns the value that was stored for it, if any.
    pub fn remove(&mut self, key: &K) -> (removed: Option<V>)
        requires
            old(self).wf(),
        ensures
            final(self).wf(),
            final(self).chains() == cut::<K, V>(old(self).chains(), key@),
            removed == old(self)@.get(key@),
            final(self)@ == old(self)@.remove(key@),
            final(self).spec_len() == old(self).spec_len() - (if removed is Some {
                1int
            } else {
                0int
            }),
            final(self).spec_capacity() == old(self).spec_capacity(),
    {
        let index = self.bucket_index(key);
        proof {
            lemma_chains_update(self.buckets@, index as int);
            lemma_cut::<K, V>(self.chains(), key@);
        }
        let removed = chain_remove(&mut self.buckets[index], key);
        if removed.is_some() {
            self.size -= 1;
        }
        removed
    }

    /// The number of entries, which is the number of keys.
    pub fn len(&self) -> (n: usize)
        requires
            self.wf(),
        ensures
            n == self.spec_len(),
            n == self@.len(),
    {
        proof {
            lemma_traversal::<K, V>(self.chains());
        }
        self.size
    }

    /// Whether the table has no entries.
    pub fn is_empty(&self) -> (b: bool)
        requires
            self.wf(),
        ensures
            b == (self.spec_len() == 0),
            b == (self@.len() == 0),
    {
        proof {
            lemma_traversal::<K, V>(self.chains());
        }
        self.size == 0
    }

    /// An iterator over the entries, in the order of traversal: bucket by
    /// bucket, and within a bucket from the head of the chain on.
    pub fn iter(&self) -> (iter: Iter<'_, K, V>)
        ensures
            iter.sequence() == traversal::<K, V>(self.chains()),
            iter.position() == 0,
    {
        Iter { map: self, bucket_idx: 0, current: None }
    }

    /// The number of buckets.
    pub fn capacity(&self) -> (n: usize)
        requires
            self.wf(),
        ensures
            n == self.spec_capacity(),
    {
        self.capacity
    }
}

/// An iterator over the entries of a table.
pub struct Iter<'a, K: Key, V: Clone> {
    map: &'a HashMap<K, V>,
    bucket_idx: usize,
    current: Option<&'a Entry<K, V>>,
}

impl<'a, K: Key, V: Clone> Iter<'a, K, V> {
    /// All pairs that the iterator yields from its start to its end, in order.
    pub closed spec fn sequence(&self) -> Seq<(K::V, V)> {
        traversal::<K, V>(self.map.chains())
    }

    /// How many pairs the iterator has yielded.
    pub closed spec fn position(&self) -> int {
        traversal::<K, V>(self.map.chains().take(self.bucket_idx as int)).len() - chain_from(
            self.current,
        ).len()
    }

    /// The invariant of the iterator: it stands in a chain of the bucket that
    /// it entered last, or between buckets.
    #[verifier::type_invariant]
    spec fn inv(&self) -> bool {
        let chains = self.map.chains();
        let rest = chain_from(self.current);
        &&& self.bucket_idx <= self.map.buckets@.len()
        &&& self.current is Some ==> {
            &&& self.bucket_idx > 0
            &&& rest.len() <= chains[self.bucket_idx - 1].len()
            &&& rest == chains[self.bucket_idx - 1].skip(
                chains[self.bucket_idx - 1].len() - rest.len(),
            )
        }
    }

    /// Where the iterator stands: within the sequence, and at the pair that
    /// it yields next if it stands in a chain.
    proof fn lemma_position(&self)
        requires
            self.inv(),
        ensures
            0 <= self.position() <= self.sequence().len(),
            self.current is Some ==> self.position() < self.sequence().len(),
            self.current is Some ==> self.sequence()[self.position()] == chain_from(
                self.current,
            )[0],
    {
        let chains = self.map.chains();
        let b = self.bucket_idx as int;
        assert(chains =~= chains.take(b) + chains.skip(b));
        lemma_flatten_concat(chains.take(b), chains.skip(b));
        if self.current is Some {
            let chain = chains[b - 1];
            assert(chains.take(b) =~= chains.take(b - 1).push(chain));
            chains.take(b - 1).lemma_flatten_push(chain);
        }
    }

    /// The next pair, or `None` when every entry has been yielded.
    pub fn next(&mut self) -> (found: Option<(&'a K, &'a V)>)
        ensures
            final(self).sequence() == old(self).sequence(),
            0 <= old(self).position() <= old(self).sequence().len(),
            match found {
                Some(pair) => {
                    &&& old(self).position() < old(self).sequence().len()
                    &&& (pair.0@, *pair.1) == old(self).sequence()[old(self).position()]
                    &&& final(self).position() == old(self).position() + 1
                },
                None => {
                    &&& old(self).position() == old(self).sequence().len()
                    &&& final(self).position() == old(self).position()
                },
            },
    {
        proof {
            use_type_invariant(&*self);
        }
        loop
            invariant
                self.inv(),
                self.map == old(self).map,
                self.position() == old(self).position(),
            decreases
                self.map.buckets@.len() - self.bucket_idx,
                chain_from(self.current).len(),
        {
            proof {
                self.lemma_position();
            }
            let ghost chains = self.map.chains();
            let ghost b = self.bucket_idx as int;
            if let Some(entry) = self.current {
                let ghost rest = chain_from(self.current);
                proof {
                    let chain = chains[b - 1];
                    let at = chain.len() - rest.len();
                    assert(chain_of(entry.next) =~= rest.drop_first());
                    assert(rest.drop_first() =~= chain.skip(at + 1));
                }
                self.current = match &entry.next {
                    Some(boxed) => Some(&**boxed),
                    None => None,
                };
                return Some((&entry.key, &entry.value));
            }
            if self.bucket_idx >= self.map.buckets.len() {
                proof {
                    assert(chains.take(b) =~= chains);
                }
                return None;
            }
            let head = &self.map.buckets[self.bucket_idx];
            proof {
                let chain = chains[b];
                assert(chain.skip(0) =~= chain);
                assert(chains.take(b + 1) =~= chains.take(b).push(chain));
                chains.take(b).lemma_flatten_push(chain);
            }
            self.bucket_idx += 1;
            self.current = match head {
                Some(boxed) => Some(&**boxed),
                None => None,
            };
        }
    }
}

} // verus!
