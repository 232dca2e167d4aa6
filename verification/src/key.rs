//! Keys: what a type must offer to be stored in the table, and the digest of a key.

use std::collections::hash_map::DefaultHasher;
use std::hash::Hasher;
use vstd::prelude::*;
use vstd::std_specs::hash::DefaultHasherAdditionalSpecFns;

verus! {

/// A type whose values can serve as keys.
///
/// Two keys are the same key exactly when their views are equal, and a key is
/// hashed through an encoding of its view as bytes, so keys that are the same
/// always have the same digest.
pub trait Key: View + Clone + Sized {
    /// The bytes that a key with view `id` hands to the hasher.
    spec fn encoding(id: Self::V) -> Seq<u8>;

    /// Hands the key's encoding to `state` in a single write.
    fn feed(&self, state: &mut DefaultHasher)
        ensures
            final(state)@ == old(state)@.push(Self::encoding(self@)),
    ;

    /// Decides whether `self` and `other` are the same key.
    fn same(&self, other: &Self) -> (r: bool)
        ensures
            r == (self@ == other@),
    ;
}

/// The digest of the key with view `id`: what the hasher returns after it has
/// been fed the key's encoding and nothing else.
pub open spec fn digest<K: Key>(id: K::V) -> u64 {
    DefaultHasher::spec_finish(seq![K::encoding(id)])
}

/// Reduces a key to its digest.
pub fn hash<K: Key>(key: &K) -> (h: u64)
    ensures
        h == digest::<K>(key@),
{
    let mut state = DefaultHasher::new();
    key.feed(&mut state);
    state.finish()
}

/// The eight bytes of `word`, least significant first.
pub open spec fn word_bytes(word: u64) -> Seq<u8> {
    seq![
        word as u8,
        (word >> 8) as u8,
        (word >> 16) as u8,
        (word >> 24) as u8,
        (word >> 32) as u8,
        (word >> 40) as u8,
        (word >> 48) as u8,
        (word >> 56) as u8,
    ]
}

fn feed_word(word: u64, state: &mut DefaultHasher)
    ensures
        final(state)@ == old(state)@.push(word_bytes(word)),
{
    let bytes: [u8; 8] = [
        word as u8,
        (word >> 8) as u8,
        (word >> 16) as u8,
        (word >> 24) as u8,
        (word >> 32) as u8,
        (word >> 40) as u8,
        (word >> 48) as u8,
        (word >> 56) as u8,
    ];
    state.write(bytes.as_slice());
}

fn feed_words(low: u64, high: u64, state: &mut DefaultHasher)
    ensures
        final(state)@ == old(state)@.push(word_bytes(low) + word_bytes(high)),
{
    let bytes: [u8; 16] = [
        low as u8,
        (low >> 8) as u8,
        (low >> 16) as u8,
        (low >> 24) as u8,
        (low >> 32) as u8,
        (low >> 40) as u8,
        (low >> 48) as u8,
        (low >> 56) as u8,
        high as u8,
        (high >> 8) as u8,
        (high >> 16) as u8,
        (high >> 24) as u8,
        (high >> 32) as u8,
        (high >> 40) as u8,
        (high >> 48) as u8,
        (high >> 56) as u8,
    ];
    assert(bytes@ =~= word_bytes(low) + word_bytes(high));
    state.write(bytes.as_slice());
}

impl Key for u64 {
    open spec fn encoding(id: u64) -> Seq<u8> {
        word_bytes(id)
    }

    fn feed(&self, state: &mut DefaultHasher) {
        feed_word(*self, state);
    }

    fn same(&self, other: &Self) -> (r: bool) {
        *self == *other
    }
}

impl Key for u8 {
    open spec fn encoding(id: u8) -> Seq<u8> {
        word_bytes(id as u64)
    }

    fn feed(&self, state: &mut DefaultHasher) {
        feed_word(*self as u64, state);
    }

    fn same(&self, other: &Self) -> (r: bool) {
        *self == *other
    }
}

impl Key for u16 {
    open spec fn encoding(id: u16) -> Seq<u8> {
        word_bytes(id as u64)
    }

    fn feed(&self, state: &mut DefaultHasher) {
        feed_word(*self as u64, state);
    }

    fn same(&self, other: &Self) -> (r: bool) {
        *self == *other
    }
}

impl Key for u32 {
    open spec fn encoding(id: u32) -> Seq<u8> {
        word_bytes(id as u64)
    }

    fn feed(&self, state: &mut DefaultHasher) {
        feed_word(*self as u64, state);
    }

    fn same(&self, other: &Self) -> (r: bool) {
        *self == *other
    }
}

impl Key for usize {
    open spec fn encoding(id: usize) -> Seq<u8> {
        word_bytes(id as u64)
    }

    fn feed(&self, state: &mut DefaultHasher) {
        feed_word(*self as u64, state);
    }

    fn same(&self, other: &Self) -> (r: bool) {
        *self == *other
    }
}

impl Key for i8 {
    open spec fn encoding(id: i8) -> Seq<u8> {
        word_bytes(id as u64)
    }

    fn feed(&self, state: &mut DefaultHasher) {
        feed_word(*self as u64, state);
    }

    fn same(&self, other: &Self) -> (r: bool) {
        *self == *other
    }
}

impl Key for i16 {
    open spec fn encoding(id: i16) -> Seq<u8> {
        word_bytes(id as u64)
    }

    fn feed(&self, state: &mut DefaultHasher) {
        feed_word(*self as u64, state);
    }

    fn same(&self, other: &Self) -> (r: bool) {
        *self == *other
    }
}

impl Key for i32 {
    open spec fn encoding(id: i32) -> Seq<u8> {
        word_bytes(id as u64)
    }

    fn feed(&self, state: &mut DefaultHasher) {
        feed_word(*self as u64, state);
    }

    fn same(&self, other: &Self) -> (r: bool) {
        *self == *other
    }
}

impl Key for i64 {
    open spec fn encoding(id: i64) -> Seq<u8> {
        word_bytes(id as u64)
    }

    fn feed(&self, state: &mut DefaultHasher) {
        feed_word(*self as u64, state);
    }

    fn same(&self, other: &Self) -> (r: bool) {
        *self == *other
    }
}

impl Key for isize {
    open spec fn encoding(id: isize) -> Seq<u8> {
        word_bytes(id as u64)
    }

    fn feed(&self, state: &mut DefaultHasher) {
        feed_word(*self as u64, state);
    }

    fn same(&self, other: &Self) -> (r: bool) {
        *self == *other
    }
}

impl Key for u128 {
    open spec fn encoding(id: u128) -> Seq<u8> {
        word_bytes(id as u64) + word_bytes((id >> 64) as u64)
    }

    fn feed(&self, state: &mut DefaultHasher) {
        feed_words(*self as u64, (*self >> 64) as u64, state);
    }

    fn same(&self, other: &Self) -> (r: bool) {
        *self == *other
    }
}

impl Key for i128 {
    open spec fn encoding(id: i128) -> Seq<u8> {
        word_bytes(id as u64) + word_bytes((id >> 64) as u64)
    }

    fn feed(&self, state: &mut DefaultHasher) {
        feed_words(*self as u64, (*self >> 64) as u64, state);
    }

    fn same(&self, other: &Self) -> (r: bool) {
        *self == *other
    }
}

impl Key for bool {
    open spec fn encoding(id: bool) -> Seq<u8> {
        seq![if id { 1u8 } else { 0u8 }]
    }

    fn feed(&self, state: &mut DefaultHasher) {
        let bytes: [u8; 1] = [if *self { 1u8 } else { 0u8 }];
        assert(bytes@ =~= Self::encoding(*self));
        state.write(bytes.as_slice());
    }

    fn same(&self, other: &Self) -> (r: bool) {
        *self == *other
    }
}

impl Key for char {
    open spec fn encoding(id: char) -> Seq<u8> {
        word_bytes(id as u64)
    }

    fn feed(&self, state: &mut DefaultHasher) {
        feed_word(*self as u64, state);
    }

    fn same(&self, other: &Self) -> (r: bool) {
        *self == *other
    }
}

/// Whether two slices hold the same bytes.
fn same_bytes(a: &[u8], b: &[u8]) -> (r: bool)
    ensures
        r == (a@ == b@),
{
    if a.len() != b.len() {
        return false;
    }
    let mut i: usize = 0;
    while i < a.len()
        invariant
            a@.len() == b@.len(),
            i <= a@.len(),
            a@.take(i as int) == b@.take(i as int),
        decreases a@.len() - i,
    {
        if a[i] != b[i] {
            return false;
        }
        i += 1;
    }
    assert(a@ =~= a@.take(i as int));
    assert(b@ =~= b@.take(i as int));
    true
}

/// Strings with the same bytes have the same characters.
proof fn lemma_same_text(a: Seq<char>, b: Seq<char>)
    requires
        vstd::utf8::encode_utf8(a) == vstd::utf8::encode_utf8(b),
    ensures
        a == b,
{
    vstd::utf8::encode_utf8_decode_utf8(a);
    vstd::utf8::encode_utf8_decode_utf8(b);
}

impl<'a> Key for &'a str {
    open spec fn encoding(id: Seq<char>) -> Seq<u8> {
        vstd::utf8::encode_utf8(id)
    }

    fn feed(&self, state: &mut DefaultHasher) {
        state.write(self.as_bytes());
    }

    fn same(&self, other: &Self) -> (r: bool) {
        proof {
            if vstd::utf8::encode_utf8(self@) == vstd::utf8::encode_utf8(other@) {
                lemma_same_text(self@, other@);
            }
        }
        same_bytes(self.as_bytes(), other.as_bytes())
    }
}

impl Key for String {
    open spec fn encoding(id: Seq<char>) -> Seq<u8> {
        vstd::utf8::encode_utf8(id)
    }

    fn feed(&self, state: &mut DefaultHasher) {
        state.write(self.as_str().as_bytes());
    }

    fn same(&self, other: &Self) -> (r: bool) {
        *self == *other
    }
}

} // verus!
