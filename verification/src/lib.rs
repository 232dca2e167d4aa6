//! A hash table with chained buckets that grows as it fills.
//!
//! [`HashMap`] maps keys to values. A key is reduced to a digest, the digest
//! picks a bucket, and the entries of a bucket form a singly linked chain. A
//! table starts with 16 buckets and doubles them before it would be more than
//! three quarters full; it never shrinks.
//!
//! The contracts of the table speak of a mathematical model of it, a sequence
//! of chains. The module [`model`] defines the model and the operations on
//! it, [`laws`] states what holds of them, and [`key`] says what a type must
//! offer for its values to be keys.

pub mod key;
pub mod laws;
pub mod model;
pub mod table;

mod chain;
mod lemmas;

pub use key::Key;
pub use table::{HashMap, Iter};
