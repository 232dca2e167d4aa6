use chained_map::key::hash;
use chained_map::{HashMap, Key};
use std::collections::hash_map::DefaultHasher;
use std::hash::Hasher;

/// What the hasher returns for a single write of `bytes`.
fn digest_of(bytes: &[u8]) -> u64 {
    let mut state = DefaultHasher::new();
    state.write(bytes);
    state.finish()
}

#[test]
fn a_word_is_hashed_by_its_bytes_lowest_first() {
    assert_eq!(hash(&1u64), digest_of(&[1, 0, 0, 0, 0, 0, 0, 0]));
    assert_eq!(hash(&0x0102_0304_0506_0708u64), digest_of(&[8, 7, 6, 5, 4, 3, 2, 1]));
    assert_eq!(hash(&258u16), digest_of(&[2, 1, 0, 0, 0, 0, 0, 0]));
    assert_eq!(hash(&7u8), hash(&7u64));
    assert_eq!(hash(&7usize), hash(&7u64));
    assert_eq!(hash(&7u32), hash(&7u64));
}

#[test]
fn a_negative_number_is_hashed_by_its_extended_word() {
    assert_eq!(hash(&-1i32), digest_of(&[255; 8]));
    assert_eq!(hash(&-1i8), hash(&u64::MAX));
    assert_eq!(hash(&-2i64), digest_of(&[254, 255, 255, 255, 255, 255, 255, 255]));
    assert_eq!(hash(&-2i16), hash(&-2isize));
}

#[test]
fn a_wide_number_is_hashed_by_both_words() {
    let wide: u128 = (3u128 << 64) | 5;
    assert_eq!(hash(&wide), digest_of(&[5, 0, 0, 0, 0, 0, 0, 0, 3, 0, 0, 0, 0, 0, 0, 0]));
    assert_eq!(hash(&-1i128), digest_of(&[255; 16]));
}

#[test]
fn a_truth_value_is_hashed_by_one_byte() {
    assert_eq!(hash(&true), digest_of(&[1]));
    assert_eq!(hash(&false), digest_of(&[0]));
}

#[test]
fn a_character_is_hashed_by_its_code() {
    assert_eq!(hash(&'a'), digest_of(&[97, 0, 0, 0, 0, 0, 0, 0]));
    assert_eq!(hash(&'\u{20ac}'), digest_of(&[0xac, 0x20, 0, 0, 0, 0, 0, 0]));
}

#[test]
fn text_is_hashed_by_its_bytes() {
    assert_eq!(hash(&"abc"), digest_of(b"abc"));
    assert_eq!(hash(&String::from("abc")), digest_of(b"abc"));
    assert_eq!(hash(&""), digest_of(b""));
    assert_eq!(hash(&"\u{20ac}"), digest_of(&[0xe2, 0x82, 0xac]));
}

#[test]
fn equal_keys_have_equal_digests() {
    let a = String::from("key");
    let b = String::from("key");
    assert!(a.same(&b));
    assert_eq!(hash(&a), hash(&b));
    assert_eq!(hash(&42u64), hash(&42u64));
}

#[test]
fn same_tells_keys_apart() {
    assert!(5u64.same(&5));
    assert!(!5u64.same(&6));
    assert!((-5i32).same(&-5));
    assert!(!(-5i32).same(&5));
    assert!(true.same(&true));
    assert!(!true.same(&false));
    assert!('x'.same(&'x'));
    assert!(!'x'.same(&'y'));
    assert!("abc".same(&"abc"));
    assert!(!"abc".same(&"abd"));
    assert!(!"abc".same(&"ab"));
    assert!(!"".same(&"a"));
    assert!("".same(&""));
    assert!(String::from("abc").same(&String::from("abc")));
    assert!(!String::from("abc").same(&String::from("abC")));
    assert!(u128::MAX.same(&u128::MAX));
    assert!(!(1u128 << 64).same(&0));
    assert!(!(-1i128).same(&1));
}

#[test]
fn every_kind_of_key_can_be_stored() {
    let mut bytes: HashMap<u8, u8> = HashMap::new();
    bytes.insert(255, 1);
    assert_eq!(bytes.get(&255), Some(&1));
    assert_eq!(bytes.get(&0), None);

    let mut signed: HashMap<i64, &str> = HashMap::new();
    signed.insert(-1, "minus one");
    signed.insert(1, "one");
    assert_eq!(signed.get(&-1), Some(&"minus one"));
    assert_eq!(signed.get(&1), Some(&"one"));

    let mut flags: HashMap<bool, u32> = HashMap::new();
    flags.insert(true, 1);
    flags.insert(false, 0);
    assert_eq!(flags.len(), 2);
    assert_eq!(flags.get(&true), Some(&1));

    let mut letters: HashMap<char, usize> = HashMap::new();
    for (i, c) in "hello".chars().enumerate() {
        letters.insert(c, i);
    }
    assert_eq!(letters.len(), 4);
    assert_eq!(letters.get(&'l'), Some(&3));

    let mut wide: HashMap<u128, u8> = HashMap::new();
    wide.insert(1 << 64, 1);
    wide.insert(0, 2);
    assert_eq!(wide.get(&(1 << 64)), Some(&1));
    assert_eq!(wide.get(&0), Some(&2));

    let mut names: HashMap<String, Vec<u8>> = HashMap::new();
    names.insert(String::from("empty"), Vec::new());
    names.insert(String::from("one"), vec![1]);
    assert_eq!(names.get(&String::from("one")), Some(&vec![1]));
    assert_eq!(names.remove(&String::from("empty")), Some(Vec::new()));
    assert_eq!(names.len(), 1);
}
