use chained_map::HashMap;

#[test]
fn a_fresh_table_is_empty_with_sixteen_buckets() {
    let table: HashMap<u64, u64> = HashMap::new();
    assert_eq!(table.len(), 0);
    assert!(table.is_empty());
    assert_eq!(table.capacity(), 16);
    assert_eq!(table.get(&0), None);
}

#[test]
fn get_on_an_empty_table_is_absent() {
    let mut table: HashMap<&str, u64> = HashMap::new();
    assert_eq!(table.get(&"nothing"), None);
    assert!(table.get_mut(&"nothing").is_none());
    assert_eq!(table.remove(&"nothing"), None);
    assert!(table.is_empty());
}

#[test]
fn is_empty_follows_the_length() {
    let mut table: HashMap<u64, u64> = HashMap::new();
    assert!(table.is_empty());
    table.insert(1, 1);
    assert!(!table.is_empty());
    table.remove(&1);
    assert!(table.is_empty());
}

#[test]
fn get_mut_changes_the_value_in_place() {
    let mut table: HashMap<u64, String> = HashMap::new();
    table.insert(1, String::from("one"));
    table.insert(2, String::from("two"));
    match table.get_mut(&1) {
        Some(value) => value.push_str("!"),
        None => panic!("the key is present"),
    }
    assert_eq!(table.get(&1), Some(&String::from("one!")));
    assert_eq!(table.get(&2), Some(&String::from("two")));
    assert_eq!(table.len(), 2);
    assert_eq!(table.capacity(), 16);
}

#[test]
fn get_mut_of_an_absent_key_is_absent() {
    let mut table: HashMap<u64, u64> = HashMap::new();
    table.insert(1, 10);
    assert!(table.get_mut(&2).is_none());
    assert_eq!(table.get(&1), Some(&10));
    assert_eq!(table.len(), 1);
}

#[test]
fn get_mut_does_not_grow_a_loaded_table() {
    let mut table: HashMap<u64, u64> = HashMap::new();
    for k in 0..12u64 {
        table.insert(k, 0);
    }
    assert_eq!(table.capacity(), 16);
    *table.get_mut(&3).unwrap() = 9;
    assert_eq!(table.capacity(), 16);
    assert_eq!(table.get(&3), Some(&9));
}

#[test]
fn many_keys_survive_many_growths() {
    let mut table: HashMap<u64, u64> = HashMap::new();
    for k in 0..5000u64 {
        assert_eq!(table.insert(k * 7919, k), None);
    }
    assert_eq!(table.len(), 5000);
    assert_eq!(table.capacity(), 8192);
    for k in 0..5000u64 {
        assert_eq!(table.get(&(k * 7919)), Some(&k));
    }
    for k in 0..5000u64 {
        if k % 2 == 0 {
            assert_eq!(table.remove(&(k * 7919)), Some(k));
        }
    }
    assert_eq!(table.len(), 2500);
    for k in 0..5000u64 {
        let expected = if k % 2 == 0 { None } else { Some(k) };
        assert_eq!(table.get(&(k * 7919)).copied(), expected);
    }
}
