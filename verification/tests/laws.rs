use chained_map::HashMap;

/// The pairs that the iterator of `table` yields, in its order.
fn pairs(table: &HashMap<u64, u64>) -> Vec<(u64, u64)> {
    let mut out = Vec::new();
    let mut iter = table.iter();
    while let Some((k, v)) = iter.next() {
        out.push((*k, *v));
    }
    out
}

#[test]
fn keys_are_unique_after_repeated_inserts() {
    let mut table: HashMap<u64, u64> = HashMap::new();
    for round in 0..3u64 {
        for k in 0..50u64 {
            table.insert(k, k + round);
        }
    }
    assert_eq!(table.len(), 50);
    let mut keys: Vec<u64> = pairs(&table).iter().map(|p| p.0).collect();
    keys.sort();
    let expected: Vec<u64> = (0..50).collect();
    assert_eq!(keys, expected);
}

#[test]
fn what_was_inserted_is_found() {
    let mut table: HashMap<u64, u64> = HashMap::new();
    table.insert(7, 70);
    assert_eq!(table.get(&7), Some(&70));
    // other keys come and go
    for k in 100..140u64 {
        table.insert(k, 0);
    }
    for k in 100..120u64 {
        table.remove(&k);
    }
    assert_eq!(table.get(&7), Some(&70));
    // a later insert for the key is what counts
    table.insert(7, 71);
    assert_eq!(table.get(&7), Some(&71));
}

#[test]
fn update_returns_the_prior_value_and_keeps_the_length() {
    let mut table: HashMap<u64, u64> = HashMap::new();
    assert_eq!(table.len(), 0);
    assert_eq!(table.insert(3, 30), None);
    assert_eq!(table.len(), 1);
    assert_eq!(table.insert(4, 40), None);
    assert_eq!(table.len(), 2);
    assert_eq!(table.insert(3, 31), Some(30));
    assert_eq!(table.len(), 2);
    assert_eq!(table.insert(3, 32), Some(31));
    assert_eq!(table.len(), 2);
}

#[test]
fn remove_then_get_is_absent() {
    let mut table: HashMap<u64, u64> = HashMap::new();
    table.insert(3, 30);
    table.insert(4, 40);
    assert_eq!(table.remove(&3), Some(30));
    assert_eq!(table.get(&3), None);
    assert_eq!(table.len(), 1);
    assert_eq!(table.get(&4), Some(&40));
}

#[test]
fn remove_of_an_absent_key_changes_nothing() {
    let mut table: HashMap<u64, u64> = HashMap::new();
    table.insert(3, 30);
    let before = pairs(&table);
    assert_eq!(table.remove(&9), None);
    assert_eq!(table.len(), 1);
    assert_eq!(pairs(&table), before);
    assert_eq!(table.capacity(), 16);
}

#[test]
fn remove_and_reinsert() {
    let mut table: HashMap<u64, u64> = HashMap::new();
    table.insert(3, 30);
    assert_eq!(table.remove(&3), Some(30));
    assert_eq!(table.remove(&3), None);
    assert_eq!(table.insert(3, 33), None);
    assert_eq!(table.get(&3), Some(&33));
    assert_eq!(table.len(), 1);
}

#[test]
fn growth_keeps_every_entry() {
    let mut table: HashMap<u64, u64> = HashMap::new();
    for k in 0..12u64 {
        table.insert(k, k * k);
    }
    assert_eq!(table.capacity(), 16);
    assert_eq!(table.len(), 12);
    // the table grows before it takes the next value, also for a present key
    assert_eq!(table.insert(5, 25), Some(25));
    assert_eq!(table.capacity(), 32);
    assert_eq!(table.len(), 12);
    for k in 0..12u64 {
        assert_eq!(table.get(&k), Some(&(k * k)));
    }
}

#[test]
fn growth_happens_at_three_quarters() {
    let mut table: HashMap<u64, u64> = HashMap::new();
    let mut seen = Vec::new();
    for k in 0..100u64 {
        let before = table.capacity();
        table.insert(k, k);
        if table.capacity() != before {
            seen.push((table.len() - 1, before, table.capacity()));
        }
    }
    // 16 * 3 / 4 = 12, 32 * 3 / 4 = 24, 64 * 3 / 4 = 48, 128 * 3 / 4 = 96
    assert_eq!(seen, vec![(12, 16, 32), (24, 32, 64), (48, 64, 128), (96, 128, 256)]);
    assert_eq!(table.len(), 100);
}

#[test]
fn capacity_never_shrinks() {
    let mut table: HashMap<u64, u64> = HashMap::new();
    for k in 0..30u64 {
        table.insert(k, k);
    }
    assert_eq!(table.capacity(), 64);
    for k in 0..30u64 {
        assert_eq!(table.remove(&k), Some(k));
    }
    assert!(table.is_empty());
    assert_eq!(table.len(), 0);
    assert_eq!(table.capacity(), 64);
}

#[test]
fn iteration_yields_each_entry_once() {
    let mut table: HashMap<u64, u64> = HashMap::new();
    for k in 0..40u64 {
        table.insert(k, k + 1);
    }
    for k in 0..40u64 {
        if k % 3 == 0 {
            table.remove(&k);
        }
    }
    let mut seen = pairs(&table);
    assert_eq!(seen.len(), table.len());
    seen.sort();
    let expected: Vec<(u64, u64)> = (0..40u64).filter(|k| k % 3 != 0).map(|k| (k, k + 1)).collect();
    assert_eq!(seen, expected);
}
