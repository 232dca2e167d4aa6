use chained_map::key::hash;
use chained_map::HashMap;

fn keys_of(table: &HashMap<u64, u64>) -> Vec<u64> {
    let mut out = Vec::new();
    let mut iter = table.iter();
    while let Some((k, _)) = iter.next() {
        out.push(*k);
    }
    out
}

fn colliding(modulus: u64, n: usize) -> Vec<u64> {
    let mut keys = Vec::new();
    let mut k = 0u64;
    while keys.len() < n {
        if hash(&k) % modulus == hash(&0u64) % modulus {
            keys.push(k);
        }
        k += 1;
    }
    keys
}

#[test]
fn an_empty_table_yields_nothing() {
    let table: HashMap<u64, u64> = HashMap::new();
    let mut iter = table.iter();
    assert!(iter.next().is_none());
    // and goes on to yield nothing
    assert!(iter.next().is_none());
}

#[test]
fn iteration_goes_by_buckets() {
    let mut table: HashMap<u64, u64> = HashMap::new();
    for k in 0..12u64 {
        table.insert(k, k);
    }
    assert_eq!(table.capacity(), 16);
    let order = keys_of(&table);
    assert_eq!(order.len(), 12);
    let buckets: Vec<u64> = order.iter().map(|k| hash(k) % 16).collect();
    let mut sorted = buckets.clone();
    sorted.sort();
    assert_eq!(buckets, sorted);
}

#[test]
fn a_new_key_becomes_the_head_of_its_chain() {
    let keys = colliding(16, 3);
    let mut table: HashMap<u64, u64> = HashMap::new();
    for &k in &keys {
        table.insert(k, 0);
    }
    assert_eq!(keys_of(&table), vec![keys[2], keys[1], keys[0]]);
}

#[test]
fn an_update_keeps_the_place_of_the_entry() {
    let keys = colliding(16, 3);
    let mut table: HashMap<u64, u64> = HashMap::new();
    for &k in &keys {
        table.insert(k, 0);
    }
    assert_eq!(table.insert(keys[1], 5), Some(0));
    assert_eq!(table.insert(keys[0], 6), Some(0));
    assert_eq!(keys_of(&table), vec![keys[2], keys[1], keys[0]]);
    let mut iter = table.iter();
    assert_eq!(iter.next(), Some((&keys[2], &0)));
    assert_eq!(iter.next(), Some((&keys[1], &5)));
    assert_eq!(iter.next(), Some((&keys[0], &6)));
    assert_eq!(iter.next(), None);
}

#[test]
fn a_removal_keeps_the_order_of_the_others() {
    let keys = colliding(16, 4);
    let mut table: HashMap<u64, u64> = HashMap::new();
    for &k in &keys {
        table.insert(k, 0);
    }
    assert_eq!(table.remove(&keys[2]), Some(0));
    assert_eq!(keys_of(&table), vec![keys[3], keys[1], keys[0]]);
}

#[test]
fn growth_turns_the_chains_round() {
    // three keys that share a bucket among 16 and among 32
    let keys = colliding(32, 3);
    let mut table: HashMap<u64, u64> = HashMap::new();
    for &k in &keys {
        table.insert(k, 0);
    }
    assert_eq!(keys_of(&table), vec![keys[2], keys[1], keys[0]]);
    let mut filler = 1_000_000u64;
    while table.capacity() == 16 {
        table.insert(filler, 0);
        filler += 1;
    }
    assert_eq!(table.capacity(), 32);
    let order: Vec<u64> = keys_of(&table).into_iter().filter(|k| keys.contains(k)).collect();
    assert_eq!(order, vec![keys[0], keys[1], keys[2]]);
}
