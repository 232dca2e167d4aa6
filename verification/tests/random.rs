use chained_map::HashMap;
use std::collections::BTreeMap;

/// A small linear congruential generator, so that the runs repeat.
struct Dice {
    state: u64,
}

impl Dice {
    fn roll(&mut self, sides: u64) -> u64 {
        self.state = self.state.wrapping_mul(6364136223846793005).wrapping_add(1442695040888963407);
        (self.state >> 33) % sides
    }
}

#[test]
fn behaves_like_the_standard_map() {
    let mut dice = Dice { state: 1 };
    let mut table: HashMap<u64, u64> = HashMap::new();
    let mut model: BTreeMap<u64, u64> = BTreeMap::new();
    for round in 0..20_000u64 {
        let key = dice.roll(300);
        match dice.roll(4) {
            0 | 1 => assert_eq!(table.insert(key, round), model.insert(key, round)),
            2 => assert_eq!(table.remove(&key), model.remove(&key)),
            _ => {
                if let Some(value) = table.get_mut(&key) {
                    *value += 1;
                }
                if let Some(value) = model.get_mut(&key) {
                    *value += 1;
                }
            }
        }
        assert_eq!(table.get(&key), model.get(&key));
        assert_eq!(table.len(), model.len());
        assert_eq!(table.is_empty(), model.is_empty());
    }
    let mut seen = Vec::new();
    let mut iter = table.iter();
    while let Some((k, v)) = iter.next() {
        seen.push((*k, *v));
    }
    seen.sort();
    let expected: Vec<(u64, u64)> = model.into_iter().collect();
    assert_eq!(seen, expected);
}

#[test]
fn text_keys_behave_like_the_standard_map() {
    let mut dice = Dice { state: 7 };
    let mut table: HashMap<String, usize> = HashMap::new();
    let mut model: BTreeMap<String, usize> = BTreeMap::new();
    for round in 0..5_000usize {
        let key = format!("key-{}", dice.roll(200));
        if dice.roll(3) == 0 {
            assert_eq!(table.remove(&key), model.remove(&key));
        } else {
            assert_eq!(table.insert(key.clone(), round), model.insert(key.clone(), round));
        }
        assert_eq!(table.get(&key), model.get(&key));
        assert_eq!(table.len(), model.len());
    }
}
