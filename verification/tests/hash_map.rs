use std::cell::RefCell;
use std::rc::Rc;

use agb::hash_map::{Entry, HashMap};

#[test]
fn can_store_and_retrieve_8_elements() {
    let mut map: HashMap<u32> = HashMap::new();

    for i in 0..8u32 {
        map.insert(i, i % 4);
    }

    for i in 0..8u32 {
        assert_eq!(map.get(i), Some(&(i % 4)));
    }
    assert_eq!(map.len(), 8);
}

#[test]
fn can_get_the_length() {
    let mut map: HashMap<bool> = HashMap::new();

    for i in 0..8u32 {
        map.insert(i / 2, true);
    }

    assert_eq!(map.len(), 4);
}

#[test]
fn returns_none_if_element_does_not_exist() {
    let mut map: HashMap<u32> = HashMap::new();

    for i in 0..8u32 {
        map.insert(i, i % 3);
    }

    assert_eq!(map.get(12), None);
}

#[test]
fn can_delete_entries() {
    let mut map: HashMap<u32> = HashMap::new();

    for i in 0..8u32 {
        map.insert(i, i % 3);
    }

    for i in 0..4u32 {
        map.remove(i);
    }

    assert_eq!(map.len(), 4);
    for i in 0..4u32 {
        assert_eq!(map.get(i), None);
    }
    for i in 4..8u32 {
        assert_eq!(map.get(i), Some(&(i % 3)));
    }
}

#[test]
fn removing_an_absent_key_is_idempotent() {
    let mut map: HashMap<u32> = HashMap::new();

    for i in 0..8u32 {
        map.insert(i, i + 100);
    }

    assert_eq!(map.remove(42), None);
    assert_eq!(map.len(), 8);
    assert_eq!(map.remove(42), None);
    assert_eq!(map.len(), 8);
    assert_eq!(map.get(3), Some(&103));
}

#[test]
fn insert_then_get_round_trip() {
    let mut map: HashMap<i64> = HashMap::new();

    map.insert(7, -55);
    assert_eq!(map.get(7), Some(&-55));

    map.insert(7, 12);
    assert_eq!(map.get(7), Some(&12));
    assert_eq!(map.len(), 1);

    // the reference handed back by insert writes into the map
    *map.insert(8, 1) += 5;
    assert_eq!(map.get(8), Some(&6));
}

#[test]
fn get_mut_writes_back_into_the_map() {
    let mut map: HashMap<i32> = HashMap::new();
    map.insert(4, 40);

    if let Some(v) = map.get_mut(4) {
        *v += 2;
    }
    assert_eq!(map.get(4), Some(&42));
    assert_eq!(map.get_mut(5), None);
}

#[test]
fn overriding_returns_the_prior_value_exactly_once() {
    let mut map: HashMap<&str> = HashMap::new();

    map.insert(1, "first");
    match map.entry(1) {
        Entry::Vacant(_) => unreachable!(),
        Entry::Occupied(e) => assert_eq!(e.insert(&mut map, "second"), "first"),
    }
    match map.entry(1) {
        Entry::Vacant(_) => unreachable!(),
        Entry::Occupied(e) => assert_eq!(e.insert(&mut map, "third"), "second"),
    }
    assert_eq!(map.remove(1), Some("third"));
    assert_eq!(map.remove(1), None);
}

#[test]
fn can_iterate_through_all_entries() {
    let mut map: HashMap<i32> = HashMap::new();

    for i in 0..8u32 {
        map.insert(i, i as i32);
    }

    let mut max_found = -1;
    let mut num_found = 0;

    let mut iter = map.iter();
    while let Some((_, value)) = iter.next(&map) {
        max_found = max_found.max(*value);
        num_found += 1;
    }

    assert_eq!(num_found, 8);
    assert_eq!(max_found, 7);
}

#[test]
fn exhaustive_pass_counts_the_map() {
    let mut map: HashMap<u32> = HashMap::new();

    for i in 0..20u32 {
        map.insert(i * 7, i);
    }
    map.remove(0);
    map.remove(7);

    assert_eq!(agb::hash_map::exhaustive_pass_count(&map), 18);
    assert_eq!(map.len(), 18);
}

#[test]
fn can_insert_more_than_initial_capacity() {
    let mut map: HashMap<u32> = HashMap::with_capacity(16);

    for i in 0..65u32 {
        map.insert(i, i % 4);
    }

    assert_eq!(map.len(), 65);
    for i in 0..65u32 {
        assert_eq!(map.get(i), Some(&(i % 4)));
    }
    // 65 keys force the growth chain 16 -> 32 -> 64 -> 128
    assert_eq!(map.capacity(), 128);
}

#[test]
fn growth_triggers_at_85_percent_load() {
    let mut map: HashMap<u32> = HashMap::with_capacity(16);

    // 85% of 16 rounds down to 13, so the thirteenth new key still fits
    for i in 0..13u32 {
        map.insert(i, i);
    }
    assert_eq!(map.capacity(), 16);

    // the next new key finds the table at the trigger and doubles it first
    map.insert(13, 13);
    assert_eq!(map.capacity(), 32);
    assert_eq!(map.len(), 14);
}

#[test]
fn explicit_resize_preserves_contents() {
    let mut map: HashMap<u32> = HashMap::with_capacity(16);

    for i in 0..10u32 {
        map.insert(i, i * 3);
    }

    map.resize(64);
    assert_eq!(map.len(), 10);
    for i in 0..10u32 {
        assert_eq!(map.get(i), Some(&(i * 3)));
    }

    map.resize(64);
    assert_eq!(map.len(), 10);
}

struct RandomNumberGenerator {
    state: [u32; 4],
}

impl RandomNumberGenerator {
    const fn new() -> Self {
        Self {
            state: [1014776995, 476057059, 3301633994, 706340607],
        }
    }

    fn next(&mut self) -> i32 {
        let result = (self.state[0].wrapping_add(self.state[3]))
            .rotate_left(7)
            .wrapping_mul(9);
        let t = self.state[1].wrapping_shr(9);

        self.state[2] ^= self.state[0];
        self.state[3] ^= self.state[1];
        self.state[1] ^= self.state[2];
        self.state[0] ^= self.state[3];

        self.state[2] ^= t;
        self.state[3] = self.state[3].rotate_left(11);

        result as i32
    }
}

#[test]
fn extreme_case() {
    let mut map: HashMap<i32> = HashMap::new();
    let mut rng = RandomNumberGenerator::new();

    let mut answers: [Option<i32>; 128] = [None; 128];

    for _ in 0..5_000 {
        let command = rng.next().rem_euclid(2);
        let key = rng.next().rem_euclid(answers.len() as i32);
        let value = rng.next();

        match command {
            0 => {
                answers[key as usize] = Some(value);
                map.insert(key as u32, value);
            }
            1 => {
                answers[key as usize] = None;
                map.remove(key as u32);
            }
            _ => {}
        }

        assert_eq!(map.len(), answers.iter().filter(|a| a.is_some()).count());
        for (i, answer) in answers.iter().enumerate() {
            assert_eq!(map.get(i as u32), answer.as_ref());
        }
    }
}

#[derive(Clone)]
struct Droppable {
    id: usize,
    drop_registry: Rc<DropRegistry>,
}

impl Drop for Droppable {
    fn drop(&mut self) {
        self.drop_registry.dropped(self.id);
    }
}

struct DropRegistry {
    are_dropped: RefCell<Vec<i32>>,
}

impl DropRegistry {
    fn new() -> Rc<Self> {
        Rc::new(Self {
            are_dropped: Default::default(),
        })
    }

    fn new_droppable(self: &Rc<Self>) -> Droppable {
        self.are_dropped.borrow_mut().push(0);
        Droppable {
            id: self.are_dropped.borrow().len() - 1,
            drop_registry: Rc::clone(self),
        }
    }

    fn dropped(&self, id: usize) {
        self.are_dropped.borrow_mut()[id] += 1;
    }

    fn assert_dropped_once(&self, id: usize) {
        assert_eq!(self.are_dropped.borrow()[id], 1);
    }

    fn assert_not_dropped(&self, id: usize) {
        assert_eq!(self.are_dropped.borrow()[id], 0);
    }
}

#[test]
fn correctly_drops_on_remove_and_overall_drop() {
    let drop_registry = DropRegistry::new();

    let droppable1 = drop_registry.new_droppable();
    let droppable2 = drop_registry.new_droppable();

    let id1 = droppable1.id;
    let id2 = droppable2.id;

    {
        let mut map: HashMap<Droppable> = HashMap::new();

        map.insert(1, droppable1);
        map.insert(2, droppable2);

        drop_registry.assert_not_dropped(id1);
        drop_registry.assert_not_dropped(id2);

        map.remove(1);
        drop_registry.assert_dropped_once(id1);
        drop_registry.assert_not_dropped(id2);
    }

    drop_registry.assert_dropped_once(id2);
}

#[test]
fn correctly_drop_on_override() {
    let drop_registry = DropRegistry::new();

    let droppable1 = drop_registry.new_droppable();
    let droppable2 = drop_registry.new_droppable();

    let id1 = droppable1.id;
    let id2 = droppable2.id;

    {
        let mut map: HashMap<Droppable> = HashMap::new();

        map.insert(1, droppable1);
        drop_registry.assert_not_dropped(id1);
        map.insert(1, droppable2);

        drop_registry.assert_dropped_once(id1);
        drop_registry.assert_not_dropped(id2);
    }

    drop_registry.assert_dropped_once(id2);
}

#[test]
fn test_entry() {
    let xs = [(1u32, 10i32), (2, 20), (3, 30), (4, 40), (5, 50), (6, 60)];

    let mut map: HashMap<i32> = HashMap::new();
    for (k, v) in xs {
        map.insert(k, v);
    }

    // Existing key (insert)
    match map.entry(1) {
        Entry::Vacant(_) => unreachable!(),
        Entry::Occupied(view) => {
            assert_eq!(*view.get(&map), 10);
            assert_eq!(view.insert(&mut map, 100), 10);
        }
    }
    assert_eq!(map.get(1).unwrap(), &100);
    assert_eq!(map.len(), 6);

    // Existing key (update)
    match map.entry(2) {
        Entry::Vacant(_) => unreachable!(),
        Entry::Occupied(view) => {
            let v = view.get_mut(&mut map);
            let new_v = (*v) * 10;
            *v = new_v;
        }
    }
    assert_eq!(map.get(2).unwrap(), &200);
    assert_eq!(map.len(), 6);

    // Existing key (take)
    match map.entry(3) {
        Entry::Vacant(_) => unreachable!(),
        Entry::Occupied(view) => {
            assert_eq!(view.remove(&mut map), 30);
        }
    }
    assert_eq!(map.get(3), None);
    assert_eq!(map.len(), 5);

    // Inexistent key (insert)
    match map.entry(10) {
        Entry::Occupied(_) => unreachable!(),
        Entry::Vacant(view) => {
            assert_eq!(*view.insert(&mut map, 1000), 1000);
        }
    }
    assert_eq!(map.get(10).unwrap(), &1000);
    assert_eq!(map.len(), 6);
}

#[test]
fn test_occupied_entry_key() {
    let mut a: HashMap<&str> = HashMap::new();
    let key = 17u32;
    let value = "value goes here";
    assert!(a.is_empty());
    a.insert(key, value);
    assert_eq!(a.len(), 1);
    assert_eq!(*a.index(key), value);

    match a.entry(key) {
        Entry::Vacant(_) => panic!(),
        Entry::Occupied(e) => assert_eq!(key, e.key()),
    }
    assert_eq!(a.len(), 1);
    assert_eq!(*a.index(key), value);
}

#[test]
fn test_vacant_entry_key() {
    let mut a: HashMap<&str> = HashMap::new();
    let key = 17u32;
    let value = "value goes here";

    assert!(a.is_empty());
    match a.entry(key) {
        Entry::Occupied(_) => panic!(),
        Entry::Vacant(e) => {
            assert_eq!(key, e.key());
            e.insert(&mut a, value);
        }
    }
    assert_eq!(a.len(), 1);
    assert_eq!(*a.index(key), value);
}

#[test]
fn or_insert_only_fills_vacancies() {
    let mut map: HashMap<i32> = HashMap::new();
    map.insert(5, 50);

    assert_eq!(*map.entry(5).or_insert(&mut map, 999), 50);
    assert_eq!(map.get(5), Some(&50));

    assert_eq!(*map.entry(6).or_insert(&mut map, 60), 60);
    assert_eq!(map.get(6), Some(&60));
    assert_eq!(map.len(), 2);
}

#[test]
fn or_insert_with_runs_only_for_vacancies() {
    let mut map: HashMap<i32> = HashMap::new();
    map.insert(1, 10);

    assert_eq!(
        *map.entry(1).or_insert_with(&mut map, || panic!("key is present")),
        10
    );
    assert_eq!(map.get(1), Some(&10));

    assert_eq!(*map.entry(2).or_insert_with(&mut map, || 20), 20);
    assert_eq!(map.get(2), Some(&20));

    assert_eq!(
        *map.entry(3).or_insert_with_key(&mut map, |k| (k as i32) * 11),
        33
    );
    assert_eq!(map.get(3), Some(&33));

    assert_eq!(
        *map.entry(3).or_insert_with_key(&mut map, |_| panic!("key is present")),
        33
    );
}

#[test]
fn test_index() {
    let mut map: HashMap<i32> = HashMap::new();

    map.insert(1, 2);
    map.insert(2, 1);
    map.insert(3, 4);

    assert_eq!(*map.index(2), 1);
}

#[test]
fn entry_remove_entry_hands_back_key_and_value() {
    let mut map: HashMap<i32> = HashMap::new();
    map.insert(9, 90);

    match map.entry(9) {
        Entry::Vacant(_) => unreachable!(),
        Entry::Occupied(view) => {
            assert_eq!(view.remove_entry(&mut map), (9, 90));
        }
    }
    assert_eq!(map.len(), 0);
    assert_eq!(map.get(9), None);

    match map.entry(9) {
        Entry::Occupied(_) => unreachable!(),
        Entry::Vacant(view) => assert_eq!(view.into_key(), 9),
    }
}
