use hash_table::HashTable;

/// Two keys whose home index in a table of `capacity` slots is the same.
fn colliding_pair(table: &HashTable<i32, i32>, capacity: u64) -> (i32, i32) {
    let first = 0;
    let home = table.hash(&first) % capacity;
    let mut second = 1;
    while table.hash(&second) % capacity != home {
        second += 1;
    }
    (first, second)
}

#[test]
fn put_into_two_slots_doubles_the_array() {
    let mut table: HashTable<i32, i32> = HashTable::new(2);
    table.put(1, 1).unwrap();
    assert_eq!(table.occupancy(), 1);
    assert_eq!(table.capacity(), 4);
    assert_eq!(table.get(&1), Some(&1));
}

#[test]
fn put_overwrites_the_value() {
    let mut table: HashTable<String, i32> = HashTable::new(10);
    table.put("Test".to_string(), 3).unwrap();
    table.put("Test".to_string(), 7).unwrap();
    assert_eq!(table.get(&"Test".to_string()), Some(&7));
    assert_eq!(table.occupancy(), 1);
    assert_eq!(table.capacity(), 10);
}

#[test]
fn delete_removes_the_entry() {
    let mut table: HashTable<String, i32> = HashTable::new(10);
    table.put("Test".to_string(), 10).unwrap();
    assert_eq!(table.occupancy(), 1);
    table.delete(&"Test".to_string());
    assert_eq!(table.get(&"Test".to_string()), None);
    assert_eq!(table.occupancy(), 0);
    assert_eq!(table.capacity(), 10);
}

#[test]
fn doubling_keeps_the_entries() {
    let mut table: HashTable<String, i32> = HashTable::new(2);
    table.put("a".to_string(), 1).unwrap();
    table.put("b".to_string(), 2).unwrap();
    table.put("c".to_string(), 3).unwrap();
    table.put("d".to_string(), 4).unwrap();
    assert!(table.capacity() >= 8);
    assert_eq!(table.capacity(), 16);
    assert_eq!(table.occupancy(), 4);
    assert_eq!(table.get(&"a".to_string()), Some(&1));
    assert_eq!(table.get(&"b".to_string()), Some(&2));
    assert_eq!(table.get(&"c".to_string()), Some(&3));
    assert_eq!(table.get(&"d".to_string()), Some(&4));
}

#[test]
fn get_from_an_empty_table() {
    let table: HashTable<String, i32> = HashTable::new(10);
    assert_eq!(table.get(&"anything".to_string()), None);
    assert_eq!(table.occupancy(), 0);
    assert_eq!(table.capacity(), 10);
}

#[test]
fn negative_integer_keys() {
    let mut table: HashTable<i32, i32> = HashTable::new(2);
    table.put(1, 1).unwrap();
    table.put(3, 3).unwrap();
    table.put(5, 5).unwrap();
    table.put(-1, -1).unwrap();
    assert_eq!(table.get(&-1), Some(&-1));
    assert_eq!(table.get(&1), Some(&1));
    assert_eq!(table.get(&3), Some(&3));
    assert_eq!(table.get(&5), Some(&5));
}

#[test]
fn demonstration_run() {
    let mut table: HashTable<i32, i32> = HashTable::new(2);
    table.put(1, 1).unwrap();
    assert_eq!(table.get(&1), Some(&1));
    table.put(1, 11).unwrap();
    assert_eq!(table.get(&1), Some(&11));
    table.delete(&1);
    assert_eq!(table.get(&1), None);
    table.put(1, 11).unwrap();
    assert_eq!(table.get(&1), Some(&11));
    table.put(3, 3).unwrap();
    assert_eq!(table.get(&3), Some(&3));
    table.put(5, 5).unwrap();
    assert_eq!(table.get(&5), Some(&5));
    table.put(-1, -1).unwrap();
    assert_eq!(table.get(&-1), Some(&-1));
}

#[test]
fn put_then_get_among_other_puts() {
    let mut table: HashTable<i32, i32> = HashTable::new(4);
    table.put(7, 70).unwrap();
    for other in 100..140 {
        table.put(other, other + 1).unwrap();
        assert_eq!(table.get(&7), Some(&70));
    }
    for other in 100..140 {
        assert_eq!(table.get(&other), Some(&(other + 1)));
    }
    assert_eq!(table.occupancy(), 41);
}

#[test]
fn deleted_key_stays_absent_among_other_puts() {
    let mut table: HashTable<i32, i32> = HashTable::new(4);
    table.put(7, 70).unwrap();
    table.delete(&7);
    for other in 100..140 {
        table.put(other, other).unwrap();
        assert_eq!(table.get(&7), None);
    }
}

#[test]
fn put_twice_is_put_once() {
    let mut once: HashTable<i32, i32> = HashTable::new(8);
    let mut twice: HashTable<i32, i32> = HashTable::new(8);
    once.put(4, 40).unwrap();
    once.put(9, 90).unwrap();
    twice.put(4, 40).unwrap();
    twice.put(9, 90).unwrap();
    twice.put(9, 90).unwrap();
    assert_eq!(once.occupancy(), 2);
    assert_eq!(twice.occupancy(), 2);
    assert_eq!(once.capacity(), twice.capacity());
    assert_eq!(once.find_slot(&9), twice.find_slot(&9));
    assert_eq!(once.get(&9), twice.get(&9));
    assert_eq!(once.get(&4), twice.get(&4));
}

#[test]
fn fewer_than_half_of_the_slots_are_live_after_each_put() {
    let mut table: HashTable<i32, i32> = HashTable::new(3);
    for key in 0..200 {
        table.put(key, key).unwrap();
        assert!(2 * table.occupancy() < table.capacity());
        if key % 3 == 0 {
            table.delete(&key);
        }
    }
}

#[test]
fn capacity_only_doubles() {
    let mut table: HashTable<i32, i32> = HashTable::new(5);
    let mut capacity = table.capacity();
    for key in 0..100 {
        table.put(key, key).unwrap();
        let now = table.capacity();
        assert!(now == capacity || now == 2 * capacity);
        capacity = now;
        table.delete(&(key / 2));
        assert_eq!(table.capacity(), capacity);
        let _ = table.get(&key);
        assert_eq!(table.capacity(), capacity);
    }
}

#[test]
fn capacity_after_distinct_puts() {
    let mut table: HashTable<i32, i32> = HashTable::new(10);
    for key in 0..4 {
        table.put(key, key).unwrap();
    }
    assert_eq!(table.capacity(), 10);
    table.put(4, 4).unwrap();
    assert_eq!(table.capacity(), 20);
    for key in 5..10 {
        table.put(key, key).unwrap();
    }
    assert_eq!(table.capacity(), 40);
    assert_eq!(table.occupancy(), 10);

    let mut table: HashTable<i32, i32> = HashTable::new(2);
    for key in 0..100 {
        table.put(key, key).unwrap();
    }
    assert_eq!(table.capacity(), 256);
    assert_eq!(table.occupancy(), 100);
}

#[test]
fn a_single_slot_is_doubled_twice() {
    let mut table: HashTable<i32, i32> = HashTable::new(1);
    assert_eq!(table.capacity(), 1);
    table.put(8, 80).unwrap();
    assert_eq!(table.capacity(), 4);
    assert_eq!(table.occupancy(), 1);
    assert_eq!(table.get(&8), Some(&80));
}

#[test]
fn an_odd_capacity_is_not_rounded() {
    let mut table: HashTable<i32, i32> = HashTable::new(3);
    table.put(8, 80).unwrap();
    assert_eq!(table.capacity(), 3);
    assert_eq!(table.occupancy(), 1);
    table.put(9, 90).unwrap();
    assert_eq!(table.capacity(), 6);
    assert_eq!(table.occupancy(), 2);
    assert_eq!(table.get(&8), Some(&80));
    assert_eq!(table.get(&9), Some(&90));

    let mut table: HashTable<i32, i32> = HashTable::new(5);
    table.put(1, 1).unwrap();
    table.put(2, 2).unwrap();
    assert_eq!(table.capacity(), 5);
    table.put(3, 3).unwrap();
    assert_eq!(table.capacity(), 10);
    assert_eq!(table.occupancy(), 3);
}

#[test]
fn capacity_is_the_least_doubling_above_twice_the_entries() {
    for start in 1..12usize {
        let mut table: HashTable<i32, i32> = HashTable::new(start);
        for count in 1..40usize {
            table.put(count as i32, 0).unwrap();
            let mut least = start;
            while least <= 2 * count {
                least *= 2;
            }
            assert_eq!(table.capacity(), least);
            assert_eq!(table.occupancy(), count);
        }
    }
}

#[test]
fn get_is_repeatable() {
    let mut table: HashTable<String, i32> = HashTable::new(10);
    table.put("Key".to_string(), 1).unwrap();
    let first = table.get(&"Key".to_string()).copied();
    let second = table.get(&"Key".to_string()).copied();
    assert_eq!(first, Some(1));
    assert_eq!(first, second);
    let first = table.get(&"Other".to_string()).copied();
    let second = table.get(&"Other".to_string()).copied();
    assert_eq!(first, None);
    assert_eq!(first, second);
}

#[test]
fn delete_of_a_missing_key_changes_nothing() {
    let mut table: HashTable<i32, i32> = HashTable::new(10);
    table.put(1, 10).unwrap();
    table.delete(&2);
    assert_eq!(table.occupancy(), 1);
    assert_eq!(table.capacity(), 10);
    assert_eq!(table.get(&1), Some(&10));
    table.delete(&1);
    table.delete(&1);
    assert_eq!(table.occupancy(), 0);
}

#[test]
fn find_slot_starts_at_the_home_index() {
    let mut table: HashTable<i32, i32> = HashTable::new(16);
    let home = (table.hash(&42) % 16) as usize;
    assert_eq!(table.find_slot(&42), Some(home));
    table.put(42, 1).unwrap();
    assert_eq!(table.find_slot(&42), Some(home));
}

#[test]
fn find_slot_walks_past_other_keys() {
    let mut table: HashTable<i32, i32> = HashTable::new(16);
    let (first, second) = colliding_pair(&table, 16);
    let home = (table.hash(&first) % 16) as usize;
    table.put(first, 1).unwrap();
    assert_eq!(table.find_slot(&first), Some(home));
    assert_eq!(table.find_slot(&second), Some((home + 1) % 16));
    table.put(second, 2).unwrap();
    assert_eq!(table.find_slot(&second), Some((home + 1) % 16));
    assert_eq!(table.get(&first), Some(&1));
    assert_eq!(table.get(&second), Some(&2));
}

#[test]
fn a_deleted_slot_hides_what_lies_beyond_it() {
    let mut table: HashTable<i32, i32> = HashTable::new(16);
    let (first, second) = colliding_pair(&table, 16);
    let home = (table.hash(&first) % 16) as usize;
    table.put(first, 1).unwrap();
    table.put(second, 2).unwrap();
    table.delete(&first);
    assert_eq!(table.occupancy(), 1);
    assert_eq!(table.find_slot(&second), Some(home));
    assert_eq!(table.get(&second), None);

    table.resize();
    assert_eq!(table.capacity(), 32);
    assert_eq!(table.occupancy(), 1);
    assert_eq!(table.get(&second), Some(&2));
    assert_eq!(table.get(&first), None);
}

#[test]
fn a_deleted_slot_is_used_again() {
    let mut table: HashTable<i32, i32> = HashTable::new(16);
    let (first, second) = colliding_pair(&table, 16);
    let home = (table.hash(&first) % 16) as usize;
    table.put(first, 1).unwrap();
    table.put(second, 2).unwrap();
    table.delete(&first);
    table.put(first, 3).unwrap();
    assert_eq!(table.find_slot(&first), Some(home));
    assert_eq!(table.occupancy(), 2);
    assert_eq!(table.get(&first), Some(&3));
    assert_eq!(table.get(&second), Some(&2));
}

#[test]
fn resize_doubles_and_keeps_the_entries() {
    let mut table: HashTable<i32, i32> = HashTable::new(20);
    for key in 0..9 {
        table.put(key, key * 10).unwrap();
    }
    assert_eq!(table.capacity(), 20);
    table.resize();
    assert_eq!(table.capacity(), 40);
    assert_eq!(table.occupancy(), 9);
    for key in 0..9 {
        assert_eq!(table.get(&key), Some(&(key * 10)));
    }
    assert_eq!(table.get(&9), None);
}

#[test]
fn hash_depends_on_the_key_alone() {
    let small: HashTable<i32, i32> = HashTable::new(1);
    let large: HashTable<i32, i32> = HashTable::new(64);
    assert_eq!(small.hash(&17), small.hash(&17));
    assert_eq!(small.hash(&17), large.hash(&17));
    assert_ne!(small.hash(&17), small.hash(&18));
    assert_ne!(small.hash(&0), small.hash(&-1));
}

#[test]
fn hash_of_strings_depends_on_the_characters() {
    let table: HashTable<String, i32> = HashTable::new(4);
    let again = "Test".to_string();
    assert_eq!(table.hash(&"Test".to_string()), table.hash(&again));
    assert_ne!(table.hash(&"Test".to_string()), table.hash(&"Test2".to_string()));
    assert_ne!(table.hash(&"".to_string()), table.hash(&"a".to_string()));
}

#[test]
fn values_of_any_type() {
    let mut table: HashTable<String, Vec<String>> = HashTable::new(2);
    table.put("x".to_string(), vec!["one".to_string(), "two".to_string()]).unwrap();
    table.put("y".to_string(), Vec::new()).unwrap();
    assert_eq!(table.get(&"x".to_string()).map(|v| v.len()), Some(2));
    assert_eq!(table.get(&"y".to_string()).map(|v| v.len()), Some(0));
    assert_eq!(table.get(&"z".to_string()), None);
}
