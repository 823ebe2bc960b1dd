use hash_table::HashTable;

#[test]
fn test_get_no_keys() {
    let hash_table: HashTable<String, i32> = HashTable::new(10);
    let result = hash_table.get(&"Key".to_string());
    assert_eq!(result, None);
}

#[test]
fn test_put_and_get() {
    let mut hash_table = HashTable::new(10);
    hash_table.put("Test".to_string(), 3).unwrap();
    let result = hash_table.get(&"Test".to_string());
    assert_eq!(result, Some(&3));
}

#[test]
fn test_put_and_get_multiple_keys() {
    let mut hash_table = HashTable::new(10);
    let result = hash_table.put("Key".to_string(), 1);
    assert!(result.is_ok());

    let result = hash_table.get(&"Key".to_string());
    assert_eq!(result, Some(&1));

    let result = hash_table.put("Test".to_string(), 3);
    assert!(result.is_ok());
    let result = hash_table.get(&"Test".to_string());
    assert_eq!(result, Some(&3));

    let result = hash_table.put("Test2".to_string(), 5);
    assert!(result.is_ok());
    let result = hash_table.get(&"Test2".to_string());
    assert_eq!(result, Some(&5));
}

#[test]
fn test_put() {
    let mut hash_table = HashTable::new(10);
    let result = hash_table.put("Test".to_string(), 10);
    assert!(result.is_ok());
}

#[test]
fn test_multiple_puts_different_keys() {
    let mut hash_table = HashTable::new(4);
    let result = hash_table.put("Test".to_string(), 10);
    assert!(result.is_ok());
    let result = hash_table.put("Test2".to_string(), 10);
    assert!(result.is_ok());
    let result = hash_table.put("Test3".to_string(), 10);
    assert!(result.is_ok());
    let result = hash_table.put("Test4".to_string(), 10);
    assert!(result.is_ok());
}

#[test]
fn test_delete() {
    let mut hash_table: HashTable<String, i32> = HashTable::new(10);
    let result = hash_table.put("Test".to_string(), 10);
    assert!(result.is_ok());
    hash_table.delete(&"Test".to_string());
    let result = hash_table.get(&"Test".to_string());
    assert_eq!(result, None);
}

#[test]
fn test_resize() {
    let mut hash_table: HashTable<String, i32> = HashTable::new(2);
    assert_eq!(hash_table.capacity(), 2);
    let result = hash_table.put("Test".to_string(), 10);
    assert!(result.is_ok());
    assert_eq!(hash_table.capacity(), 4);
    assert_eq!(hash_table.occupancy(), 1);
    let result = hash_table.get(&"Test".to_string());
    assert_eq!(result, Some(&10));
}
