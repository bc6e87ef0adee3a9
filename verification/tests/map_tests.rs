// Tests for BPlusTreeMap

use bplustree::bplus_tree_map::{Entry, LeafNode, RootKind};
use bplustree::BPlusTreeMap;

#[test]
fn test_create_empty_bplus_tree_map() {
    let _map: BPlusTreeMap<String> = BPlusTreeMap::new();
    // Just testing that we can create an empty map without errors
}

#[test]
fn test_create_with_custom_branching_factor() {
    let _map = BPlusTreeMap::<String>::with_branching_factor(8).unwrap();
    // Just testing that we can create a map with a custom branching factor
}

#[test]
fn test_invalid_branching_factor_is_refused() {
    assert!(BPlusTreeMap::<String>::with_branching_factor(1).is_err());
    assert!(BPlusTreeMap::<String>::with_branching_factor(0).is_err());
    assert!(BPlusTreeMap::<String>::with_branching_factor(2).is_ok());
}

#[test]
fn test_leaf_node_splitting() {
    // Create a map with a small branching factor
    let mut map = BPlusTreeMap::<String>::with_branching_factor(3).unwrap();

    // Insert keys until we trigger a leaf split
    map.insert(1, "one".to_string());
    map.insert(2, "two".to_string());
    map.insert(3, "three".to_string()); // This should trigger a leaf split

    // Verify all keys are still accessible
    assert_eq!(map.get(&1), Some(&"one".to_string()));
    assert_eq!(map.get(&2), Some(&"two".to_string()));
    assert_eq!(map.get(&3), Some(&"three".to_string()));
}

#[test]
fn test_insert_single_key_value_pair() {
    let mut map = BPlusTreeMap::new();
    let old_value = map.insert(1, "one".to_string());
    assert_eq!(old_value, None);
}

#[test]
fn test_retrieve_value_by_key() {
    let mut map = BPlusTreeMap::new();

    // Insert some key-value pairs
    map.insert(1, "one".to_string());
    map.insert(2, "two".to_string());
    map.insert(3, "three".to_string());

    // Test retrieving existing keys
    assert_eq!(map.get(&1), Some(&"one".to_string()));
    assert_eq!(map.get(&2), Some(&"two".to_string()));
    assert_eq!(map.get(&3), Some(&"three".to_string()));

    // Test retrieving non-existent keys
    assert_eq!(map.get(&0), None);
    assert_eq!(map.get(&4), None);

    // Test with a reference to the key
    let key_ref: &i64 = &2;
    assert_eq!(map.get(key_ref), Some(&"two".to_string()));
}

#[test]
fn test_branch_node_structure() {
    // Create leaf nodes
    let left_leaf = LeafNode {
        keys: vec![1, 2],
        values: vec!["one".to_string(), "two".to_string()],
    };

    let right_leaf = LeafNode {
        keys: vec![4, 5],
        values: vec!["four".to_string(), "five".to_string()],
    };

    // Create a tree with a branch node as root and a custom branching factor
    let mut map = BPlusTreeMap::with_branch_root(3, left_leaf, right_leaf, Some(4)).unwrap();

    // Insert a value that should go to the left leaf
    let old_value = map.insert(2, "new two".to_string());
    assert_eq!(old_value, Some("two".to_string())); // Should replace existing value

    // Insert a value that should go to the right leaf
    let old_value = map.insert(6, "six".to_string());
    assert_eq!(old_value, None); // Should be a new insertion
}

#[test]
fn test_overwriting_existing_key_value() {
    let mut map = BPlusTreeMap::new();

    // Insert a key-value pair
    let old_value = map.insert(1, "one".to_string());
    assert_eq!(old_value, None);

    // Overwrite the existing key with a new value
    let old_value = map.insert(1, "new one".to_string());
    assert_eq!(old_value, Some("one".to_string()));

    // Verify the new value is accessible
    assert_eq!(map.get(&1), Some(&"new one".to_string()));
}

#[test]
fn test_removing_key_value_pair() {
    let mut map = BPlusTreeMap::new();

    // Insert some key-value pairs
    map.insert(1, "one".to_string());
    map.insert(2, "two".to_string());
    map.insert(3, "three".to_string());

    // Remove a key-value pair
    let removed_value = map.remove(&2);
    assert_eq!(removed_value, Some("two".to_string()));

    // Verify the key is no longer in the map
    assert_eq!(map.get(&2), None);

    // Verify other keys are still accessible
    assert_eq!(map.get(&1), Some(&"one".to_string()));
    assert_eq!(map.get(&3), Some(&"three".to_string()));

    // Try to remove a non-existent key
    let removed_value = map.remove(&4);
    assert_eq!(removed_value, None);
}

#[test]
fn test_checking_if_key_exists() {
    let mut map = BPlusTreeMap::new();

    // Check if keys exist in an empty map
    assert_eq!(map.contains_key(&1), false);

    // Insert some key-value pairs
    map.insert(1, "one".to_string());
    map.insert(2, "two".to_string());
    map.insert(3, "three".to_string());

    // Check if existing keys exist
    assert_eq!(map.contains_key(&1), true);
    assert_eq!(map.contains_key(&2), true);
    assert_eq!(map.contains_key(&3), true);

    // Check if non-existent keys exist
    assert_eq!(map.contains_key(&0), false);
    assert_eq!(map.contains_key(&4), false);

    // Remove a key and check if it still exists
    map.remove(&2);
    assert_eq!(map.contains_key(&2), false);
}

#[test]
fn test_getting_number_of_elements() {
    let mut map = BPlusTreeMap::new();

    // Check len of an empty map
    assert_eq!(map.len(), 0);

    // Insert some key-value pairs and check len
    map.insert(1, "one".to_string());
    assert_eq!(map.len(), 1);

    map.insert(2, "two".to_string());
    assert_eq!(map.len(), 2);

    map.insert(3, "three".to_string());
    assert_eq!(map.len(), 3);

    // Overwrite an existing key and check len
    map.insert(2, "new two".to_string());
    assert_eq!(map.len(), 3); // Length should not change

    // Remove a key and check len
    map.remove(&1);
    assert_eq!(map.len(), 2);

    // Remove another key and check len
    map.remove(&3);
    assert_eq!(map.len(), 1);

    // Remove the last key and check len
    map.remove(&2);
    assert_eq!(map.len(), 0);
}

#[test]
fn test_checking_if_map_is_empty() {
    let mut map = BPlusTreeMap::new();

    // Check if a new map is empty
    assert_eq!(map.is_empty(), true);

    // Insert a key-value pair and check if the map is empty
    map.insert(1, "one".to_string());
    assert_eq!(map.is_empty(), false);

    // Insert more key-value pairs and check if the map is empty
    map.insert(2, "two".to_string());
    map.insert(3, "three".to_string());
    assert_eq!(map.is_empty(), false);

    // Remove keys and check if the map is empty
    map.remove(&1);
    assert_eq!(map.is_empty(), false);

    map.remove(&2);
    assert_eq!(map.is_empty(), false);

    // Remove the last key and check if the map is empty
    map.remove(&3);
    assert_eq!(map.is_empty(), true);
}

#[test]
fn test_creating_bplus_tree_map_from_iterator() {
    // Create a vector of key-value pairs
    let pairs = vec![
        (1, "one".to_string()),
        (2, "two".to_string()),
        (3, "three".to_string()),
    ];

    // Create a BPlusTreeMap from the pairs
    let map = BPlusTreeMap::from_pairs(pairs);

    // Check that the map has the correct size
    assert_eq!(map.len(), 3);

    // Check that all key-value pairs are in the map
    assert_eq!(map.get(&1), Some(&"one".to_string()));
    assert_eq!(map.get(&2), Some(&"two".to_string()));
    assert_eq!(map.get(&3), Some(&"three".to_string()));

    // Check that a non-existent key returns None
    assert_eq!(map.get(&4), None);

    // Test with an empty sequence
    let empty_pairs: Vec<(i64, String)> = Vec::new();
    let empty_map = BPlusTreeMap::from_pairs(empty_pairs);
    assert_eq!(empty_map.len(), 0);
    assert_eq!(empty_map.is_empty(), true);

    // Test with duplicate keys (later entries should overwrite earlier ones)
    let duplicate_pairs = vec![
        (1, "one".to_string()),
        (2, "two".to_string()),
        (1, "new one".to_string()),
    ];
    let duplicate_map = BPlusTreeMap::from_pairs(duplicate_pairs);
    assert_eq!(duplicate_map.len(), 2);
    assert_eq!(duplicate_map.get(&1), Some(&"new one".to_string()));
    assert_eq!(duplicate_map.get(&2), Some(&"two".to_string()));
}

#[test]
fn test_extending_bplus_tree_map_with_iterator() {
    // Create an initial map with some key-value pairs
    let mut map = BPlusTreeMap::new();
    map.insert(1, "one".to_string());
    map.insert(2, "two".to_string());

    // Check initial state
    assert_eq!(map.len(), 2);
    assert_eq!(map.get(&1), Some(&"one".to_string()));
    assert_eq!(map.get(&2), Some(&"two".to_string()));

    // Create a vector of additional key-value pairs
    let additional_pairs = vec![(3, "three".to_string()), (4, "four".to_string())];

    // Extend the map with the pairs
    map.extend_pairs(additional_pairs);

    // Check that the map has been extended correctly
    assert_eq!(map.len(), 4);
    assert_eq!(map.get(&1), Some(&"one".to_string()));
    assert_eq!(map.get(&2), Some(&"two".to_string()));
    assert_eq!(map.get(&3), Some(&"three".to_string()));
    assert_eq!(map.get(&4), Some(&"four".to_string()));

    // Test extending with an empty sequence
    let empty_pairs: Vec<(i64, String)> = Vec::new();
    map.extend_pairs(empty_pairs);

    // Check that the map remains unchanged
    assert_eq!(map.len(), 4);

    // Test extending with pairs that have duplicate keys (should overwrite existing values)
    let duplicate_pairs = vec![(2, "new two".to_string()), (5, "five".to_string())];
    map.extend_pairs(duplicate_pairs);

    // Check that the map has been updated correctly
    assert_eq!(map.len(), 5);
    assert_eq!(map.get(&2), Some(&"new two".to_string())); // Value should be updated
    assert_eq!(map.get(&5), Some(&"five".to_string())); // New key-value pair should be added
}

#[test]
fn test_converting_bplus_tree_map_into_iterator() {
    // Create a map with some key-value pairs
    let mut map = BPlusTreeMap::new();
    map.insert(1, "one".to_string());
    map.insert(2, "two".to_string());
    map.insert(3, "three".to_string());

    // Convert the map into an iterator
    let mut iter = map.into_iter();

    // Collect the iterator into a vector for easier testing
    let mut entries: Vec<(i64, String)> = Vec::new();
    while let Some(entry) = iter.next() {
        entries.push(entry);
    }

    // Check that all entries are present
    assert_eq!(entries.len(), 3);

    // Sort the entries by key for consistent testing
    let mut sorted_entries = entries.clone();
    sorted_entries.sort_by(|a, b| a.0.cmp(&b.0));

    // Check each entry
    assert_eq!(sorted_entries[0], (1, "one".to_string()));
    assert_eq!(sorted_entries[1], (2, "two".to_string()));
    assert_eq!(sorted_entries[2], (3, "three".to_string()));

    // Test with an empty map
    let empty_map = BPlusTreeMap::<String>::new();
    let mut empty_iter = empty_map.into_iter();
    assert!(empty_iter.next().is_none());

    // Test with a map that has a branch node as root
    let left_leaf = LeafNode {
        keys: vec![1, 2],
        values: vec!["one".to_string(), "two".to_string()],
    };

    let right_leaf = LeafNode {
        keys: vec![4, 5],
        values: vec!["four".to_string(), "five".to_string()],
    };

    let branch_map = BPlusTreeMap::with_branch_root(3, left_leaf, right_leaf, Some(3)).unwrap();
    let mut branch_iter = branch_map.into_iter();
    let mut branch_entries: Vec<(i64, String)> = Vec::new();
    while let Some(entry) = branch_iter.next() {
        branch_entries.push(entry);
    }

    // Check that all entries are present
    assert_eq!(branch_entries.len(), 4);

    // Sort the entries by key for consistent testing
    let mut sorted_branch_entries = branch_entries.clone();
    sorted_branch_entries.sort_by(|a, b| a.0.cmp(&b.0));

    // Check each entry
    assert_eq!(sorted_branch_entries[0], (1, "one".to_string()));
    assert_eq!(sorted_branch_entries[1], (2, "two".to_string()));
    assert_eq!(sorted_branch_entries[2], (4, "four".to_string()));
    assert_eq!(sorted_branch_entries[3], (5, "five".to_string()));
}

#[test]
fn test_creating_empty_bplus_tree_map_with_default() {
    // Create a map using Default trait
    let map: BPlusTreeMap<String> = Default::default();

    // Check that the map is empty
    assert_eq!(map.len(), 0);
    assert_eq!(map.is_empty(), true);

    // Check that the map has the default branching factor (4)
    // by inserting elements and checking that the map behaves as expected
    let mut map: BPlusTreeMap<String> = Default::default();
    map.insert(1, "one".to_string());
    map.insert(2, "two".to_string());
    map.insert(3, "three".to_string());
    map.insert(4, "four".to_string());
    map.insert(5, "five".to_string());

    // Check that all elements are accessible
    assert_eq!(map.get(&1), Some(&"one".to_string()));
    assert_eq!(map.get(&2), Some(&"two".to_string()));
    assert_eq!(map.get(&3), Some(&"three".to_string()));
    assert_eq!(map.get(&4), Some(&"four".to_string()));
    assert_eq!(map.get(&5), Some(&"five".to_string()));

    // Check that the map has the correct size
    assert_eq!(map.len(), 5);

    // Test that Default::default() is equivalent to BPlusTreeMap::new()
    let default_map: BPlusTreeMap<String> = Default::default();
    let new_map: BPlusTreeMap<String> = BPlusTreeMap::new();

    // Both maps should be empty
    assert_eq!(default_map.len(), new_map.len());
    assert_eq!(default_map.is_empty(), new_map.is_empty());
}

#[test]
fn test_iterating_over_key_value_pairs() {
    // Create a map with some key-value pairs
    let mut map = BPlusTreeMap::new();
    map.insert(3, "three".to_string());
    map.insert(1, "one".to_string());
    map.insert(2, "two".to_string());

    // Collect the iterator into a vector for easier testing
    let mut entries: Vec<(i64, String)> = Vec::new();
    let mut iter = map.iter();
    while let Some((k, v)) = iter.next() {
        entries.push((k, v.clone()));
    }

    // Check that all entries are present
    assert_eq!(entries.len(), 3);

    // Check that entries are in ascending order by key
    assert_eq!(entries[0], (1, "one".to_string()));
    assert_eq!(entries[1], (2, "two".to_string()));
    assert_eq!(entries[2], (3, "three".to_string()));

    // Test with an empty map
    let empty_map = BPlusTreeMap::<String>::new();
    let mut empty_iter = empty_map.iter();
    assert!(empty_iter.next().is_none());

    // Test with a map that has a branch node as root
    let left_leaf = LeafNode {
        keys: vec![1, 2],
        values: vec!["one".to_string(), "two".to_string()],
    };

    let right_leaf = LeafNode {
        keys: vec![4, 5],
        values: vec!["four".to_string(), "five".to_string()],
    };

    let branch_map = BPlusTreeMap::with_branch_root(3, left_leaf, right_leaf, Some(3)).unwrap();
    let mut branch_entries: Vec<(i64, String)> = Vec::new();
    let mut branch_iter = branch_map.iter();
    while let Some((k, v)) = branch_iter.next() {
        branch_entries.push((k, v.clone()));
    }

    // Check that all entries are present
    assert_eq!(branch_entries.len(), 4);

    // Check that entries are in ascending order by key
    assert_eq!(branch_entries[0], (1, "one".to_string()));
    assert_eq!(branch_entries[1], (2, "two".to_string()));
    assert_eq!(branch_entries[2], (4, "four".to_string()));
    assert_eq!(branch_entries[3], (5, "five".to_string()));

    // Test that the iterator can be used multiple times
    let mut map = BPlusTreeMap::new();
    map.insert(1, "one".to_string());
    map.insert(2, "two".to_string());

    // First iteration
    let mut count = 0;
    let mut it = map.iter();
    while let Some((k, v)) = it.next() {
        count += 1;
        assert!(k == 1 || k == 2);
        assert!(v == &"one".to_string() || v == &"two".to_string());
    }
    assert_eq!(count, 2);

    // Second iteration
    let mut count = 0;
    let mut it = map.iter();
    while let Some((k, v)) = it.next() {
        count += 1;
        assert!(k == 1 || k == 2);
        assert!(v == &"one".to_string() || v == &"two".to_string());
    }
    assert_eq!(count, 2);
}

#[test]
fn test_multi_level_tree_creation() {
    // Create a map with a small branching factor to force multiple levels
    let mut map = BPlusTreeMap::with_branching_factor(3).unwrap();

    // Insert enough elements to create a tree with depth > 2
    for i in 1..=20 {
        map.insert(i, format!("value_{}", i));
    }

    // Verify all elements are accessible
    for i in 1..=20 {
        assert_eq!(map.get(&i), Some(&format!("value_{}", i)));
    }

    // Verify the size is correct
    assert_eq!(map.len(), 20);

    // Verify iteration works correctly
    let mut entries: Vec<(i64, String)> = Vec::new();
    let mut iter = map.iter();
    while let Some((k, v)) = iter.next() {
        entries.push((k, v.clone()));
    }
    assert_eq!(entries.len(), 20);

    // Check that entries are in ascending order by key
    for i in 0..20 {
        assert_eq!(entries[i], ((i as i64 + 1), format!("value_{}", i + 1)));
    }

    // Test removing elements from the multi-level tree
    for i in 1..=10 {
        assert_eq!(map.remove(&i), Some(format!("value_{}", i)));
    }

    // Verify size after removal
    assert_eq!(map.len(), 10);

    // Verify remaining elements are still accessible
    for i in 11..=20 {
        assert_eq!(map.get(&i), Some(&format!("value_{}", i)));
    }

    // Verify removed elements are no longer accessible
    for i in 1..=10 {
        assert_eq!(map.get(&i), None);
    }

    // Test inserting new elements after removal
    for i in 1..=5 {
        map.insert(i, format!("new_value_{}", i));
    }

    // Verify size after insertion
    assert_eq!(map.len(), 15);

    // Verify new elements are accessible
    for i in 1..=5 {
        assert_eq!(map.get(&i), Some(&format!("new_value_{}", i)));
    }

    // Verify iteration still works correctly
    let mut entries: Vec<(i64, String)> = Vec::new();
    let mut iter = map.iter();
    while let Some((k, v)) = iter.next() {
        entries.push((k, v.clone()));
    }
    assert_eq!(entries.len(), 15);

    // Check that the first 5 entries are the newly inserted ones
    for i in 0..5 {
        assert_eq!(entries[i], ((i as i64 + 1), format!("new_value_{}", i + 1)));
    }

    // Check that the remaining entries are the original ones
    for i in 0..10 {
        assert_eq!(entries[i + 5], ((i as i64 + 11), format!("value_{}", i + 11)));
    }
}

#[test]
fn test_iterating_over_keys_only() {
    // Create a map with some key-value pairs
    let mut map = BPlusTreeMap::new();
    map.insert(3, "three".to_string());
    map.insert(1, "one".to_string());
    map.insert(2, "two".to_string());

    // Collect the keys into a vector for easier testing
    let mut keys: Vec<i64> = Vec::new();
    let mut it = map.keys();
    while let Some(k) = it.next() {
        keys.push(k);
    }

    // Check that all keys are present
    assert_eq!(keys.len(), 3);

    // Check that keys are in ascending order
    assert_eq!(keys[0], 1);
    assert_eq!(keys[1], 2);
    assert_eq!(keys[2], 3);

    // Test with an empty map
    let empty_map = BPlusTreeMap::<String>::new();
    let mut empty_keys = empty_map.keys();
    assert!(empty_keys.next().is_none());

    // Test with a map that has a branch node as root
    let left_leaf = LeafNode {
        keys: vec![1, 2],
        values: vec!["one".to_string(), "two".to_string()],
    };

    let right_leaf = LeafNode {
        keys: vec![4, 5],
        values: vec!["four".to_string(), "five".to_string()],
    };

    let branch_map = BPlusTreeMap::with_branch_root(3, left_leaf, right_leaf, Some(3)).unwrap();
    let mut branch_keys: Vec<i64> = Vec::new();
    let mut it = branch_map.keys();
    while let Some(k) = it.next() {
        branch_keys.push(k);
    }

    // Check that all keys are present
    assert_eq!(branch_keys.len(), 4);

    // Check that keys are in ascending order
    assert_eq!(branch_keys[0], 1);
    assert_eq!(branch_keys[1], 2);
    assert_eq!(branch_keys[2], 4);
    assert_eq!(branch_keys[3], 5);

    // Test with a multi-level tree
    let mut multi_level_map = BPlusTreeMap::with_branching_factor(3).unwrap();
    for i in 1..=10 {
        multi_level_map.insert(i, format!("value_{}", i));
    }

    let mut multi_level_keys: Vec<i64> = Vec::new();
    let mut it = multi_level_map.keys();
    while let Some(k) = it.next() {
        multi_level_keys.push(k);
    }

    // Check that all keys are present
    assert_eq!(multi_level_keys.len(), 10);

    // Check that keys are in ascending order
    for i in 0..10 {
        assert_eq!(multi_level_keys[i], i as i64 + 1);
    }

    // Test that the keys iterator can be used multiple times
    let mut map = BPlusTreeMap::new();
    map.insert(1, "one".to_string());
    map.insert(2, "two".to_string());

    // First iteration
    let mut count = 0;
    let mut it = map.keys();
    while let Some(k) = it.next() {
        count += 1;
        assert!(k == 1 || k == 2);
    }
    assert_eq!(count, 2);

    // Second iteration
    let mut count = 0;
    let mut it = map.keys();
    while let Some(k) = it.next() {
        count += 1;
        assert!(k == 1 || k == 2);
    }
    assert_eq!(count, 2);
}

#[test]
fn test_iterating_over_values_only() {
    // Create a map with some key-value pairs
    let mut map = BPlusTreeMap::new();
    map.insert(3, "three".to_string());
    map.insert(1, "one".to_string());
    map.insert(2, "two".to_string());

    // Collect the values into a vector for easier testing
    let mut values: Vec<String> = Vec::new();
    let mut it = map.values();
    while let Some(v) = it.next() {
        values.push(v.clone());
    }

    // Check that all values are present
    assert_eq!(values.len(), 3);

    // Check that values are in order corresponding to ascending key order
    assert_eq!(values[0], "one".to_string());
    assert_eq!(values[1], "two".to_string());
    assert_eq!(values[2], "three".to_string());

    // Test with an empty map
    let empty_map = BPlusTreeMap::<String>::new();
    let mut empty_values = empty_map.values();
    assert!(empty_values.next().is_none());

    // Test with a map that has a branch node as root
    let left_leaf = LeafNode {
        keys: vec![1, 2],
        values: vec!["one".to_string(), "two".to_string()],
    };

    let right_leaf = LeafNode {
        keys: vec![4, 5],
        values: vec!["four".to_string(), "five".to_string()],
    };

    let branch_map = BPlusTreeMap::with_branch_root(3, left_leaf, right_leaf, Some(3)).unwrap();
    let mut branch_values: Vec<String> = Vec::new();
    let mut it = branch_map.values();
    while let Some(v) = it.next() {
        branch_values.push(v.clone());
    }

    // Check that all values are present
    assert_eq!(branch_values.len(), 4);

    // Check that values are in order corresponding to ascending key order
    assert_eq!(branch_values[0], "one".to_string());
    assert_eq!(branch_values[1], "two".to_string());
    assert_eq!(branch_values[2], "four".to_string());
    assert_eq!(branch_values[3], "five".to_string());

    // Test with a multi-level tree
    let mut multi_level_map = BPlusTreeMap::with_branching_factor(3).unwrap();
    for i in 1..=10 {
        multi_level_map.insert(i, format!("value_{}", i));
    }

    let mut multi_level_values: Vec<String> = Vec::new();
    let mut it = multi_level_map.values();
    while let Some(v) = it.next() {
        multi_level_values.push(v.clone());
    }

    // Check that all values are present
    assert_eq!(multi_level_values.len(), 10);

    // Check that values are in order corresponding to ascending key order
    for i in 0..10 {
        assert_eq!(multi_level_values[i], format!("value_{}", i + 1));
    }

    // Test that the values iterator can be used multiple times
    let mut map = BPlusTreeMap::new();
    map.insert(1, "one".to_string());
    map.insert(2, "two".to_string());

    // First iteration
    let mut count = 0;
    let mut it = map.values();
    while let Some(v) = it.next() {
        count += 1;
        assert!(v == &"one".to_string() || v == &"two".to_string());
    }
    assert_eq!(count, 2);

    // Second iteration
    let mut count = 0;
    let mut it = map.values();
    while let Some(v) = it.next() {
        count += 1;
        assert!(v == &"one".to_string() || v == &"two".to_string());
    }
    assert_eq!(count, 2);

    // Test with different value types
    let mut int_map = BPlusTreeMap::new();
    int_map.insert(1, 1);
    int_map.insert(2, 2);
    int_map.insert(3, 3);

    let mut int_values: Vec<i32> = Vec::new();
    let mut it = int_map.values();
    while let Some(v) = it.next() {
        int_values.push(*v);
    }
    assert_eq!(int_values.len(), 3);
    assert_eq!(int_values[0], 1);
    assert_eq!(int_values[1], 2);
    assert_eq!(int_values[2], 3);
}

#[test]
fn test_entry_api() {
    // Create a map with some key-value pairs
    let mut map = BPlusTreeMap::new();
    map.insert(1, "one".to_string());
    map.insert(2, "two".to_string());

    // Test or_insert with an existing key, then modify the value
    let entry = map.entry(1);
    entry.or_insert(&mut map, "default".to_string());
    map.insert(1, "modified_one".to_string());
    assert_eq!(map.get(&1), Some(&"modified_one".to_string()));

    // Test or_insert with a new key
    let entry = map.entry(3);
    entry.or_insert(&mut map, "three".to_string());
    assert_eq!(map.get(&3), Some(&"three".to_string()));

    // Test or_insert_with with an existing key, then modify the value
    let entry = map.entry(2);
    entry.or_insert_with(&mut map, || "default".to_string());
    map.insert(2, "modified_two".to_string());
    assert_eq!(map.get(&2), Some(&"modified_two".to_string()));

    // Test or_insert_with with a new key
    let entry = map.entry(4);
    entry.or_insert_with(&mut map, || "four".to_string());
    assert_eq!(map.get(&4), Some(&"four".to_string()));

    // Test or_insert_with_key with an existing key
    let entry = map.entry(1);
    entry.or_insert_with_key(&mut map, |k| format!("key_{}", k));
    assert_eq!(map.get(&1), Some(&"modified_one".to_string())); // Value should not change

    // Test or_insert_with_key with a new key
    let entry = map.entry(5);
    entry.or_insert_with_key(&mut map, |k| format!("key_{}", k));
    assert_eq!(map.get(&5), Some(&"key_5".to_string()));

    // Test and_modify with an existing key
    let entry = map.entry(1);
    let entry = entry.and_modify(&mut map, |v| format!("modified_{}", v));
    entry.or_insert(&mut map, "default".to_string());
    assert_eq!(map.get(&1), Some(&"modified_modified_one".to_string()));

    // Test and_modify with a new key
    let entry = map.entry(6);
    let entry = entry.and_modify(&mut map, |v| format!("modified_{}", v));
    entry.or_insert(&mut map, "six".to_string());
    assert_eq!(map.get(&6), Some(&"six".to_string())); // and_modify should not be called

    // Test OccupiedEntry methods
    let mut map = BPlusTreeMap::new();
    map.insert(1, "one".to_string());

    // Test get, then overwrite the value
    match map.entry(1) {
        Entry::Occupied(entry) => {
            assert_eq!(entry.get(&map), &"one".to_string());
            map.insert(1, "modified_one".to_string());
            assert_eq!(entry.get(&map), &"modified_one".to_string());
        }
        Entry::Vacant(_) => panic!("Expected Occupied entry"),
    }

    // Test insert
    match map.entry(1) {
        Entry::Occupied(entry) => {
            let old_value = entry.insert(&mut map, "new_one".to_string());
            assert_eq!(old_value, "modified_one".to_string());
            assert_eq!(entry.get(&map), &"new_one".to_string());
        }
        Entry::Vacant(_) => panic!("Expected Occupied entry"),
    }

    // Test remove
    match map.entry(1) {
        Entry::Occupied(entry) => {
            let value = entry.remove(&mut map);
            assert_eq!(value, "new_one".to_string());
            assert_eq!(map.get(&1), None);
        }
        Entry::Vacant(_) => panic!("Expected Occupied entry"),
    }

    // Test VacantEntry methods
    let mut map = BPlusTreeMap::new();

    // Test key
    match map.entry(1) {
        Entry::Occupied(_) => panic!("Expected Vacant entry"),
        Entry::Vacant(entry) => {
            assert_eq!(entry.key(), 1);
        }
    }

    // Test insert, then modify the value
    match map.entry(1) {
        Entry::Occupied(_) => panic!("Expected Vacant entry"),
        Entry::Vacant(entry) => {
            entry.insert(&mut map, "one".to_string());
            map.insert(1, "modified_one".to_string());
            assert_eq!(map.get(&1), Some(&"modified_one".to_string()));
        }
    }
}

#[test]
fn test_common_iterator_abstraction() {
    // Create a map with some key-value pairs
    let mut map = BPlusTreeMap::new();
    map.insert(3, "three".to_string());
    map.insert(1, "one".to_string());
    map.insert(2, "two".to_string());

    // Test the iter method with the Iter type
    let mut entries: Vec<(i64, String)> = Vec::new();
    let mut it = map.iter();
    while let Some((k, v)) = it.next() {
        entries.push((k, v.clone()));
    }
    assert_eq!(entries.len(), 3);
    assert_eq!(entries[0], (1, "one".to_string()));
    assert_eq!(entries[1], (2, "two".to_string()));
    assert_eq!(entries[2], (3, "three".to_string()));

    // Test the keys method with the Keys type
    let mut keys: Vec<i64> = Vec::new();
    let mut it = map.keys();
    while let Some(k) = it.next() {
        keys.push(k);
    }
    assert_eq!(keys.len(), 3);
    assert_eq!(keys[0], 1);
    assert_eq!(keys[1], 2);
    assert_eq!(keys[2], 3);

    // Test the values method with the Values type
    let mut values: Vec<String> = Vec::new();
    let mut it = map.values();
    while let Some(v) = it.next() {
        values.push(v.clone());
    }
    assert_eq!(values.len(), 3);
    assert_eq!(values[0], "one".to_string());
    assert_eq!(values[1], "two".to_string());
    assert_eq!(values[2], "three".to_string());

    // Modify every value through the write-back full scan
    let new_values: Vec<String> = values.iter().map(|v| format!("modified_{}", v)).collect();
    let replaced = map.replace_values(new_values);
    assert_eq!(replaced.len(), 3);

    // Verify that the values were modified
    assert_eq!(map.get(&1), Some(&"modified_one".to_string()));
    assert_eq!(map.get(&2), Some(&"modified_two".to_string()));
    assert_eq!(map.get(&3), Some(&"modified_three".to_string()));

    // Test the into_iter method with the IntoIter type
    let mut entries: Vec<(i64, String)> = Vec::new();
    let mut it = map.into_iter();
    while let Some(entry) = it.next() {
        entries.push(entry);
    }
    assert_eq!(entries.len(), 3);

    // Sort the entries by key for consistent testing
    let mut sorted_entries = entries.clone();
    sorted_entries.sort_by(|a, b| a.0.cmp(&b.0));

    assert_eq!(sorted_entries[0], (1, "modified_one".to_string()));
    assert_eq!(sorted_entries[1], (2, "modified_two".to_string()));
    assert_eq!(sorted_entries[2], (3, "modified_three".to_string()));

    // Test with an empty map
    let empty_map = BPlusTreeMap::<String>::new();
    assert!(empty_map.iter().next().is_none());
    assert!(empty_map.keys().next().is_none());
    assert!(empty_map.values().next().is_none());

    // Test with a map that has a branch node as root
    let left_leaf = LeafNode {
        keys: vec![1, 2],
        values: vec!["one".to_string(), "two".to_string()],
    };

    let right_leaf = LeafNode {
        keys: vec![4, 5],
        values: vec!["four".to_string(), "five".to_string()],
    };

    let branch_map = BPlusTreeMap::with_branch_root(3, left_leaf, right_leaf, Some(3)).unwrap();

    // Test iter
    let mut entries: Vec<(i64, String)> = Vec::new();
    let mut it = branch_map.iter();
    while let Some((k, v)) = it.next() {
        entries.push((k, v.clone()));
    }
    assert_eq!(entries.len(), 4);
    assert_eq!(entries[0], (1, "one".to_string()));
    assert_eq!(entries[1], (2, "two".to_string()));
    assert_eq!(entries[2], (4, "four".to_string()));
    assert_eq!(entries[3], (5, "five".to_string()));

    // Test keys
    let mut keys: Vec<i64> = Vec::new();
    let mut it = branch_map.keys();
    while let Some(k) = it.next() {
        keys.push(k);
    }
    assert_eq!(keys.len(), 4);
    assert_eq!(keys[0], 1);
    assert_eq!(keys[1], 2);
    assert_eq!(keys[2], 4);
    assert_eq!(keys[3], 5);

    // Test values
    let mut values: Vec<String> = Vec::new();
    let mut it = branch_map.values();
    while let Some(v) = it.next() {
        values.push(v.clone());
    }
    assert_eq!(values.len(), 4);
    assert_eq!(values[0], "one".to_string());
    assert_eq!(values[1], "two".to_string());
    assert_eq!(values[2], "four".to_string());
    assert_eq!(values[3], "five".to_string());
}

#[test]
fn test_root_kind_reporting() {
    let mut map = BPlusTreeMap::<String>::with_branching_factor(3).unwrap();
    assert_eq!(map.root_kind(), RootKind::Empty);

    map.insert(1, "one".to_string());
    assert_eq!(map.root_kind(), RootKind::Leaf);

    map.insert(2, "two".to_string());
    map.insert(3, "three".to_string());
    map.insert(4, "four".to_string());
    assert_eq!(map.root_kind(), RootKind::Branch);
}

#[test]
fn test_cloning_bplus_tree_map() {
    // Create a map with some key-value pairs
    let mut original_map = BPlusTreeMap::new();
    original_map.insert(1, "one".to_string());
    original_map.insert(2, "two".to_string());
    original_map.insert(3, "three".to_string());

    // Clone the map
    let cloned_map = original_map.clone();

    // Check that the cloned map has the same size
    assert_eq!(cloned_map.len(), original_map.len());

    // Check that all key-value pairs are in the cloned map
    assert_eq!(cloned_map.get(&1), Some(&"one".to_string()));
    assert_eq!(cloned_map.get(&2), Some(&"two".to_string()));
    assert_eq!(cloned_map.get(&3), Some(&"three".to_string()));

    // Modify the original map and check that the clone is not affected
    let old_value = original_map.insert(2, "new two".to_string());
    assert_eq!(old_value, Some("two".to_string()));
    assert_eq!(original_map.get(&2), Some(&"new two".to_string()));
    assert_eq!(cloned_map.get(&2), Some(&"two".to_string())); // Clone should still have the old value

    // Add a new key to the original map and check that the clone is not affected
    original_map.insert(4, "four".to_string());
    assert_eq!(original_map.len(), 4);
    assert_eq!(cloned_map.len(), 3);
    assert_eq!(original_map.get(&4), Some(&"four".to_string()));
    assert_eq!(cloned_map.get(&4), None);

    // Remove a key from the original map and check that the clone is not affected
    let removed_value = original_map.remove(&1);
    assert_eq!(removed_value, Some("one".to_string()));
    assert_eq!(original_map.get(&1), None);
    assert_eq!(cloned_map.get(&1), Some(&"one".to_string())); // Clone should still have the key

    // Test cloning an empty map
    let empty_map = BPlusTreeMap::<String>::new();
    let cloned_empty_map = empty_map.clone();
    assert_eq!(cloned_empty_map.len(), 0);
    assert_eq!(cloned_empty_map.is_empty(), true);

    // Test cloning a map with a branch node as root
    let left_leaf = LeafNode {
        keys: vec![1, 2],
        values: vec!["one".to_string(), "two".to_string()],
    };

    let right_leaf = LeafNode {
        keys: vec![4, 5],
        values: vec!["four".to_string(), "five".to_string()],
    };

    let branch_map = BPlusTreeMap::with_branch_root(3, left_leaf, right_leaf, Some(3)).unwrap();
    let cloned_branch_map = branch_map.clone();

    // Check that the cloned map has the same size
    assert_eq!(cloned_branch_map.len(), branch_map.len());

    // Check that all key-value pairs are in the cloned map
    assert_eq!(cloned_branch_map.get(&1), Some(&"one".to_string()));
    assert_eq!(cloned_branch_map.get(&2), Some(&"two".to_string()));
    assert_eq!(cloned_branch_map.get(&4), Some(&"four".to_string()));
    assert_eq!(cloned_branch_map.get(&5), Some(&"five".to_string()));
}
