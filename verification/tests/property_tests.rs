// Concrete checks of the properties the library states: ordering of the
// full traversal, round trips, overwrite idempotence, preservation of
// entries across splits and merges, the configuration bound, and a few
// fixed scenarios.

use bplustree::bplus_tree_map::{LeafNode, RootKind};
use bplustree::BPlusTreeMap;

fn entries_of(map: &BPlusTreeMap<String>) -> Vec<(i64, String)> {
    let mut out = Vec::new();
    let mut it = map.iter();
    while let Some((k, v)) = it.next() {
        out.push((k, v.clone()));
    }
    out
}

#[test]
fn test_traversal_yields_ascending_keys() {
    // Insert in scrambled order; the full traversal must come out in
    // strictly ascending key order
    let mut map = BPlusTreeMap::with_branching_factor(3).unwrap();
    for k in [7, 1, 9, 3, 8, 2, 6, 4, 5, 0] {
        map.insert(k, format!("v{}", k));
    }
    let entries = entries_of(&map);
    assert_eq!(entries.len(), 10);
    for w in entries.windows(2) {
        assert!(w[0].0 < w[1].0);
    }
}

#[test]
fn test_insert_get_remove_round_trip() {
    let mut map = BPlusTreeMap::new();
    map.insert(10, "ten".to_string());
    map.insert(20, "twenty".to_string());
    let len_before = map.len();

    map.insert(15, "fifteen".to_string());
    assert_eq!(map.get(&15), Some(&"fifteen".to_string()));
    assert_eq!(map.len(), len_before + 1);

    assert_eq!(map.remove(&15), Some("fifteen".to_string()));
    assert_eq!(map.get(&15), None);
    assert_eq!(map.len(), len_before);
}

#[test]
fn test_overwrite_keeps_length() {
    let mut map = BPlusTreeMap::new();
    assert_eq!(map.insert(1, "v1".to_string()), None);
    let len_before = map.len();
    assert_eq!(map.insert(1, "v2".to_string()), Some("v1".to_string()));
    assert_eq!(map.len(), len_before);
    assert_eq!(map.get(&1), Some(&"v2".to_string()));
}

#[test]
fn test_split_preserves_entries() {
    // With branching factor 2 every third insert into a node splits it;
    // the set of entries seen by a full traversal is always exactly what
    // was inserted
    let mut map = BPlusTreeMap::with_branching_factor(2).unwrap();
    let mut expected: Vec<(i64, String)> = Vec::new();
    for k in 0..16 {
        map.insert(k, format!("v{}", k));
        expected.push((k, format!("v{}", k)));
        assert_eq!(entries_of(&map), expected);
    }
}

#[test]
fn test_merge_preserves_surviving_entries() {
    // Inserts followed by removes that force merges and redistribution:
    // the survivors are exactly the inserted set minus the removed set
    let mut map = BPlusTreeMap::with_branching_factor(2).unwrap();
    for k in 0..16 {
        map.insert(k, format!("v{}", k));
    }
    for k in [3, 7, 11, 0, 1, 2, 15, 8] {
        assert_eq!(map.remove(&k), Some(format!("v{}", k)));
    }
    let survivors: Vec<i64> = vec![4, 5, 6, 9, 10, 12, 13, 14];
    let entries = entries_of(&map);
    assert_eq!(entries.len(), survivors.len());
    for (i, k) in survivors.iter().enumerate() {
        assert_eq!(entries[i], (*k, format!("v{}", k)));
    }
}

#[test]
fn test_configuration_bound() {
    assert!(BPlusTreeMap::<String>::with_branching_factor(0).is_err());
    assert!(BPlusTreeMap::<String>::with_branching_factor(1).is_err());
    assert!(BPlusTreeMap::<String>::with_branching_factor(2).is_ok());
}

#[test]
fn test_scenario_ascending_inserts_split_leaf() {
    // Branching factor 3: a leaf may hold up to three keys, so the
    // fourth ascending insert overflows it, splits the leaf once and
    // turns the root into a branch; every key stays present
    let mut map = BPlusTreeMap::with_branching_factor(3).unwrap();
    map.insert(1, "one".to_string());
    map.insert(2, "two".to_string());
    map.insert(3, "three".to_string());
    assert_eq!(map.get(&1), Some(&"one".to_string()));
    assert_eq!(map.get(&2), Some(&"two".to_string()));
    assert_eq!(map.get(&3), Some(&"three".to_string()));
    assert_eq!(map.root_kind(), RootKind::Leaf);
    map.insert(4, "four".to_string());
    assert_eq!(map.root_kind(), RootKind::Branch);
    assert_eq!(map.get(&4), Some(&"four".to_string()));
}

#[test]
fn test_scenario_drain_to_one_then_empty() {
    // Branching factor 2; 0..=3 inserted: the root becomes a branch.
    // Removing 0, 1 and 2 leaves one entry; removing it empties the map.
    let mut map = BPlusTreeMap::with_branching_factor(2).unwrap();
    for k in 0..4 {
        map.insert(k, format!("{}", k));
    }
    assert_eq!(map.root_kind(), RootKind::Branch);
    map.remove(&0);
    map.remove(&1);
    map.remove(&2);
    assert_eq!(map.get(&3), Some(&"3".to_string()));
    assert_eq!(map.len(), 1);
    map.remove(&3);
    assert!(map.is_empty());
}

#[test]
fn test_scenario_empty_tree_lookups() {
    let mut map = BPlusTreeMap::<String>::new();
    assert_eq!(map.get(&1), None);
    assert_eq!(map.remove(&1), None);
    assert_eq!(map.len(), 0);
}

#[test]
fn test_scenario_branch_root_bootstrap() {
    // A two-leaf bootstrap with separator 4: overwriting key 2 reports
    // the prior value; inserting key 6 is new and grows the map by one
    let left = LeafNode {
        keys: vec![1, 2],
        values: vec!["one".to_string(), "two".to_string()],
    };
    let right = LeafNode {
        keys: vec![4, 5],
        values: vec!["four".to_string(), "five".to_string()],
    };
    let mut map = BPlusTreeMap::with_branch_root(3, left, right, Some(4)).unwrap();
    let len_before = map.len();
    assert_eq!(map.insert(2, "x".to_string()), Some("two".to_string()));
    assert_eq!(map.len(), len_before);
    assert_eq!(map.insert(6, "six".to_string()), None);
    assert_eq!(map.len(), len_before + 1);
}

#[test]
fn test_replace_values_in_key_order() {
    // The write-back full scan replaces every value in ascending key
    // order and hands the prior values back in that order
    let mut map = BPlusTreeMap::with_branching_factor(3).unwrap();
    for k in [5, 1, 3, 2, 4] {
        map.insert(k, format!("v{}", k));
    }
    let new_values: Vec<String> = (1..=5).map(|k| format!("n{}", k)).collect();
    let old_values = map.replace_values(new_values);
    assert_eq!(
        old_values,
        vec!["v1", "v2", "v3", "v4", "v5"]
            .into_iter()
            .map(|s| s.to_string())
            .collect::<Vec<String>>()
    );
    for k in 1..=5 {
        assert_eq!(map.get(&k), Some(&format!("n{}", k)));
    }
}

#[test]
fn test_leftmost_child_underflow_is_tolerated() {
    // Removal rebalances only the pair (left neighbour, modified
    // child); a leftmost child may stay under-occupied, and the map must
    // still answer every query correctly
    let mut map = BPlusTreeMap::with_branching_factor(4).unwrap();
    for k in 0..12 {
        map.insert(k, format!("v{}", k));
    }
    // Drain the small keys, which live under the leftmost children
    for k in 0..4 {
        assert_eq!(map.remove(&k), Some(format!("v{}", k)));
    }
    assert_eq!(map.len(), 8);
    for k in 4..12 {
        assert_eq!(map.get(&k), Some(&format!("v{}", k)));
    }
    let entries = entries_of(&map);
    for w in entries.windows(2) {
        assert!(w[0].0 < w[1].0);
    }
}
