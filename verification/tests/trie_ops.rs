use merkle_trie::trie::Trie;

#[test]
fn new_trie_is_empty() {
    let t = Trie::new();
    assert!(t.is_empty());
}

#[test]
fn insert_makes_nonempty() {
    let mut t = Trie::new();
    t.insert(vec![1, 2, 3], vec![9]);
    assert!(!t.is_empty());
    assert_eq!(t.stored_value(&vec![1, 2, 3]), Some(vec![9]));
    assert_eq!(t.stored_value(&vec![1, 2]), None);
}

#[test]
fn insert_overwrites() {
    let mut t = Trie::new();
    t.insert(vec![5], vec![1]);
    t.insert(vec![5], vec![2, 3]);
    assert_eq!(t.stored_value(&vec![5]), Some(vec![2, 3]));
}

#[test]
fn clear_empties_the_trie() {
    let mut t = Trie::new();
    t.insert(vec![0xAA], vec![1]);
    t.insert(vec![0xBB], vec![2]);
    t.clear();
    assert!(t.is_empty());
}

#[test]
fn remove_prefix_is_exact() {
    let mut t = Trie::new();
    t.insert(vec![1], vec![10]);
    t.insert(vec![1, 2], vec![11]);
    t.insert(vec![9], vec![12]);
    t.remove_prefix(&vec![1]);
    assert_eq!(t.stored_value(&vec![1]), None);
    assert_eq!(t.stored_value(&vec![1, 2]), None);
    assert_eq!(t.stored_value(&vec![9]), Some(vec![12]));
}

#[test]
fn remove_empty_prefix_clears() {
    let mut t = Trie::new();
    t.insert(vec![1], vec![10]);
    t.insert(vec![200, 7], vec![11]);
    t.remove_prefix(&vec![]);
    assert!(t.is_empty());
}
