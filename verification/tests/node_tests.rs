use mini_innodb::btree::{BTreeNode, InternalEntry, InternalNode, Key, LeafEntry, LeafNode};

#[test]
fn test_leaf_insert_and_search() {
    let mut leaf = LeafNode {
        entries: Vec::new(),
        prev_page_no: None,
        next_page_no: None,
    };

    leaf.insert(Key::from_u64(10), b"hello".to_vec());
    leaf.insert(Key::from_u64(5), b"world".to_vec());
    leaf.insert(Key::from_u64(20), b"foo".to_vec());

    assert_eq!(leaf.search(&Key::from_u64(5)), Some(b"world".as_slice()));
    assert_eq!(leaf.search(&Key::from_u64(10)), Some(b"hello".as_slice()));
    assert_eq!(leaf.search(&Key::from_u64(20)), Some(b"foo".as_slice()));
    assert_eq!(leaf.search(&Key::from_u64(99)), None);
}

#[test]
fn test_leaf_update() {
    let mut leaf = LeafNode {
        entries: Vec::new(),
        prev_page_no: None,
        next_page_no: None,
    };

    leaf.insert(Key::from_u64(10), b"old".to_vec());
    leaf.insert(Key::from_u64(10), b"new".to_vec());

    assert_eq!(leaf.search(&Key::from_u64(10)), Some(b"new".as_slice()));
    assert_eq!(leaf.len(), 1);
}

#[test]
fn test_leaf_sorted_order() {
    let mut leaf = LeafNode {
        entries: Vec::new(),
        prev_page_no: None,
        next_page_no: None,
    };

    leaf.insert(Key::from_u64(30), b"c".to_vec());
    leaf.insert(Key::from_u64(10), b"a".to_vec());
    leaf.insert(Key::from_u64(20), b"b".to_vec());

    let keys: Vec<u64> = leaf.entries.iter().map(|e| e.key.as_u64().unwrap()).collect();
    assert_eq!(keys, vec![10, 20, 30]);
}

#[test]
fn test_internal_find_child() {
    let internal = InternalNode {
        first_child_page_no: 100,
        entries: vec![
            InternalEntry { key: Key::from_u64(10), child_page_no: 101 },
            InternalEntry { key: Key::from_u64(20), child_page_no: 102 },
            InternalEntry { key: Key::from_u64(30), child_page_no: 103 },
        ],
    };

    assert_eq!(internal.find_child(&Key::from_u64(5)), 100);
    assert_eq!(internal.find_child(&Key::from_u64(10)), 101);
    assert_eq!(internal.find_child(&Key::from_u64(15)), 101);
    assert_eq!(internal.find_child(&Key::from_u64(20)), 102);
    assert_eq!(internal.find_child(&Key::from_u64(30)), 103);
    assert_eq!(internal.find_child(&Key::from_u64(99)), 103);
}

#[test]
fn test_serialize_deserialize_leaf() {
    let mut leaf = LeafNode {
        entries: Vec::new(),
        prev_page_no: Some(3),
        next_page_no: Some(7),
    };
    leaf.insert(Key::from_u64(10), b"hello".to_vec());
    leaf.insert(Key::from_u64(20), b"world".to_vec());

    let node = BTreeNode::Leaf(leaf);
    let bytes = node.serialize();
    let restored = BTreeNode::deserialize(&bytes);

    if let BTreeNode::Leaf(leaf) = restored {
        assert_eq!(leaf.prev_page_no, Some(3));
        assert_eq!(leaf.next_page_no, Some(7));
        assert_eq!(leaf.entries.len(), 2);
        assert_eq!(leaf.search(&Key::from_u64(10)), Some(b"hello".as_slice()));
        assert_eq!(leaf.search(&Key::from_u64(20)), Some(b"world".as_slice()));
    } else {
        panic!("expected leaf node");
    }
}

#[test]
fn test_serialize_deserialize_internal() {
    let node = BTreeNode::Internal(InternalNode {
        first_child_page_no: 100,
        entries: vec![
            InternalEntry { key: Key::from_u64(10), child_page_no: 101 },
            InternalEntry { key: Key::from_u64(20), child_page_no: 102 },
        ],
    });

    let bytes = node.serialize();
    let restored = BTreeNode::deserialize(&bytes);

    if let BTreeNode::Internal(internal) = restored {
        assert_eq!(internal.first_child_page_no, 100);
        assert_eq!(internal.entries.len(), 2);
        assert_eq!(internal.find_child(&Key::from_u64(5)), 100);
        assert_eq!(internal.find_child(&Key::from_u64(15)), 101);
        assert_eq!(internal.find_child(&Key::from_u64(25)), 102);
    } else {
        panic!("expected internal node");
    }
}

// ── further checks ──

#[test]
fn test_leaf_encoding_bytes() {
    let node = BTreeNode::Leaf(LeafNode {
        entries: vec![LeafEntry { key: Key::new(vec![7]), value: vec![1, 2] }],
        prev_page_no: None,
        next_page_no: Some(5),
    });
    assert_eq!(
        node.serialize(),
        vec![2, 0xFF, 0xFF, 0xFF, 0xFF, 0, 0, 0, 5, 0, 1, 0, 1, 7, 0, 2, 1, 2]
    );
}

#[test]
fn test_internal_encoding_bytes() {
    let node = BTreeNode::Internal(InternalNode {
        first_child_page_no: 9,
        entries: vec![InternalEntry { key: Key::new(vec![4, 4]), child_page_no: 258 }],
    });
    assert_eq!(node.serialize(), vec![1, 0, 0, 0, 9, 0, 1, 0, 2, 4, 4, 0, 0, 1, 2]);
}

#[test]
fn test_deserialize_ignores_trailing_bytes_and_rejects_garbage() {
    let node = BTreeNode::new_leaf();
    let mut bytes = node.serialize();
    bytes.extend_from_slice(&[9, 9, 9]);
    let restored = BTreeNode::try_deserialize(&bytes).unwrap();
    assert!(restored.is_leaf());
    assert!(BTreeNode::try_deserialize(&[]).is_none());
    assert!(BTreeNode::try_deserialize(&[3, 0, 0]).is_none());
    // a leaf announcing one entry but holding none
    assert!(BTreeNode::try_deserialize(&[2, 0, 0, 0, 0, 0, 0, 0, 0, 0, 1]).is_none());
    // internal node header cut short
    assert!(BTreeNode::try_deserialize(&[1, 0, 0]).is_none());
}

#[test]
fn test_new_nodes() {
    assert!(BTreeNode::new_leaf().is_leaf());
    let n = BTreeNode::new_internal(12);
    assert!(!n.is_leaf());
    if let BTreeNode::Internal(i) = n {
        assert_eq!(i.first_child_page_no, 12);
        assert!(i.entries.is_empty());
    } else {
        panic!("expected internal node");
    }
}

#[test]
fn test_internal_insert_entry_keeps_order() {
    let mut internal = InternalNode { first_child_page_no: 1, entries: Vec::new() };
    internal.insert_entry(Key::from_u64(20), 3);
    internal.insert_entry(Key::from_u64(10), 2);
    internal.insert_entry(Key::from_u64(30), 4);
    let keys: Vec<u64> = internal.entries.iter().map(|e| e.key.as_u64().unwrap()).collect();
    assert_eq!(keys, vec![10, 20, 30]);
    assert_eq!(internal.find_child(&Key::from_u64(25)), 3);
}
