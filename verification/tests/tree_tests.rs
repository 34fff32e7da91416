use mini_innodb::btree::tree::{read_node, write_node, MAX_LEAF_ENTRIES};
use mini_innodb::btree::{BTreeNode, InternalEntry, InternalNode, Key, LeafNode};
use mini_innodb::page::{Page, PageId, PageType};

fn leaf_with(keys: &[u64]) -> LeafNode {
    let mut leaf = LeafNode { entries: Vec::new(), prev_page_no: Some(1), next_page_no: Some(9) };
    for k in keys {
        leaf.insert(Key::from_u64(*k), format!("v{}", k).into_bytes());
    }
    leaf
}

#[test]
fn test_needs_split_for() {
    let leaf = leaf_with(&[1, 2, 3, 4]);
    assert_eq!(leaf.len(), MAX_LEAF_ENTRIES);
    assert!(leaf.needs_split_for(&Key::from_u64(5)));
    assert!(!leaf.needs_split_for(&Key::from_u64(3)));
    assert!(!leaf_with(&[1, 2, 3]).needs_split_for(&Key::from_u64(5)));
}

#[test]
fn test_leaf_split_insert() {
    let leaf = leaf_with(&[1, 2, 4, 5]);
    let (left, right, split) = leaf.split_insert(Key::from_u64(3), b"v3".to_vec(), 7, 8);
    let lk: Vec<u64> = left.entries.iter().map(|e| e.key.as_u64().unwrap()).collect();
    let rk: Vec<u64> = right.entries.iter().map(|e| e.key.as_u64().unwrap()).collect();
    assert_eq!(lk, vec![1, 2]);
    assert_eq!(rk, vec![3, 4, 5]);
    assert_eq!(split.as_u64(), Some(3));
    assert_eq!(left.prev_page_no, Some(1));
    assert_eq!(left.next_page_no, Some(8));
    assert_eq!(right.prev_page_no, Some(7));
    assert_eq!(right.next_page_no, Some(9));
    assert_eq!(right.search(&Key::from_u64(3)), Some(b"v3".as_slice()));
}

#[test]
fn test_internal_split_insert() {
    let mut node = InternalNode { first_child_page_no: 100, entries: Vec::new() };
    for (k, c) in [(10u64, 101u32), (20, 102), (40, 104), (50, 105)] {
        node.insert_entry(Key::from_u64(k), c);
    }
    assert!(node.is_full());
    let (left, right, up) = node.split_insert(Key::from_u64(30), 103);
    assert_eq!(up.as_u64(), Some(30));
    assert_eq!(left.first_child_page_no, 100);
    assert_eq!(left.entries.len(), 2);
    assert_eq!(right.first_child_page_no, 103);
    let rk: Vec<u64> = right.entries.iter().map(|e| e.key.as_u64().unwrap()).collect();
    assert_eq!(rk, vec![40, 50]);
    assert_eq!(left.find_child(&Key::from_u64(25)), 102);
    assert_eq!(right.find_child(&Key::from_u64(35)), 103);
}

#[test]
fn test_new_root() {
    let root = InternalNode::new_root(4, Key::from_u64(50), 9);
    assert_eq!(root.first_child_page_no, 4);
    assert_eq!(root.find_child(&Key::from_u64(49)), 4);
    assert_eq!(root.find_child(&Key::from_u64(50)), 9);
}

#[test]
fn test_entries_in_range() {
    let leaf = leaf_with(&[1, 3, 5, 7]);
    let r = leaf.entries_in_range(&Key::from_u64(2), &Key::from_u64(5));
    let keys: Vec<u64> = r.iter().map(|(k, _)| k.as_u64().unwrap()).collect();
    assert_eq!(keys, vec![3, 5]);
    assert_eq!(r[1].1, b"v5".to_vec());
}

#[test]
fn test_next_page_for() {
    let internal = BTreeNode::Internal(InternalNode {
        first_child_page_no: 1,
        entries: vec![InternalEntry { key: Key::from_u64(10), child_page_no: 2 }],
    });
    assert_eq!(internal.next_page_for(&Key::from_u64(3)), Some(1));
    assert_eq!(internal.next_page_for(&Key::from_u64(10)), Some(2));
    assert_eq!(BTreeNode::new_leaf().next_page_for(&Key::from_u64(3)), None);
}

#[test]
fn test_node_page_roundtrip() {
    let mut page = Page::new(PageId::new(0, 3), PageType::Index);
    assert!(read_node(&page).is_none());
    let node = BTreeNode::Leaf(leaf_with(&[8, 6]));
    write_node(&mut page, &node).unwrap();
    match read_node(&page) {
        Some(BTreeNode::Leaf(leaf)) => {
            assert_eq!(leaf.search(&Key::from_u64(6)), Some(b"v6".as_slice()));
            assert_eq!(leaf.prev_page_no, Some(1));
        }
        _ => panic!("expected leaf node"),
    }
    assert_eq!(page.page_no(), 3);
}

#[test]
fn test_write_node_too_large() {
    let mut page = Page::new(PageId::new(0, 0), PageType::Index);
    let mut leaf = LeafNode { entries: Vec::new(), prev_page_no: None, next_page_no: None };
    leaf.insert(Key::from_u64(1), vec![0u8; 20000]);
    assert!(write_node(&mut page, &BTreeNode::Leaf(leaf)).is_err());
    assert!(read_node(&page).is_none());
}
