use mini_innodb::btree::ops::{InsertOp, InsertState, RangeScanOp, SearchOp, TreeAction, TreeEvent};
use mini_innodb::btree::tree::{read_node, write_node};
use mini_innodb::btree::{BTreeNode, Key};
use mini_innodb::page::{Page, PageId, PageType};

/// A B+Tree over pages kept in memory: performs the actions the operations
/// ask for, as the buffer pool does for the disk-based tree.
struct MemTree {
    pages: Vec<Page>,
    root_page_no: u32,
    reads: usize,
}

enum Op {
    Search(SearchOp),
    Scan(RangeScanOp),
    Insert(InsertOp),
}

impl Op {
    fn advance(self, event: TreeEvent) -> (Op, TreeAction) {
        match self {
            Op::Search(op) => {
                let (op, a) = op.step(event);
                (Op::Search(op), a)
            }
            Op::Scan(op) => {
                let (op, a) = op.step(event);
                (Op::Scan(op), a)
            }
            Op::Insert(op) => {
                let (op, a) = op.step(event);
                (Op::Insert(op), a)
            }
        }
    }
}

impl MemTree {
    fn new() -> MemTree {
        let mut tree = MemTree { pages: Vec::new(), root_page_no: 0, reads: 0 };
        let root = tree.allocate();
        write_node(&mut tree.pages[root as usize], &BTreeNode::new_leaf()).unwrap();
        tree.root_page_no = root;
        tree
    }

    fn allocate(&mut self) -> u32 {
        let page_no = self.pages.len() as u32;
        self.pages.push(Page::new(PageId::new(0, page_no), PageType::Index));
        page_no
    }

    fn run(&mut self, op: Op, first: TreeAction) -> Op {
        let mut op = op;
        let mut action = first;
        let mut held: Option<u32> = None;
        let mut fresh: Option<u32> = None;
        loop {
            let event = match action {
                TreeAction::Read(page_no) => {
                    self.reads += 1;
                    held = Some(page_no);
                    TreeEvent::Node(read_node(&self.pages[page_no as usize]).expect("no node"))
                }
                TreeAction::Release => {
                    assert!(held.take().is_some(), "nothing to release");
                    TreeEvent::Ack
                }
                TreeAction::Allocate => {
                    let page_no = self.allocate();
                    fresh = Some(page_no);
                    TreeEvent::Allocated(page_no)
                }
                TreeAction::WriteFresh(node) => {
                    let page_no = fresh.take().expect("no allocated page");
                    write_node(&mut self.pages[page_no as usize], &node).unwrap();
                    TreeEvent::Ack
                }
                TreeAction::WriteHeld(node) => {
                    let page_no = held.take().expect("no read page");
                    write_node(&mut self.pages[page_no as usize], &node).unwrap();
                    TreeEvent::Ack
                }
                TreeAction::Finish => {
                    assert!(held.is_none() && fresh.is_none(), "a page stays pinned");
                    return op;
                }
                TreeAction::Corrupt => panic!("corrupt tree"),
            };
            let (next, a) = op.advance(event);
            op = next;
            action = a;
        }
    }

    fn insert(&mut self, key: Key, value: Vec<u8>) {
        let (op, first) = InsertOp::start(self.root_page_no, key, value);
        match self.run(Op::Insert(op), first) {
            Op::Insert(op) => {
                assert!(matches!(op.state, InsertState::Finished));
                self.root_page_no = op.root_page_no;
            }
            _ => unreachable!(),
        }
    }

    fn search(&mut self, key: &Key) -> Option<Vec<u8>> {
        let (op, first) = SearchOp::start(self.root_page_no, key.clone());
        match self.run(Op::Search(op), first) {
            Op::Search(op) => op.result,
            _ => unreachable!(),
        }
    }

    fn range_scan(&mut self, start: &Key, end: &Key) -> Vec<(Key, Vec<u8>)> {
        let (op, first) = RangeScanOp::start(self.root_page_no, start.clone(), end.clone());
        match self.run(Op::Scan(op), first) {
            Op::Scan(op) => op.results,
            _ => unreachable!(),
        }
    }
}

#[test]
fn test_insert_and_search() {
    let mut btree = MemTree::new();

    btree.insert(Key::from_u64(10), b"ten".to_vec());
    btree.insert(Key::from_u64(20), b"twenty".to_vec());
    btree.insert(Key::from_u64(5), b"five".to_vec());

    assert_eq!(btree.search(&Key::from_u64(10)), Some(b"ten".to_vec()));
    assert_eq!(btree.search(&Key::from_u64(20)), Some(b"twenty".to_vec()));
    assert_eq!(btree.search(&Key::from_u64(5)), Some(b"five".to_vec()));
    assert_eq!(btree.search(&Key::from_u64(99)), None);
}

#[test]
fn test_update_existing_key() {
    let mut btree = MemTree::new();

    btree.insert(Key::from_u64(10), b"old".to_vec());
    btree.insert(Key::from_u64(10), b"new".to_vec());

    assert_eq!(btree.search(&Key::from_u64(10)), Some(b"new".to_vec()));
}

#[test]
fn test_leaf_split() {
    let mut btree = MemTree::new();

    for i in 1..=6 {
        let val = format!("val-{}", i);
        btree.insert(Key::from_u64(i), val.into_bytes());
    }

    for i in 1..=6 {
        let expected = format!("val-{}", i);
        assert_eq!(btree.search(&Key::from_u64(i)), Some(expected.into_bytes()));
    }
}

#[test]
fn test_many_inserts() {
    let mut btree = MemTree::new();

    for i in 1..=50 {
        let val = format!("value-{}", i);
        btree.insert(Key::from_u64(i), val.into_bytes());
    }

    for i in 1..=50 {
        let expected = format!("value-{}", i);
        assert_eq!(
            btree.search(&Key::from_u64(i)),
            Some(expected.into_bytes()),
            "key {} not found",
            i
        );
    }
}

#[test]
fn test_reverse_order_inserts() {
    let mut btree = MemTree::new();

    for i in (1..=20).rev() {
        let val = format!("val-{}", i);
        btree.insert(Key::from_u64(i), val.into_bytes());
    }

    for i in 1..=20 {
        let expected = format!("val-{}", i);
        assert_eq!(btree.search(&Key::from_u64(i)), Some(expected.into_bytes()));
    }
}

#[test]
fn test_range_scan() {
    let mut btree = MemTree::new();

    for i in 1..=10 {
        let val = format!("v{}", i);
        btree.insert(Key::from_u64(i), val.into_bytes());
    }

    let results = btree.range_scan(&Key::from_u64(3), &Key::from_u64(7));
    let keys: Vec<u64> = results.iter().map(|(k, _)| k.as_u64().unwrap()).collect();
    assert_eq!(keys, vec![3, 4, 5, 6, 7]);
}

#[test]
fn test_range_scan_all() {
    let mut btree = MemTree::new();

    for i in 1..=10 {
        btree.insert(Key::from_u64(i), vec![i as u8]);
    }

    let results = btree.range_scan(&Key::from_u64(1), &Key::from_u64(10));
    assert_eq!(results.len(), 10);
}

#[test]
fn test_first_split_grows_a_root() {
    let mut btree = MemTree::new();
    for i in 1..=4 {
        btree.insert(Key::from_u64(i), vec![i as u8]);
    }
    assert_eq!(btree.root_page_no, 0);
    btree.insert(Key::from_u64(5), vec![5]);
    // the leaf split into pages 0 and 1, the new root is page 2
    assert_eq!(btree.root_page_no, 2);
    match read_node(&btree.pages[2]).unwrap() {
        BTreeNode::Internal(root) => {
            assert_eq!(root.first_child_page_no, 0);
            assert_eq!(root.entries.len(), 1);
            assert_eq!(root.entries[0].key.as_u64(), Some(3));
            assert_eq!(root.entries[0].child_page_no, 1);
        }
        BTreeNode::Leaf(_) => panic!("expected an internal root"),
    }
    match (read_node(&btree.pages[0]).unwrap(), read_node(&btree.pages[1]).unwrap()) {
        (BTreeNode::Leaf(left), BTreeNode::Leaf(right)) => {
            assert_eq!(left.entries.len(), 2);
            assert_eq!(right.entries.len(), 3);
            assert_eq!(left.next_page_no, Some(1));
            assert_eq!(right.prev_page_no, Some(0));
            assert_eq!(right.next_page_no, None);
        }
        _ => panic!("expected two leaves"),
    }
}

#[test]
fn test_split_relinks_the_old_next_leaf() {
    let mut btree = MemTree::new();
    for i in 1..=5 {
        btree.insert(Key::from_u64(i * 10), vec![i as u8]);
    }
    // leaves: page 0 = [10, 20], page 1 = [30, 40, 50]; splitting page 0
    // puts the new leaf between them
    btree.insert(Key::from_u64(11), vec![0]);
    btree.insert(Key::from_u64(12), vec![0]);
    btree.insert(Key::from_u64(13), vec![0]);
    match read_node(&btree.pages[1]).unwrap() {
        BTreeNode::Leaf(leaf) => {
            let new_page = leaf.prev_page_no.unwrap();
            assert_ne!(new_page, 0);
            match read_node(&btree.pages[new_page as usize]).unwrap() {
                BTreeNode::Leaf(mid) => {
                    assert_eq!(mid.prev_page_no, Some(0));
                    assert_eq!(mid.next_page_no, Some(1));
                }
                BTreeNode::Internal(_) => panic!("expected a leaf"),
            }
        }
        BTreeNode::Internal(_) => panic!("expected a leaf"),
    }
    let all = btree.range_scan(&Key::from_u64(0), &Key::from_u64(100));
    let keys: Vec<u64> = all.iter().map(|(k, _)| k.as_u64().unwrap()).collect();
    assert_eq!(keys, vec![10, 11, 12, 13, 20, 30, 40, 50]);
}

#[test]
fn test_search_reads_each_level_then_the_leaf_again() {
    let mut btree = MemTree::new();
    for i in 1..=5 {
        btree.insert(Key::from_u64(i), vec![i as u8]);
    }
    btree.reads = 0;
    assert_eq!(btree.search(&Key::from_u64(4)), Some(vec![4]));
    // root, leaf, and the leaf once more for the lookup
    assert_eq!(btree.reads, 3);
}

#[test]
fn test_unexpected_event_is_corrupt() {
    let (op, _) = SearchOp::start(0, Key::from_u64(1));
    let (_, action) = op.step(TreeEvent::Ack);
    assert!(matches!(action, TreeAction::Corrupt));
    let (op, _) = InsertOp::start(0, Key::from_u64(1), vec![1]);
    let (op, action) = op.step(TreeEvent::Allocated(3));
    assert!(matches!(action, TreeAction::Corrupt));
    assert!(matches!(op.state, InsertState::Finished));
}

#[test]
fn test_unsorted_leaf_is_corrupt() {
    let mut leaf = mini_innodb::btree::LeafNode { entries: Vec::new(), prev_page_no: None, next_page_no: None };
    leaf.entries.push(mini_innodb::btree::LeafEntry { key: Key::from_u64(2), value: vec![] });
    leaf.entries.push(mini_innodb::btree::LeafEntry { key: Key::from_u64(1), value: vec![] });
    let (op, _) = InsertOp::start(0, Key::from_u64(3), vec![3]);
    let (_, action) = op.step(TreeEvent::Node(BTreeNode::Leaf(leaf)));
    assert!(matches!(action, TreeAction::Corrupt));
}

#[test]
fn test_scrambled_inserts_scan_in_order() {
    let mut btree = MemTree::new();
    for i in 0..101u64 {
        let key = (i * 37) % 101;
        btree.insert(Key::from_u64(key), key.to_be_bytes().to_vec());
    }
    let all = btree.range_scan(&Key::from_u64(0), &Key::from_u64(1000));
    let keys: Vec<u64> = all.iter().map(|(k, _)| k.as_u64().unwrap()).collect();
    assert_eq!(keys, (0..101u64).collect::<Vec<u64>>());
    for (k, v) in &all {
        assert_eq!(v, &k.as_u64().unwrap().to_be_bytes().to_vec());
    }
    let some = btree.range_scan(&Key::from_u64(40), &Key::from_u64(59));
    let keys: Vec<u64> = some.iter().map(|(k, _)| k.as_u64().unwrap()).collect();
    assert_eq!(keys, (40..60u64).collect::<Vec<u64>>());
    assert!(btree.range_scan(&Key::from_u64(200), &Key::from_u64(300)).is_empty());
}

#[test]
fn test_updates_after_splits_keep_other_values() {
    let mut btree = MemTree::new();
    for i in 1..=30u64 {
        btree.insert(Key::from_u64(i), vec![i as u8]);
    }
    btree.insert(Key::from_u64(17), b"seventeen".to_vec());
    for i in 1..=30u64 {
        let expected = if i == 17 { b"seventeen".to_vec() } else { vec![i as u8] };
        assert_eq!(btree.search(&Key::from_u64(i)), Some(expected));
    }
    assert_eq!(btree.search(&Key::from_u64(31)), None);
}

#[test]
fn test_search_unsorted_leaf_is_corrupt() {
    let unsorted = || {
        let mut leaf = mini_innodb::btree::LeafNode { entries: Vec::new(), prev_page_no: None, next_page_no: None };
        leaf.entries.push(mini_innodb::btree::LeafEntry { key: Key::from_u64(2), value: vec![2] });
        leaf.entries.push(mini_innodb::btree::LeafEntry { key: Key::from_u64(1), value: vec![1] });
        leaf
    };
    let (op, _) = SearchOp::start(0, Key::from_u64(1));
    let (op, _) = op.step(TreeEvent::Node(BTreeNode::Leaf(unsorted())));
    let (op, action) = op.step(TreeEvent::Ack);
    assert!(matches!(action, TreeAction::Read(0)));
    let (_, action) = op.step(TreeEvent::Node(BTreeNode::Leaf(unsorted())));
    assert!(matches!(action, TreeAction::Corrupt));
}

#[test]
fn test_search_ending_at_an_internal_node_finds_nothing() {
    // the descent ends at page 0 as a leaf; when read again it holds an
    // internal node, whose keys (out of order) are not looked at
    let mut internal = mini_innodb::btree::InternalNode { first_child_page_no: 1, entries: Vec::new() };
    internal.entries.push(mini_innodb::btree::InternalEntry { key: Key::from_u64(9), child_page_no: 2 });
    internal.entries.push(mini_innodb::btree::InternalEntry { key: Key::from_u64(3), child_page_no: 3 });
    let leaf = mini_innodb::btree::LeafNode { entries: Vec::new(), prev_page_no: None, next_page_no: None };
    let (op, _) = SearchOp::start(0, Key::from_u64(5));
    let (op, _) = op.step(TreeEvent::Node(BTreeNode::Leaf(leaf)));
    let (op, _) = op.step(TreeEvent::Ack);
    let (op, action) = op.step(TreeEvent::Node(BTreeNode::Internal(internal)));
    assert!(matches!(action, TreeAction::Release));
    assert_eq!(op.result, None);
    let (op, action) = op.step(TreeEvent::Ack);
    assert!(matches!(action, TreeAction::Finish));
    assert_eq!(op.result, None);
}

#[test]
fn test_descent_routes_through_unsorted_internal_node() {
    // keys out of order: the child is that of the last key not above the
    // search key, scanning from the end
    let unsorted = || {
        let mut internal = mini_innodb::btree::InternalNode { first_child_page_no: 1, entries: Vec::new() };
        internal.entries.push(mini_innodb::btree::InternalEntry { key: Key::from_u64(9), child_page_no: 2 });
        internal.entries.push(mini_innodb::btree::InternalEntry { key: Key::from_u64(3), child_page_no: 3 });
        internal
    };
    let (op, _) = SearchOp::start(0, Key::from_u64(5));
    let (op, action) = op.step(TreeEvent::Node(BTreeNode::Internal(unsorted())));
    assert!(matches!(action, TreeAction::Release));
    let (_, action) = op.step(TreeEvent::Ack);
    assert!(matches!(action, TreeAction::Read(3)));
    let (op, _) = SearchOp::start(0, Key::from_u64(1));
    let (op, _) = op.step(TreeEvent::Node(BTreeNode::Internal(unsorted())));
    let (_, action) = op.step(TreeEvent::Ack);
    assert!(matches!(action, TreeAction::Read(1)));
}

#[test]
fn test_leaf_in_parent_place_is_written_back_unchanged() {
    let leaf = mini_innodb::btree::LeafNode {
        entries: vec![mini_innodb::btree::LeafEntry { key: Key::from_u64(4), value: vec![4] }],
        prev_page_no: Some(6),
        next_page_no: None,
    };
    let op = InsertOp {
        root_page_no: 0,
        pending: None,
        path: Vec::new(),
        state: InsertState::ParentRead { page_no: 0, split_key: Key::from_u64(5), new_page_no: 7 },
    };
    let (op, action) = op.step(TreeEvent::Node(BTreeNode::Leaf(leaf)));
    match action {
        TreeAction::WriteHeld(BTreeNode::Leaf(written)) => {
            assert_eq!(written.entries.len(), 1);
            assert_eq!(written.entries[0].key.as_u64(), Some(4));
            assert_eq!(written.entries[0].value, vec![4]);
            assert_eq!(written.prev_page_no, Some(6));
            assert_eq!(written.next_page_no, None);
        }
        _ => panic!("expected the leaf to be written back"),
    }
    assert!(matches!(op.state, InsertState::ParentWritten));
    let (op, action) = op.step(TreeEvent::Ack);
    assert!(matches!(action, TreeAction::Finish));
    assert!(matches!(op.state, InsertState::Finished));
}
