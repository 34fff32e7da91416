use mini_innodb::buffer::LruList;

#[test]
fn test_basic_evict_order() {
    let mut lru = LruList::new();
    lru.touch(0);
    lru.touch(1);
    lru.touch(2);

    assert_eq!(lru.evict(), Some(0));
    assert_eq!(lru.evict(), Some(1));
    assert_eq!(lru.evict(), Some(2));
    assert_eq!(lru.evict(), None);
}

#[test]
fn test_touch_moves_to_front() {
    let mut lru = LruList::new();
    lru.touch(0);
    lru.touch(1);
    lru.touch(2);

    lru.touch(0);

    assert_eq!(lru.evict(), Some(1));
    assert_eq!(lru.evict(), Some(2));
    assert_eq!(lru.evict(), Some(0));
}

#[test]
fn test_remove() {
    let mut lru = LruList::new();
    lru.touch(0);
    lru.touch(1);
    lru.touch(2);

    lru.remove(1);
    assert_eq!(lru.len(), 2);

    assert_eq!(lru.evict(), Some(0));
    assert_eq!(lru.evict(), Some(2));
}

#[test]
fn test_single_element() {
    let mut lru = LruList::new();
    lru.touch(42);
    assert_eq!(lru.len(), 1);

    lru.touch(42);
    assert_eq!(lru.len(), 1);

    assert_eq!(lru.evict(), Some(42));
    assert!(lru.is_empty());
}

// ── further checks ──

#[test]
fn test_remove_absent_is_noop() {
    let mut lru = LruList::new();
    lru.touch(3);
    lru.remove(9);
    assert_eq!(lru.len(), 1);
    assert_eq!(lru.evict(), Some(3));
}

#[test]
fn test_remove_head_and_tail() {
    let mut lru = LruList::new();
    for i in 0..5 {
        lru.touch(i);
    }
    lru.remove(4); // head
    lru.remove(0); // tail
    assert_eq!(lru.len(), 3);
    assert_eq!(lru.evict(), Some(1));
    lru.touch(1);
    assert_eq!(lru.evict(), Some(2));
    assert_eq!(lru.evict(), Some(3));
    assert_eq!(lru.evict(), Some(1));
    assert!(lru.is_empty());
    assert_eq!(lru.evict(), None);
}

#[test]
fn test_empty_list() {
    let mut lru = LruList::new();
    assert!(lru.is_empty());
    assert_eq!(lru.len(), 0);
    assert_eq!(lru.evict(), None);
}
