//! The decisions of the disk-based B+Tree: where a search goes next, when a
//! node must split and how, and how nodes are read from and written to
//! pages. Fetching and allocating the pages is the caller's part.

use vstd::prelude::*;
use crate::buffer::BufferPoolError;
use crate::page::page::{write_at, Page, PageError};
use super::encoding::{lemma_node_encoding_roundtrip, node_encodable, node_encoding, parse_node};
use super::key::{bytes_le, bytes_lt, lemma_bytes_lt_trichotomy, Key, KeyOrder};
use super::node::{
    internal_position, internal_sorted, leaf_insert_entries, leaf_lookup, leaf_sorted,
    lemma_internal_insert_sorted, lemma_leaf_insert_sorted, lemma_lookup_at, route, BTreeNode,
    InternalEntry, InternalNode, InternalView, LeafEntry, LeafNode, NodeView,
};

verus! {

/// Most entries a leaf holds; one more makes it split.
pub const MAX_LEAF_ENTRIES: usize = 4;

/// Most entries an internal node holds; one more makes it split.
pub const MAX_INTERNAL_ENTRIES: usize = 4;

/// Size of a page's user data area, where a node is stored.
pub const NODE_AREA_SIZE: usize = 16338;

/// Errors of B+Tree operations.
#[derive(Debug)]
pub enum BTreeError {
    BufferPool(BufferPoolError),
    PageData(PageError),
}

/// The node stored in a page image: decoded from its user data area.
pub open spec fn page_node(b: Seq<u8>) -> Option<NodeView> {
    parse_node(b.subrange(Page::DATA_START as int, Page::DATA_END as int))
}

/// Reads the node stored in `page`; `None` when the data area holds none.
pub fn read_node(page: &Page) -> (r: Option<BTreeNode>)
    ensures
        match r {
            Some(n) => page_node(page@) == Some(n@),
            None => page_node(page@) is None,
        },
{
    proof {
        page.lemma_view_len();
    }
    match page.read_data(0, NODE_AREA_SIZE) {
        Ok(data) => BTreeNode::try_deserialize(data),
        Err(_) => None,
    }
}

/// Stores the encoding of `node` at the start of `page`'s data area; fails,
/// leaving the page alone, when the encoding does not fit.
pub fn write_node(page: &mut Page, node: &BTreeNode) -> (r: Result<(), PageError>)
    ensures
        node_encoding(node@).len() <= NODE_AREA_SIZE ==> r is Ok && final(page)@ == write_at(
            old(page)@,
            Page::DATA_START as int,
            node_encoding(node@),
        ),
        node_encoding(node@).len() > NODE_AREA_SIZE ==> r == Err::<(), PageError>(
            PageError::OutOfBounds {
                offset: Page::DATA_START,
                len: node_encoding(node@).len() as usize,
            },
        ) && final(page)@ == old(page)@,
{
    let bytes = node.serialize();
    if bytes.len() > NODE_AREA_SIZE {
        return Err(PageError::OutOfBounds { offset: Page::DATA_START, len: bytes.len() });
    }
    page.write_data(0, bytes.as_slice())
}

/// A node written to a page is the node read back from it: after
/// `write_node` stores an encodable node that fits, `read_node` finds it.
pub proof fn lemma_node_page_roundtrip(b: Seq<u8>, n: NodeView)
    requires
        b.len() == crate::page::page::PAGE_SIZE,
        node_encodable(n),
        node_encoding(n).len() <= NODE_AREA_SIZE,
    ensures
        page_node(write_at(b, Page::DATA_START as int, node_encoding(n))) == Some(n),
{
    let e = node_encoding(n);
    let w = write_at(b, Page::DATA_START as int, e);
    let rest = b.subrange(Page::DATA_START + e.len(), Page::DATA_END as int);
    assert(w.subrange(Page::DATA_START as int, Page::DATA_END as int) =~= e + rest);
    lemma_node_encoding_roundtrip(n, rest);
}

impl BTreeNode {
    /// One step of the descent to a leaf: the child to visit next, or
    /// `None` at a leaf.
    pub fn next_page_for(&self, key: &Key) -> (r: Option<u32>)
        ensures
            match self@ {
                NodeView::Leaf(_) => r is None,
                NodeView::Internal(n) => r == Some(route(n.first_child_page_no, n.entries, key@)),
            },
    {
        match self {
            BTreeNode::Leaf(_) => None,
            BTreeNode::Internal(internal) => Some(internal.find_child(key)),
        }
    }
}

/// Key order between a stored key and a bound.
fn key_le(a: &Key, b: &Key) -> (r: bool)
    ensures
        r == bytes_le(a@, b@),
{
    match a.compare_to(b) {
        KeyOrder::Greater => false,
        _ => true,
    }
}

impl LeafNode {
    /// Inserting `key` would overflow the leaf: the key is new and the leaf
    /// is full.
    pub fn needs_split_for(&self, key: &Key) -> (r: bool)
        requires
            leaf_sorted(self@.entries),
        ensures
            r == (leaf_lookup(self@.entries, key@) is None && self@.entries.len() >= MAX_LEAF_ENTRIES),
    {
        let exists = self.search(key).is_some();
        !exists && self.len() >= MAX_LEAF_ENTRIES
    }

    /// Stores `value` under `key` and splits the result in two halves: the
    /// left keeps the first half (rounded down) and stays at `page_no`, the
    /// right takes the rest and goes to `new_page_no`, between the left and
    /// the old next leaf. Returns the left and right leaves and the first
    /// key of the right one.
    pub fn split_insert(self, key: Key, value: Vec<u8>, page_no: u32, new_page_no: u32) -> (r: (
        LeafNode,
        LeafNode,
        Key,
    ))
        requires
            leaf_sorted(self@.entries),
        ensures
            ({
                let all = leaf_insert_entries(self@.entries, key@, value@);
                let mid = all.len() / 2;
                &&& r.0@.entries == all.subrange(0, mid as int)
                &&& r.1@.entries == all.subrange(mid as int, all.len() as int)
                &&& r.0@.prev_page_no == self@.prev_page_no
                &&& r.0@.next_page_no == Some(new_page_no)
                &&& r.1@.prev_page_no == Some(page_no)
                &&& r.1@.next_page_no == self@.next_page_no
                &&& r.1@.entries.len() > 0
                &&& r.2@ == r.1@.entries[0].0
            }),
    {
        let mut leaf = self;
        let old_prev = leaf.prev_page_no;
        let old_next = leaf.next_page_no;
        leaf.insert(key, value);
        let ghost all = leaf@.entries;
        proof {
            assert(all.len() >= 1) by {
                let es = self@.entries;
                let p = super::node::leaf_position(es, key@);
                super::node::lemma_leaf_position(es, key@);
            }
        }
        let mut all_entries = leaf.entries;
        let mid = all_entries.len() / 2;
        let right_entries = all_entries.split_off(mid);
        let left_entries = all_entries;
        assert(right_entries@[0]@ == all[mid as int]);
        let split_key = Key::from_bytes(right_entries[0].key.as_bytes());
        let left = LeafNode {
            entries: left_entries,
            prev_page_no: old_prev,
            next_page_no: Some(new_page_no),
        };
        let right = LeafNode {
            entries: right_entries,
            prev_page_no: Some(page_no),
            next_page_no: old_next,
        };
        assert(left@.entries =~= all.subrange(0, mid as int));
        assert(right@.entries =~= all.subrange(mid as int, all.len() as int));
        (left, right, split_key)
    }

    /// The entries with `start <= key <= end`, in order, as key/value pairs.
    pub fn entries_in_range(&self, start: &Key, end: &Key) -> (r: Vec<(Key, Vec<u8>)>)
        ensures
            r@.map_values(|p: (Key, Vec<u8>)| (p.0@, p.1@)) == self@.entries.filter(
                |e: (Seq<u8>, Seq<u8>)| bytes_le(start@, e.0) && bytes_le(e.0, end@),
            ),
    {
        let ghost es = self@.entries;
        let ghost keep = |e: (Seq<u8>, Seq<u8>)| bytes_le(start@, e.0) && bytes_le(e.0, end@);
        let mut out: Vec<(Key, Vec<u8>)> = Vec::new();
        let mut i: usize = 0;
        assert(es.take(0).filter(keep) =~= Seq::<(Seq<u8>, Seq<u8>)>::empty()) by {
            reveal(Seq::filter);
        }
        while i < self.entries.len()
            invariant
                0 <= i <= self.entries@.len(),
                es == self@.entries,
                keep == (|e: (Seq<u8>, Seq<u8>)| bytes_le(start@, e.0) && bytes_le(e.0, end@)),
                out@.map_values(|p: (Key, Vec<u8>)| (p.0@, p.1@)) == es.take(i as int).filter(keep),
            decreases self.entries@.len() - i,
        {
            let e = &self.entries[i];
            let ghost before = out@;
            proof {
                assert(es.take(i + 1).drop_last() =~= es.take(i as int));
                assert(es.take(i + 1).last() == e@);
                reveal(Seq::filter);
            }
            if key_le(start, &e.key) && key_le(&e.key, end) {
                let k = Key::from_bytes(e.key.as_bytes());
                let v = vstd::slice::slice_to_vec(e.value.as_slice());
                out.push((k, v));
                assert(out@.map_values(|p: (Key, Vec<u8>)| (p.0@, p.1@)) =~= before.map_values(
                    |p: (Key, Vec<u8>)| (p.0@, p.1@),
                ).push(e@));
            } else {
                assert(out@ == before);
            }
            i = i + 1;
        }
        assert(es.take(self.entries.len() as int) =~= es);
        out
    }
}

impl InternalNode {
    /// The node is full: one more entry makes it split.
    pub fn is_full(&self) -> (r: bool)
        ensures
            r == (self@.entries.len() >= MAX_INTERNAL_ENTRIES),
    {
        self.entries.len() >= MAX_INTERNAL_ENTRIES
    }

    /// A new root above a split: `left_page_no` below `split_key`,
    /// `right_page_no` from it on.
    pub fn new_root(left_page_no: u32, split_key: Key, right_page_no: u32) -> (r: InternalNode)
        ensures
            r@.first_child_page_no == left_page_no,
            r@.entries == seq![(split_key@, right_page_no)],
    {
        let mut root = InternalNode { first_child_page_no: left_page_no, entries: Vec::new() };
        assert(root@.entries =~= Seq::<(Seq<u8>, u32)>::empty());
        root.insert_entry(split_key, right_page_no);
        assert(root@.entries =~= seq![(split_key@, right_page_no)]);
        root
    }

    /// Inserts `(key, child_page_no)` and splits the result: the middle
    /// entry moves up, the entries before it stay here (with the same first
    /// child), the entries after it go to a new node whose first child is the
    /// middle entry's child. Returns the left node, the right node and the
    /// key that moves up.
    pub fn split_insert(self, key: Key, child_page_no: u32) -> (r: (InternalNode, InternalNode, Key))
        requires
            internal_sorted(self@.entries),
        ensures
            ({
                let all = self@.entries.insert(internal_position(self@.entries, key@), (key@, child_page_no));
                let mid = all.len() / 2;
                &&& r.0@.first_child_page_no == self@.first_child_page_no
                &&& r.0@.entries == all.subrange(0, mid as int)
                &&& r.1@.first_child_page_no == all[mid as int].1
                &&& r.1@.entries == all.subrange(mid as int + 1, all.len() as int)
                &&& r.2@ == all[mid as int].0
            }),
    {
        let mut node = self;
        let first = node.first_child_page_no;
        proof {
            super::node::lemma_internal_position(self@.entries, key@);
        }
        node.insert_entry(key, child_page_no);
        let ghost all = node@.entries;
        assert(all.len() == self@.entries.len() + 1);
        let mut all_entries = node.entries;
        assert(all_entries@.len() == all.len());
        let mid = all_entries.len() / 2;
        let right_entries = all_entries.split_off(mid + 1);
        let split_entry = all_entries.pop().unwrap();
        let left_entries = all_entries;
        let left = InternalNode { first_child_page_no: first, entries: left_entries };
        let right = InternalNode {
            first_child_page_no: split_entry.child_page_no,
            entries: right_entries,
        };
        assert(left@.entries =~= all.subrange(0, mid as int));
        assert(right@.entries =~= all.subrange(mid + 1, all.len() as int));
        (left, right, split_entry.key)
    }
}

/// After a leaf split at `mid`, a key below the right half's first key is
/// found exactly where it was in the left half, any other key in the right
/// half; both halves stay sorted.
pub proof fn lemma_leaf_split_lookup(all: Seq<(Seq<u8>, Seq<u8>)>, mid: int, k: Seq<u8>)
    requires
        leaf_sorted(all),
        0 <= mid < all.len(),
    ensures
        leaf_sorted(all.subrange(0, mid)),
        leaf_sorted(all.subrange(mid, all.len() as int)),
        bytes_lt(k, all[mid].0) ==> leaf_lookup(all, k) == leaf_lookup(all.subrange(0, mid), k),
        !bytes_lt(k, all[mid].0) ==> leaf_lookup(all, k) == leaf_lookup(
            all.subrange(mid, all.len() as int),
            k,
        ),
{
    let left = all.subrange(0, mid);
    let right = all.subrange(mid, all.len() as int);
    assert forall|a: int, b: int| 0 <= a < b < left.len() implies bytes_lt(
        #[trigger] left[a].0,
        #[trigger] left[b].0,
    ) by {
        assert(left[a] == all[a] && left[b] == all[b]);
    }
    assert forall|a: int, b: int| 0 <= a < b < right.len() implies bytes_lt(
        #[trigger] right[a].0,
        #[trigger] right[b].0,
    ) by {
        assert(right[a] == all[a + mid] && right[b] == all[b + mid]);
    }
    if exists|i: int| 0 <= i < all.len() && all[i].0 == k {
        let i = choose|i: int| 0 <= i < all.len() && all[i].0 == k;
        lemma_lookup_at(all, k, i);
        if i < mid {
            assert(bytes_lt(all[i].0, all[mid].0));
            assert(left[i] == all[i]);
            lemma_lookup_at(left, k, i);
            lemma_bytes_lt_trichotomy(k, all[mid].0);
            if !bytes_lt(k, all[mid].0) {
                assert(!(exists|j: int| 0 <= j < right.len() && right[j].0 == k)) by {
                    if exists|j: int| 0 <= j < right.len() && right[j].0 == k {
                        let j = choose|j: int| 0 <= j < right.len() && right[j].0 == k;
                        assert(right[j] == all[j + mid]);
                        assert(bytes_lt(all[i].0, all[j + mid].0));
                        super::key::lemma_bytes_lt_irreflexive(k);
                    }
                }
            }
        } else {
            assert(right[i - mid] == all[i]);
            lemma_lookup_at(right, k, i - mid);
            if i > mid {
                assert(bytes_lt(all[mid].0, all[i].0));
            }
            lemma_bytes_lt_trichotomy(k, all[mid].0);
            if bytes_lt(k, all[mid].0) {
                if i > mid {
                    super::key::lemma_bytes_lt_transitive(k, all[mid].0, k);
                }
                super::key::lemma_bytes_lt_irreflexive(k);
            }
        }
    } else {
        assert(!(exists|j: int| 0 <= j < left.len() && left[j].0 == k)) by {
            if exists|j: int| 0 <= j < left.len() && left[j].0 == k {
                let j = choose|j: int| 0 <= j < left.len() && left[j].0 == k;
                assert(left[j] == all[j]);
            }
        }
        assert(!(exists|j: int| 0 <= j < right.len() && right[j].0 == k)) by {
            if exists|j: int| 0 <= j < right.len() && right[j].0 == k {
                let j = choose|j: int| 0 <= j < right.len() && right[j].0 == k;
                assert(right[j] == all[j + mid]);
            }
        }
    }
}

/// After an internal split at `mid`, a key below the key that moves up is
/// routed by the left node as before, any other key by the right node
/// (whose first child is the middle entry's child).
pub proof fn lemma_internal_split_route(first: u32, all: Seq<(Seq<u8>, u32)>, mid: int, k: Seq<u8>)
    requires
        internal_sorted(all),
        0 <= mid < all.len(),
    ensures
        bytes_lt(k, all[mid].0) ==> route(first, all, k) == route(first, all.subrange(0, mid), k),
        !bytes_lt(k, all[mid].0) ==> route(first, all, k) == route(
            all[mid].1,
            all.subrange(mid + 1, all.len() as int),
            k,
        ),
    decreases all.len(),
{
    let n = all.len() as int;
    lemma_bytes_lt_trichotomy(k, all[mid].0);
    if n - 1 == mid {
        assert(all.drop_last() =~= all.subrange(0, mid));
        assert(all.subrange(mid + 1, n) =~= Seq::<(Seq<u8>, u32)>::empty());
    } else {
        let d = all.drop_last();
        assert(internal_sorted(d)) by {
            assert forall|a: int, b: int| 0 <= a < b < d.len() implies bytes_le(
                #[trigger] d[a].0,
                #[trigger] d[b].0,
            ) by {
                assert(d[a] == all[a] && d[b] == all[b]);
            }
        }
        lemma_internal_split_route(first, d, mid, k);
        assert(d[mid] == all[mid]);
        assert(d.subrange(0, mid) =~= all.subrange(0, mid));
        let r = all.subrange(mid + 1, n);
        assert(r.drop_last() =~= d.subrange(mid + 1, n - 1));
        assert(r.last() == all.last());
        assert(bytes_le(all[mid].0, all[n - 1].0));
        if bytes_le(all.last().0, k) && bytes_lt(k, all[mid].0) {
            super::key::lemma_bytes_le_lt_transitive(all[mid].0, all.last().0, k);
            super::key::lemma_bytes_lt_transitive(k, all[mid].0, k);
            super::key::lemma_bytes_lt_irreflexive(k);
        }
    }
}

} // verus!
