//! B+Tree nodes: leaf nodes holding key/value pairs and internal nodes
//! routing keys to child pages, with their byte encoding.

use vstd::prelude::*;
use super::key::{
    bytes_le, bytes_lt, lemma_bytes_le_lt_transitive, lemma_bytes_lt_irreflexive,
    lemma_bytes_lt_le_transitive, lemma_bytes_lt_transitive, lemma_bytes_lt_trichotomy,
    spec_key_order, Key, KeyOrder,
};

verus! {

/// A leaf entry: key → value.
#[derive(Debug, Clone)]
pub struct LeafEntry {
    pub key: Key,
    pub value: Vec<u8>,
}

/// An internal entry: key and the child page holding keys from this key on.
#[derive(Debug, Clone)]
pub struct InternalEntry {
    pub key: Key,
    pub child_page_no: u32,
}

impl View for LeafEntry {
    type V = (Seq<u8>, Seq<u8>);

    open spec fn view(&self) -> (Seq<u8>, Seq<u8>) {
        (self.key@, self.value@)
    }
}

impl View for InternalEntry {
    type V = (Seq<u8>, u32);

    open spec fn view(&self) -> (Seq<u8>, u32) {
        (self.key@, self.child_page_no)
    }
}

/// An internal node: `n` keys and `n + 1` children.
///
/// ```text
///        [  key0  |  key1  ]
///       /         |         \
/// first_child  child0       child1
/// (< key0)  (>= key0, < key1) (>= key1)
/// ```
#[derive(Debug)]
pub struct InternalNode {
    /// The leftmost child: keys below `entries[0].key`.
    pub first_child_page_no: u32,
    /// `(key, child)` pairs in key order.
    pub entries: Vec<InternalEntry>,
}

/// A leaf node: key/value pairs in key order, linked to its neighbours.
#[derive(Debug)]
pub struct LeafNode {
    pub entries: Vec<LeafEntry>,
    pub prev_page_no: Option<u32>,
    pub next_page_no: Option<u32>,
}

/// A B+Tree node; each node lives in one page.
#[derive(Debug)]
pub enum BTreeNode {
    Internal(InternalNode),
    Leaf(LeafNode),
}

/// The abstract contents of a leaf node.
pub struct LeafView {
    pub entries: Seq<(Seq<u8>, Seq<u8>)>,
    pub prev_page_no: Option<u32>,
    pub next_page_no: Option<u32>,
}

/// The abstract contents of an internal node.
pub struct InternalView {
    pub first_child_page_no: u32,
    pub entries: Seq<(Seq<u8>, u32)>,
}

/// The abstract contents of a node.
pub enum NodeView {
    Internal(InternalView),
    Leaf(LeafView),
}

/// Leaf entries as key/value byte strings.
pub open spec fn leaf_entries_view(es: Seq<LeafEntry>) -> Seq<(Seq<u8>, Seq<u8>)> {
    es.map_values(|e: LeafEntry| e@)
}

/// Internal entries as key bytes and child page.
pub open spec fn internal_entries_view(es: Seq<InternalEntry>) -> Seq<(Seq<u8>, u32)> {
    es.map_values(|e: InternalEntry| e@)
}

impl View for LeafNode {
    type V = LeafView;

    open spec fn view(&self) -> LeafView {
        LeafView {
            entries: leaf_entries_view(self.entries@),
            prev_page_no: self.prev_page_no,
            next_page_no: self.next_page_no,
        }
    }
}

impl View for InternalNode {
    type V = InternalView;

    open spec fn view(&self) -> InternalView {
        InternalView {
            first_child_page_no: self.first_child_page_no,
            entries: internal_entries_view(self.entries@),
        }
    }
}

impl View for BTreeNode {
    type V = NodeView;

    open spec fn view(&self) -> NodeView {
        match self {
            BTreeNode::Internal(n) => NodeView::Internal(n@),
            BTreeNode::Leaf(n) => NodeView::Leaf(n@),
        }
    }
}

// ── key order over entry sequences ──
/// Keys strictly increasing: no key occurs twice.
pub open spec fn leaf_sorted(es: Seq<(Seq<u8>, Seq<u8>)>) -> bool {
    forall|i: int, j: int| 0 <= i < j < es.len() ==> bytes_lt(#[trigger] es[i].0, #[trigger] es[j].0)
}

/// Keys non-decreasing.
pub open spec fn internal_sorted(es: Seq<(Seq<u8>, u32)>) -> bool {
    forall|i: int, j: int| 0 <= i < j < es.len() ==> bytes_le(#[trigger] es[i].0, #[trigger] es[j].0)
}

/// How many of the leading entries have keys below `k`: the first position
/// whose key is not below `k`, in a sorted sequence.
pub open spec fn leaf_position(es: Seq<(Seq<u8>, Seq<u8>)>, k: Seq<u8>) -> int
    decreases es.len(),
{
    if es.len() == 0 {
        0
    } else if bytes_lt(es.last().0, k) {
        es.len() as int
    } else {
        leaf_position(es.drop_last(), k)
    }
}

/// As `leaf_position`, for internal entries.
pub open spec fn internal_position(es: Seq<(Seq<u8>, u32)>, k: Seq<u8>) -> int
    decreases es.len(),
{
    if es.len() == 0 {
        0
    } else if bytes_lt(es.last().0, k) {
        es.len() as int
    } else {
        internal_position(es.drop_last(), k)
    }
}

/// The value stored under `k`, if any.
pub open spec fn leaf_lookup(es: Seq<(Seq<u8>, Seq<u8>)>, k: Seq<u8>) -> Option<Seq<u8>> {
    if exists|i: int| 0 <= i < es.len() && es[i].0 == k {
        Some(es[choose|i: int| 0 <= i < es.len() && es[i].0 == k].1)
    } else {
        None
    }
}

/// The entries after storing `v` under `k`: the value is replaced when the
/// key is present, otherwise the pair is inserted at its sorted position.
pub open spec fn leaf_insert_entries(es: Seq<(Seq<u8>, Seq<u8>)>, k: Seq<u8>, v: Seq<u8>) -> Seq<
    (Seq<u8>, Seq<u8>),
> {
    let p = leaf_position(es, k);
    if p < es.len() && es[p].0 == k {
        es.update(p, (k, v))
    } else {
        es.insert(p, (k, v))
    }
}

/// The child page that `find_child` picks for `k`: the child of the last
/// entry whose key is at most `k`, or the first child when there is none.
pub open spec fn route(first: u32, es: Seq<(Seq<u8>, u32)>, k: Seq<u8>) -> u32
    decreases es.len(),
{
    if es.len() == 0 {
        first
    } else if bytes_le(es.last().0, k) {
        es.last().1
    } else {
        route(first, es.drop_last(), k)
    }
}

/// In a sorted sequence, the position is the number of keys below `k`:
/// everything before it is below `k`, nothing from it on is.
pub proof fn lemma_leaf_position(es: Seq<(Seq<u8>, Seq<u8>)>, k: Seq<u8>)
    requires
        leaf_sorted(es),
    ensures
        0 <= leaf_position(es, k) <= es.len(),
        forall|i: int| 0 <= i < leaf_position(es, k) ==> bytes_lt(#[trigger] es[i].0, k),
        forall|i: int| leaf_position(es, k) <= i < es.len() ==> !bytes_lt(#[trigger] es[i].0, k),
    decreases es.len(),
{
    if es.len() > 0 {
        let d = es.drop_last();
        assert(leaf_sorted(d)) by {
            assert forall|i: int, j: int| 0 <= i < j < d.len() implies bytes_lt(
                #[trigger] d[i].0,
                #[trigger] d[j].0,
            ) by {
                assert(d[i] == es[i] && d[j] == es[j]);
            }
        }
        lemma_leaf_position(d, k);
        if bytes_lt(es.last().0, k) {
            assert forall|i: int| 0 <= i < es.len() implies bytes_lt(#[trigger] es[i].0, k) by {
                if i < es.len() - 1 {
                    assert(bytes_lt(es[i].0, es[es.len() - 1].0));
                    lemma_bytes_lt_transitive(es[i].0, es.last().0, k);
                }
            }
        } else {
            assert forall|i: int| leaf_position(es, k) <= i < es.len() implies !bytes_lt(
                #[trigger] es[i].0,
                k,
            ) by {
                if i < es.len() - 1 {
                    assert(d[i] == es[i]);
                }
            }
            assert forall|i: int| 0 <= i < leaf_position(es, k) implies bytes_lt(
                #[trigger] es[i].0,
                k,
            ) by {
                assert(d[i] == es[i]);
            }
        }
    }
}

/// A position with everything before it below `k` and nothing after is
/// `leaf_position`.
pub proof fn lemma_leaf_position_unique(es: Seq<(Seq<u8>, Seq<u8>)>, k: Seq<u8>, p: int)
    requires
        leaf_sorted(es),
        0 <= p <= es.len(),
        forall|i: int| 0 <= i < p ==> bytes_lt(#[trigger] es[i].0, k),
        forall|i: int| p <= i < es.len() ==> !bytes_lt(#[trigger] es[i].0, k),
    ensures
        leaf_position(es, k) == p,
{
    lemma_leaf_position(es, k);
    let q = leaf_position(es, k);
    if q < p {
        assert(bytes_lt(es[q].0, k));
    }
    if p < q {
        assert(bytes_lt(es[p].0, k));
    }
}

/// In a sorted internal node the keys before the position are below `k`,
/// the others are not.
pub proof fn lemma_internal_position(es: Seq<(Seq<u8>, u32)>, k: Seq<u8>)
    requires
        internal_sorted(es),
    ensures
        0 <= internal_position(es, k) <= es.len(),
        forall|i: int| 0 <= i < internal_position(es, k) ==> bytes_lt(#[trigger] es[i].0, k),
        forall|i: int| internal_position(es, k) <= i < es.len() ==> !bytes_lt(#[trigger] es[i].0, k),
    decreases es.len(),
{
    if es.len() > 0 {
        let d = es.drop_last();
        assert(internal_sorted(d)) by {
            assert forall|i: int, j: int| 0 <= i < j < d.len() implies bytes_le(
                #[trigger] d[i].0,
                #[trigger] d[j].0,
            ) by {
                assert(d[i] == es[i] && d[j] == es[j]);
            }
        }
        lemma_internal_position(d, k);
        if bytes_lt(es.last().0, k) {
            assert forall|i: int| 0 <= i < es.len() implies bytes_lt(#[trigger] es[i].0, k) by {
                if i < es.len() - 1 {
                    assert(bytes_le(es[i].0, es[es.len() - 1].0));
                    lemma_bytes_le_lt_transitive(es[i].0, es.last().0, k);
                }
            }
        } else {
            assert forall|i: int| internal_position(es, k) <= i < es.len() implies !bytes_lt(
                #[trigger] es[i].0,
                k,
            ) by {
                if i < es.len() - 1 {
                    assert(d[i] == es[i]);
                }
            }
            assert forall|i: int| 0 <= i < internal_position(es, k) implies bytes_lt(
                #[trigger] es[i].0,
                k,
            ) by {
                assert(d[i] == es[i]);
            }
        }
    }
}

/// The position is determined by the bounds of `lemma_internal_position`.
pub proof fn lemma_internal_position_unique(es: Seq<(Seq<u8>, u32)>, k: Seq<u8>, p: int)
    requires
        internal_sorted(es),
        0 <= p <= es.len(),
        forall|i: int| 0 <= i < p ==> bytes_lt(#[trigger] es[i].0, k),
        forall|i: int| p <= i < es.len() ==> !bytes_lt(#[trigger] es[i].0, k),
    ensures
        internal_position(es, k) == p,
{
    lemma_internal_position(es, k);
    let q = internal_position(es, k);
    if q < p {
        assert(bytes_lt(es[q].0, k));
    }
    if p < q {
        assert(bytes_lt(es[p].0, k));
    }
}

impl BTreeNode {
    /// An empty leaf with no neighbours.
    pub fn new_leaf() -> (r: Self)
        ensures
            r@ == NodeView::Leaf(
                LeafView { entries: Seq::empty(), prev_page_no: None, next_page_no: None },
            ),
    {
        let r = BTreeNode::Leaf(LeafNode { entries: Vec::new(), prev_page_no: None, next_page_no: None });
        assert(r@ == NodeView::Leaf(
            LeafView { entries: Seq::empty(), prev_page_no: None, next_page_no: None },
        )) by {
            assert(leaf_entries_view(Seq::<LeafEntry>::empty()) =~= Seq::empty());
        }
        r
    }

    /// An internal node with only its first child.
    pub fn new_internal(first_child_page_no: u32) -> (r: Self)
        ensures
            r@ == NodeView::Internal(InternalView { first_child_page_no, entries: Seq::empty() }),
    {
        let r = BTreeNode::Internal(InternalNode { first_child_page_no, entries: Vec::new() });
        assert(internal_entries_view(Seq::<InternalEntry>::empty()) =~= Seq::empty());
        r
    }

    pub fn is_leaf(&self) -> (r: bool)
        ensures
            r == (self is Leaf),
    {
        match self {
            BTreeNode::Leaf(_) => true,
            BTreeNode::Internal(_) => false,
        }
    }
}

impl InternalNode {
    /// The child page whose subtree holds `key`.
    ///
    /// ```text
    /// entries:  [key0, key1, key2]
    /// children: [first, child0, child1, child2]
    /// key < key0          → first
    /// key0 <= key < key1  → child0
    /// key1 <= key < key2  → child1
    /// key2 <= key         → child2
    /// ```
    pub fn find_child(&self, key: &Key) -> (r: u32)
        ensures
            r == route(self.first_child_page_no, self@.entries, key@),
    {
        let ghost es = self@.entries;
        let mut i = self.entries.len();
        assert(es.subrange(0, i as int) =~= es);
        while i > 0
            invariant
                i <= self.entries@.len(),
                es == internal_entries_view(self.entries@),
                route(self.first_child_page_no, es, key@) == route(
                    self.first_child_page_no,
                    es.subrange(0, i as int),
                    key@,
                ),
            decreases i,
        {
            let entry = &self.entries[i - 1];
            let ord = key.compare_to(&entry.key);
            let ghost sub = es.subrange(0, i as int);
            assert(sub.last() == entry@);
            assert(sub.drop_last() =~= es.subrange(0, i - 1));
            match ord {
                KeyOrder::Less => {
                    proof {
                        lemma_bytes_lt_trichotomy(key@, entry.key@);
                    }
                },
                _ => {
                    proof {
                        lemma_bytes_lt_trichotomy(key@, entry.key@);
                    }
                    return entry.child_page_no;
                },
            }
            i = i - 1;
        }
        assert(es.subrange(0, 0) =~= Seq::<(Seq<u8>, u32)>::empty());
        self.first_child_page_no
    }

    /// Whether the keys are in non-decreasing order, as `insert_entry`
    /// expects.
    pub fn is_sorted(&self) -> (r: bool)
        ensures
            r == internal_sorted(self@.entries),
    {
        let ghost es = self@.entries;
        let n = self.entries.len();
        if n == 0 {
            return true;
        }
        let mut i: usize = 1;
        while i < n
            invariant
                1 <= i <= n,
                n == es.len(),
                es == self@.entries,
                forall|a: int, b: int| 0 <= a < b < i ==> bytes_le(#[trigger] es[a].0, #[trigger] es[b].0),
            decreases n - i,
        {
            match self.entries[i - 1].key.compare_to(&self.entries[i].key) {
                KeyOrder::Greater => {
                    proof {
                        assert(es[i - 1] == self.entries@[i - 1]@);
                        assert(es[i as int] == self.entries@[i as int]@);
                        lemma_bytes_lt_trichotomy(es[i - 1].0, es[i as int].0);
                        assert(!bytes_le(es[i - 1].0, es[i as int].0));
                    }
                    return false;
                },
                _ => {
                    proof {
                        assert(es[i - 1] == self.entries@[i - 1]@);
                        assert(es[i as int] == self.entries@[i as int]@);
                        assert forall|a: int, b: int| 0 <= a < b < i + 1 implies bytes_le(
                            #[trigger] es[a].0,
                            #[trigger] es[b].0,
                        ) by {
                            if b == i && a < i - 1 {
                                if es[a].0 != es[i - 1].0 {
                                    lemma_bytes_lt_le_transitive(es[a].0, es[i - 1].0, es[b].0);
                                }
                            }
                        }
                    }
                },
            }
            i = i + 1;
        }
        true
    }

    /// Inserts `(key, child_page_no)` before the first entry whose key is not
    /// below `key`.
    pub fn insert_entry(&mut self, key: Key, child_page_no: u32)
        requires
            internal_sorted(old(self)@.entries),
        ensures
            final(self)@.first_child_page_no == old(self)@.first_child_page_no,
            final(self)@.entries == old(self)@.entries.insert(
                internal_position(old(self)@.entries, key@),
                (key@, child_page_no),
            ),
    {
        let ghost es = self@.entries;
        let ghost k = key@;
        // first position whose key is not below `key` (the entries are sorted)
        let mut lo: usize = 0;
        let mut hi: usize = self.entries.len();
        while lo < hi
            invariant
                0 <= lo <= hi <= self.entries@.len(),
                es == internal_entries_view(self.entries@),
                k == key@,
                internal_sorted(es),
                forall|i: int| 0 <= i < lo ==> bytes_lt(#[trigger] es[i].0, k),
                forall|i: int| hi <= i < es.len() ==> !bytes_lt(#[trigger] es[i].0, k),
            decreases hi - lo,
        {
            let mid = lo + (hi - lo) / 2;
            let ord = self.entries[mid].key.compare_to(&key);
            assert(es[mid as int] == self.entries@[mid as int]@);
            match ord {
                KeyOrder::Less => {
                    proof {
                        assert forall|i: int| 0 <= i <= mid implies bytes_lt(#[trigger] es[i].0, k) by {
                            if i < mid {
                                assert(bytes_le(es[i].0, es[mid as int].0));
                                lemma_bytes_le_lt_transitive(es[i].0, es[mid as int].0, k);
                            }
                        }
                    }
                    lo = mid + 1;
                },
                _ => {
                    proof {
                        assert(!bytes_lt(es[mid as int].0, k));
                        assert forall|i: int| mid <= i < es.len() implies !bytes_lt(#[trigger] es[i].0, k) by {
                            if i > mid {
                                assert(bytes_le(es[mid as int].0, es[i].0));
                                if bytes_lt(es[i].0, k) {
                                    lemma_bytes_le_lt_transitive(es[mid as int].0, es[i].0, k);
                                }
                            }
                        }
                    }
                    hi = mid;
                },
            }
        }
        proof {
            lemma_internal_position_unique(es, k, lo as int);
        }
        let ghost entry = InternalEntry { key, child_page_no };
        self.entries.insert(lo, InternalEntry { key, child_page_no });
        assert(self@.entries =~= es.insert(lo as int, (k, child_page_no)));
    }
}

impl LeafNode {
    /// Binary search for `key`: `Ok(i)` when `entries[i]` holds it, otherwise
    /// `Err(i)` with `i` the position where it would be inserted.
    fn locate(&self, key: &Key) -> (r: Result<usize, usize>)
        requires
            leaf_sorted(self@.entries),
        ensures
            match r {
                Ok(i) => i == leaf_position(self@.entries, key@) && i < self@.entries.len()
                    && self@.entries[i as int].0 == key@,
                Err(i) => i == leaf_position(self@.entries, key@) && (i == self@.entries.len()
                    || self@.entries[i as int].0 != key@),
            },
    {
        let ghost es = self@.entries;
        let ghost k = key@;
        let mut lo: usize = 0;
        let mut hi: usize = self.entries.len();
        while lo < hi
            invariant
                0 <= lo <= hi <= self.entries@.len(),
                es == leaf_entries_view(self.entries@),
                k == key@,
                leaf_sorted(es),
                forall|i: int| 0 <= i < lo ==> bytes_lt(#[trigger] es[i].0, k),
                forall|i: int| hi <= i < es.len() ==> bytes_lt(k, #[trigger] es[i].0),
            decreases hi - lo,
        {
            let mid = lo + (hi - lo) / 2;
            let ord = self.entries[mid].key.compare_to(key);
            assert(es[mid as int] == self.entries@[mid as int]@);
            match ord {
                KeyOrder::Less => {
                    proof {
                        assert forall|i: int| 0 <= i <= mid implies bytes_lt(#[trigger] es[i].0, k) by {
                            if i < mid {
                                assert(bytes_lt(es[i].0, es[mid as int].0));
                                lemma_bytes_lt_transitive(es[i].0, es[mid as int].0, k);
                            }
                        }
                    }
                    lo = mid + 1;
                },
                KeyOrder::Equal => {
                    proof {
                        lemma_bytes_lt_irreflexive(k);
                        assert forall|i: int| 0 <= i < mid implies bytes_lt(#[trigger] es[i].0, k) by {
                            assert(bytes_lt(es[i].0, es[mid as int].0));
                        }
                        assert forall|i: int| mid <= i < es.len() implies !bytes_lt(#[trigger] es[i].0, k) by {
                            if i > mid {
                                assert(bytes_lt(es[mid as int].0, es[i].0));
                                lemma_bytes_lt_trichotomy(es[i].0, k);
                            }
                        }
                        lemma_leaf_position_unique(es, k, mid as int);
                    }
                    return Ok(mid);
                },
                KeyOrder::Greater => {
                    proof {
                        lemma_bytes_lt_trichotomy(es[mid as int].0, k);
                        assert forall|i: int| mid <= i < es.len() implies bytes_lt(k, #[trigger] es[i].0) by {
                            if i > mid {
                                assert(bytes_lt(es[mid as int].0, es[i].0));
                                lemma_bytes_lt_transitive(k, es[mid as int].0, es[i].0);
                            }
                        }
                    }
                    hi = mid;
                },
            }
        }
        proof {
            assert forall|i: int| lo <= i < es.len() implies !bytes_lt(#[trigger] es[i].0, k) by {
                lemma_bytes_lt_trichotomy(es[i].0, k);
            }
            lemma_leaf_position_unique(es, k, lo as int);
            if lo < es.len() {
                lemma_bytes_lt_irreflexive(k);
            }
        }
        Err(lo)
    }

    /// The value stored under `key`, if any.
    pub fn search(&self, key: &Key) -> (r: Option<&[u8]>)
        requires
            leaf_sorted(self@.entries),
        ensures
            match r {
                Some(v) => leaf_lookup(self@.entries, key@) == Some(v@),
                None => leaf_lookup(self@.entries, key@) is None,
            },
    {
        match self.locate(key) {
            Ok(i) => {
                proof {
                    lemma_lookup_at(self@.entries, key@, i as int);
                }
                Some(self.entries[i].value.as_slice())
            },
            Err(i) => {
                proof {
                    lemma_leaf_position(self@.entries, key@);
                    lemma_bytes_lt_irreflexive(key@);
                    if exists|j: int| 0 <= j < self@.entries.len() && self@.entries[j].0 == key@ {
                        let j = choose|j: int| 0 <= j < self@.entries.len() && self@.entries[j].0 == key@;
                        if j > i as int {
                            assert(bytes_lt(self@.entries[i as int].0, self@.entries[j].0));
                            lemma_bytes_lt_trichotomy(self@.entries[i as int].0, key@);
                        }
                    }
                }
                None
            },
        }
    }

    /// Stores `value` under `key`: replaces the value when the key is
    /// present, otherwise inserts the pair at its sorted position.
    pub fn insert(&mut self, key: Key, value: Vec<u8>)
        requires
            leaf_sorted(old(self)@.entries),
        ensures
            final(self)@.entries == leaf_insert_entries(old(self)@.entries, key@, value@),
            final(self)@.prev_page_no == old(self)@.prev_page_no,
            final(self)@.next_page_no == old(self)@.next_page_no,
    {
        let ghost es = self@.entries;
        let ghost k = key@;
        let ghost v = value@;
        match self.locate(&key) {
            Ok(i) => {
                let ghost old_entry = self.entries@[i as int];
                self.entries[i].value = value;
                assert(self@.entries =~= es.update(i as int, (k, v))) by {
                    assert(self.entries@[i as int]@ == (k, v));
                    assert forall|j: int| 0 <= j < es.len() && j != i implies self@.entries[j] == es[j] by {
                        assert(self.entries@[j] == old(self).entries@[j]);
                    }
                }
            },
            Err(i) => {
                proof {
                    lemma_leaf_position(es, k);
                }
                self.entries.insert(i, LeafEntry { key, value });
                assert(self@.entries =~= es.insert(i as int, (k, v)));
            },
        }
    }

    /// Whether the keys are strictly increasing, as `search` and `insert`
    /// expect.
    pub fn is_sorted(&self) -> (r: bool)
        ensures
            r == leaf_sorted(self@.entries),
    {
        let ghost es = self@.entries;
        let n = self.entries.len();
        if n == 0 {
            return true;
        }
        let mut i: usize = 1;
        while i < n
            invariant
                1 <= i <= n,
                n == es.len(),
                es == self@.entries,
                forall|a: int, b: int| 0 <= a < b < i ==> bytes_lt(#[trigger] es[a].0, #[trigger] es[b].0),
            decreases n - i,
        {
            match self.entries[i - 1].key.compare_to(&self.entries[i].key) {
                KeyOrder::Less => {
                    proof {
                        assert(es[i - 1] == self.entries@[i - 1]@);
                        assert(es[i as int] == self.entries@[i as int]@);
                        assert forall|a: int, b: int| 0 <= a < b < i + 1 implies bytes_lt(
                            #[trigger] es[a].0,
                            #[trigger] es[b].0,
                        ) by {
                            if b == i && a < i - 1 {
                                lemma_bytes_lt_transitive(es[a].0, es[i - 1].0, es[b].0);
                            }
                        }
                    }
                },
                _ => {
                    proof {
                        assert(es[i - 1] == self.entries@[i - 1]@);
                        assert(es[i as int] == self.entries@[i as int]@);
                        assert(!bytes_lt(es[i - 1].0, es[i as int].0));
                    }
                    return false;
                },
            }
            i = i + 1;
        }
        true
    }

    /// Number of entries.
    pub fn len(&self) -> (r: usize)
        ensures
            r == self@.entries.len(),
    {
        self.entries.len()
    }
}

/// In a sorted leaf, the lookup of the key at position `i` gives its value.
pub proof fn lemma_lookup_at(es: Seq<(Seq<u8>, Seq<u8>)>, k: Seq<u8>, idx: int)
    requires
        leaf_sorted(es),
        0 <= idx < es.len(),
        es[idx].0 == k,
    ensures
        leaf_lookup(es, k) == Some(es[idx].1),
{
    assert(exists|i: int| 0 <= i < es.len() && es[i].0 == k);
    let j = choose|i: int| 0 <= i < es.len() && es[i].0 == k;
    lemma_bytes_lt_irreflexive(k);
    if j < idx {
        assert(bytes_lt(es[j].0, es[idx].0));
    } else if j > idx {
        assert(bytes_lt(es[idx].0, es[j].0));
    }
}

/// Storing a pair keeps a leaf's keys strictly increasing.
pub proof fn lemma_leaf_insert_sorted(es: Seq<(Seq<u8>, Seq<u8>)>, k: Seq<u8>, v: Seq<u8>)
    requires
        leaf_sorted(es),
    ensures
        leaf_sorted(leaf_insert_entries(es, k, v)),
{
    lemma_leaf_position(es, k);
    let p = leaf_position(es, k);
    let ns = leaf_insert_entries(es, k, v);
    if p < es.len() && es[p].0 == k {
        assert forall|a: int, b: int| 0 <= a < b < ns.len() implies bytes_lt(
            #[trigger] ns[a].0,
            #[trigger] ns[b].0,
        ) by {
            assert(ns[a].0 == es[a].0);
            assert(ns[b].0 == es[b].0);
        }
    } else {
        assert forall|i: int| p <= i < es.len() implies bytes_lt(k, #[trigger] es[i].0) by {
            lemma_bytes_lt_trichotomy(es[i].0, k);
            if i > p {
                assert(bytes_lt(es[p].0, es[i].0));
                lemma_bytes_lt_trichotomy(es[p].0, k);
                lemma_bytes_lt_transitive(k, es[p].0, es[i].0);
            }
        }
        assert forall|a: int, b: int| 0 <= a < b < ns.len() implies bytes_lt(
            #[trigger] ns[a].0,
            #[trigger] ns[b].0,
        ) by {
            if b < p {
                assert(ns[a] == es[a] && ns[b] == es[b]);
            } else if b == p {
                assert(ns[a] == es[a]);
            } else if a < p {
                assert(ns[a] == es[a] && ns[b] == es[b - 1]);
                lemma_bytes_lt_transitive(es[a].0, k, es[b - 1].0);
            } else if a == p {
                assert(ns[b] == es[b - 1]);
            } else {
                assert(ns[a] == es[a - 1] && ns[b] == es[b - 1]);
            }
        }
    }
}

/// After storing `v` under `k`, looking up `k` gives `v` and looking up any
/// other key gives what it gave before.
pub proof fn lemma_leaf_insert_lookup(es: Seq<(Seq<u8>, Seq<u8>)>, k: Seq<u8>, v: Seq<u8>, k2: Seq<u8>)
    requires
        leaf_sorted(es),
    ensures
        leaf_lookup(leaf_insert_entries(es, k, v), k) == Some(v),
        k2 != k ==> leaf_lookup(leaf_insert_entries(es, k, v), k2) == leaf_lookup(es, k2),
{
    lemma_leaf_position(es, k);
    lemma_leaf_insert_sorted(es, k, v);
    let p = leaf_position(es, k);
    let ns = leaf_insert_entries(es, k, v);
    let replaced = p < es.len() && es[p].0 == k;
    assert(ns[p] == (k, v));
    lemma_lookup_at(ns, k, p);
    if k2 != k {
        if exists|i: int| 0 <= i < es.len() && es[i].0 == k2 {
            let j = choose|i: int| 0 <= i < es.len() && es[i].0 == k2;
            lemma_lookup_at(es, k2, j);
            if replaced || j < p {
                assert(ns[j] == es[j]);
                lemma_lookup_at(ns, k2, j);
            } else {
                assert(ns[j + 1] == es[j]);
                lemma_lookup_at(ns, k2, j + 1);
            }
        } else {
            assert forall|i: int| 0 <= i < ns.len() implies #[trigger] ns[i].0 != k2 by {
                if replaced {
                    if i != p {
                        assert(ns[i] == es[i]);
                    }
                } else if i < p {
                    assert(ns[i] == es[i]);
                } else if i > p {
                    assert(ns[i] == es[i - 1]);
                }
            }
        }
    }
}

/// In a sorted internal node, `route` picks the child of the entry whose
/// key range `[key_i, key_{i+1})` holds `k`, and the first child below
/// the first key.
pub proof fn lemma_route_sorted(first: u32, es: Seq<(Seq<u8>, u32)>, k: Seq<u8>, i: int)
    requires
        internal_sorted(es),
    ensures
        (es.len() == 0 || bytes_lt(k, es[0].0)) ==> route(first, es, k) == first,
        (0 <= i < es.len() && bytes_le(es[i].0, k) && (i + 1 == es.len() || bytes_lt(
            k,
            es[i + 1].0,
        ))) ==> route(first, es, k) == es[i].1,
    decreases es.len(),
{
    if es.len() > 0 {
        let d = es.drop_last();
        assert(internal_sorted(d)) by {
            assert forall|a: int, b: int| 0 <= a < b < d.len() implies bytes_le(
                #[trigger] d[a].0,
                #[trigger] d[b].0,
            ) by {
                assert(d[a] == es[a] && d[b] == es[b]);
            }
        }
        lemma_route_sorted(first, d, k, i);
        if es.len() == 0 || bytes_lt(k, es[0].0) {
            if es.len() > 1 {
                assert(bytes_le(es[0].0, es.last().0));
                lemma_bytes_lt_le_transitive(k, es[0].0, es.last().0);
            }
            lemma_bytes_lt_trichotomy(k, es.last().0);
            if es.len() > 1 {
                assert(d[0] == es[0]);
            }
        }
        if 0 <= i < es.len() && bytes_le(es[i].0, k) && (i + 1 == es.len() || bytes_lt(k, es[i + 1].0)) {
            if i + 1 < es.len() {
                assert(bytes_le(es[i + 1].0, es.last().0));
                lemma_bytes_lt_le_transitive(k, es[i + 1].0, es.last().0);
                lemma_bytes_lt_trichotomy(k, es.last().0);
                assert(d[i] == es[i]);
                if i + 1 < d.len() {
                    assert(d[i + 1] == es[i + 1]);
                }
            }
        }
    }
}

/// Inserting an entry at its position keeps an internal node's keys in order.
pub proof fn lemma_internal_insert_sorted(es: Seq<(Seq<u8>, u32)>, k: Seq<u8>, c: u32)
    requires
        internal_sorted(es),
    ensures
        internal_sorted(es.insert(internal_position(es, k), (k, c))),
{
    lemma_internal_position(es, k);
    let p = internal_position(es, k);
    let ns = es.insert(p, (k, c));
    assert forall|a: int, b: int| 0 <= a < b < ns.len() implies bytes_le(
        #[trigger] ns[a].0,
        #[trigger] ns[b].0,
    ) by {
        if b < p {
            assert(ns[a] == es[a] && ns[b] == es[b]);
        } else if b == p {
            assert(ns[a] == es[a]);
        } else if a < p {
            assert(ns[a] == es[a] && ns[b] == es[b - 1]);
            lemma_bytes_lt_trichotomy(es[b - 1].0, k);
            lemma_bytes_lt_le_transitive(es[a].0, k, es[b - 1].0);
        } else if a == p {
            assert(ns[b] == es[b - 1]);
            lemma_bytes_lt_trichotomy(es[b - 1].0, k);
        } else {
            assert(ns[a] == es[a - 1] && ns[b] == es[b - 1]);
        }
    }
}

} // verus!
