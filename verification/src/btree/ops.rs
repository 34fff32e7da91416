//! The B+Tree operations as step machines over pages.
//!
//! An operation does not touch pages itself: each step takes what happened
//! (a node was read, a page was allocated, a page was released or written)
//! and answers with the next thing to do. The caller keeps at most two pages
//! pinned on the operation's behalf — the page read last ("held") and the
//! page allocated last ("fresh") — and performs each action:
//!
//! - `Read(p)`: pin page `p` as the held page and report its node;
//! - `Release`: unpin the held page;
//! - `Allocate`: allocate a new index page, pin it as the fresh page and
//!   report its number;
//! - `WriteFresh(n)` / `WriteHeld(n)`: store node `n` in the fresh / held
//!   page and unpin it;
//! - `Finish`: the operation is complete;
//! - `Corrupt`: the operation stops here; see the variant's doc.

use vstd::prelude::*;
use super::key::{bytes_le, Key};
use super::node::{
    internal_position, internal_sorted, leaf_insert_entries, leaf_lookup, leaf_sorted, route,
    BTreeNode, InternalNode, InternalView, LeafNode, LeafView, NodeView,
};
use super::tree::{MAX_INTERNAL_ENTRIES, MAX_LEAF_ENTRIES};

verus! {

/// What happened since the last step.
pub enum TreeEvent {
    /// The page asked for was read; it holds this node.
    Node(BTreeNode),
    /// A page was allocated; this is its number.
    Allocated(u32),
    /// The release or write asked for is done.
    Ack,
}

/// What the caller does next.
pub enum TreeAction {
    Read(u32),
    Release,
    Allocate,
    WriteFresh(BTreeNode),
    WriteHeld(BTreeNode),
    Finish,
    /// The operation stops without finishing. This is the answer when a
    /// page does not hold the kind of node the step needs (a leaf to split,
    /// or an internal node to split, turns out to be the other kind), when
    /// the event does not fit the state, and when a leaf the operation looks
    /// a key up in or inserts into, or an internal node that gains an entry,
    /// holds its keys out of order. Pages that the tree itself wrote always
    /// hold their keys in order, so the last case arises only on a damaged
    /// page. There a binary search or a partition point over the keys has no
    /// defined result: rather than go on with a position that means nothing
    /// (and write a node built from it back), the operation answers
    /// `Corrupt`. An internal node passed on the way down is never checked:
    /// the child is chosen by a scan from its last key, which is defined in
    /// any order.
    Corrupt,
}

/// The node of a `Node` event, if it is one.
pub open spec fn event_node(e: TreeEvent) -> Option<NodeView> {
    match e {
        TreeEvent::Node(n) => Some(n@),
        _ => None,
    }
}

// ── search ──
/// Where a search stands.
pub enum SearchState {
    /// Descending: waiting for the node of `page_no`.
    Descend { page_no: u32 },
    /// The held page was released; `next` is read next, as a leaf when
    /// `at_leaf` (the descent ended there).
    Stepping { next: u32, at_leaf: bool },
    /// Waiting for the node of the leaf.
    LeafRead,
    /// Waiting for the release of the leaf.
    Releasing,
    Finished,
}

/// A lookup of `key`: descends to the leaf whose range holds the key, then
/// reads that leaf again and looks the key up in it.
pub struct SearchOp {
    pub key: Key,
    pub state: SearchState,
    pub result: Option<Vec<u8>>,
}

/// What one step of a search does: the state, the result and the action it
/// answers `event` with.
pub open spec fn search_step(op: SearchOp, event: TreeEvent, r: (SearchOp, TreeAction)) -> bool {
    &&& r.0.key@ == op.key@
    &&& match (op.state, event_node(event)) {
        (SearchState::Descend { page_no }, Some(n)) => {
            &&& r.1 == TreeAction::Release
            &&& r.0.result == op.result
            &&& match n {
                NodeView::Leaf(_) => r.0.state == (SearchState::Stepping { next: page_no, at_leaf: true }),
                NodeView::Internal(i) => r.0.state == (SearchState::Stepping {
                    next: route(i.first_child_page_no, i.entries, op.key@),
                    at_leaf: false,
                }),
            }
        },
        (SearchState::LeafRead, Some(n)) => match n {
            NodeView::Leaf(l) => {
                &&& r.1 == (if leaf_sorted(l.entries) { TreeAction::Release } else { TreeAction::Corrupt })
                &&& !leaf_sorted(l.entries) ==> r.0.state is Finished && r.0.result == op.result
                &&& leaf_sorted(l.entries) ==> r.0.state == SearchState::Releasing
                    && match leaf_lookup(l.entries, op.key@) {
                    Some(v) => r.0.result matches Some(rv) && rv@ == v,
                    None => r.0.result is None,
                }
            },
            NodeView::Internal(_) => {
                &&& r.1 == TreeAction::Release
                &&& r.0.state == SearchState::Releasing
                &&& r.0.result is None
            },
        },
        _ => true,
    }
    &&& op.state matches SearchState::Stepping { next, at_leaf } ==> event is Ack ==> {
        &&& r.1 == TreeAction::Read(next)
        &&& r.0.state == (if at_leaf { SearchState::LeafRead } else { SearchState::Descend { page_no: next } })
        &&& r.0.result == op.result
    }
    &&& (op.state is Releasing && event is Ack) ==> r.1 == TreeAction::Finish && r.0.state is Finished
        && r.0.result == op.result
    &&& !((op.state is Descend || op.state is LeafRead) && event is Node)
        && !((op.state is Stepping || op.state is Releasing) && event is Ack)
        ==> r.1 == TreeAction::Corrupt && r.0.state is Finished && r.0.result == op.result
}

impl SearchOp {
    /// Starts at the root: the first action reads it.
    pub fn start(root_page_no: u32, key: Key) -> (r: (SearchOp, TreeAction))
        ensures
            r.0.key@ == key@,
            r.0.state == (SearchState::Descend { page_no: root_page_no }),
            r.0.result is None,
            r.1 == TreeAction::Read(root_page_no),
    {
        (SearchOp { key, state: SearchState::Descend { page_no: root_page_no }, result: None }, TreeAction::Read(root_page_no))
    }

    pub fn step(self, event: TreeEvent) -> (r: (SearchOp, TreeAction))
        ensures
            search_step(self, event, r),

    {
        let SearchOp { key, state, result } = self;
        match (state, event) {
            (SearchState::Descend { page_no }, TreeEvent::Node(node)) => {
                let next = match node.next_page_for(&key) {
                    Some(child) => SearchState::Stepping { next: child, at_leaf: false },
                    None => SearchState::Stepping { next: page_no, at_leaf: true },
                };
                (SearchOp { key, state: next, result }, TreeAction::Release)
            },
            (SearchState::Stepping { next, at_leaf }, TreeEvent::Ack) => {
                let state = if at_leaf {
                    SearchState::LeafRead
                } else {
                    SearchState::Descend { page_no: next }
                };
                (SearchOp { key, state, result }, TreeAction::Read(next))
            },
            (SearchState::LeafRead, TreeEvent::Node(node)) => {
                let found = match &node {
                    BTreeNode::Leaf(leaf) => {
                        if !leaf.is_sorted() {
                            return (SearchOp { key, state: SearchState::Finished, result }, TreeAction::Corrupt);
                        }
                        match leaf.search(&key) {
                            Some(v) => Some(vstd::slice::slice_to_vec(v)),
                            None => None,
                        }
                    },
                    BTreeNode::Internal(_) => None,
                };
                (SearchOp { key, state: SearchState::Releasing, result: found }, TreeAction::Release)
            },
            (SearchState::Releasing, TreeEvent::Ack) => {
                (SearchOp { key, state: SearchState::Finished, result }, TreeAction::Finish)
            },
            (_, _) => (SearchOp { key, state: SearchState::Finished, result }, TreeAction::Corrupt),
        }
    }
}

// ── range scan ──
/// The key/value pairs of a result list, as byte strings.
pub open spec fn pairs_view(v: Seq<(Key, Vec<u8>)>) -> Seq<(Seq<u8>, Seq<u8>)> {
    v.map_values(|p: (Key, Vec<u8>)| (p.0@, p.1@))
}

/// Where a range scan stands.
pub enum ScanState {
    /// Descending towards the leaf of the start key: waiting for the node of
    /// `page_no`.
    Descend { page_no: u32 },
    /// The held page was released; `next` is read next, as a leaf when
    /// `at_leaf`.
    Stepping { next: u32, at_leaf: bool },
    /// Waiting for the node of a leaf of the chain.
    LeafRead,
    /// The leaf was released; its successor in the chain is `next`.
    LeafReleased { next: Option<u32> },
    Finished,
}

/// Collects the entries with `start_key <= key <= end_key`: descends to the
/// leaf of `start_key`, then follows the leaf chain to its end.
pub struct RangeScanOp {
    pub start_key: Key,
    pub end_key: Key,
    pub state: ScanState,
    pub results: Vec<(Key, Vec<u8>)>,
}

/// What one step of a range scan does.
pub open spec fn scan_step(op: RangeScanOp, event: TreeEvent, r: (RangeScanOp, TreeAction)) -> bool {
    &&& r.0.start_key@ == op.start_key@
    &&& r.0.end_key@ == op.end_key@
    &&& match (op.state, event_node(event)) {
        (ScanState::Descend { page_no }, Some(n)) => {
            &&& r.1 == TreeAction::Release
            &&& r.0.results@ == op.results@
            &&& match n {
                NodeView::Leaf(_) => r.0.state == (ScanState::Stepping { next: page_no, at_leaf: true }),
                NodeView::Internal(i) => r.0.state == (ScanState::Stepping {
                    next: route(i.first_child_page_no, i.entries, op.start_key@),
                    at_leaf: false,
                }),
            }
        },
        (ScanState::LeafRead, Some(n)) => {
            &&& r.1 == TreeAction::Release
            &&& match n {
                NodeView::Leaf(l) => {
                    &&& r.0.state == (ScanState::LeafReleased { next: l.next_page_no })
                    &&& pairs_view(r.0.results@) == pairs_view(op.results@) + l.entries.filter(
                        |e: (Seq<u8>, Seq<u8>)| bytes_le(op.start_key@, e.0) && bytes_le(e.0, op.end_key@),
                    )
                },
                NodeView::Internal(_) => {
                    &&& r.0.state == (ScanState::LeafReleased { next: None })
                    &&& r.0.results@ == op.results@
                },
            }
        },
        _ => true,
    }
    &&& op.state matches ScanState::Stepping { next, at_leaf } ==> event is Ack ==> {
        &&& r.1 == TreeAction::Read(next)
        &&& r.0.state == (if at_leaf { ScanState::LeafRead } else { ScanState::Descend { page_no: next } })
        &&& r.0.results@ == op.results@
    }
    &&& op.state matches ScanState::LeafReleased { next } ==> event is Ack ==> {
        &&& r.0.results@ == op.results@
        &&& match next {
            Some(x) => r.1 == TreeAction::Read(x) && r.0.state is LeafRead,
            None => r.1 == TreeAction::Finish && r.0.state is Finished,
        }
    }
    &&& !((op.state is Descend || op.state is LeafRead) && event is Node)
        && !((op.state is Stepping || op.state is LeafReleased) && event is Ack)
        ==> r.1 == TreeAction::Corrupt && r.0.state is Finished && r.0.results@ == op.results@
}

impl RangeScanOp {
    /// Starts at the root: the first action reads it.
    pub fn start(root_page_no: u32, start_key: Key, end_key: Key) -> (r: (RangeScanOp, TreeAction))
        ensures
            r.0.start_key@ == start_key@,
            r.0.end_key@ == end_key@,
            r.0.state == (ScanState::Descend { page_no: root_page_no }),
            r.0.results@.len() == 0,
            r.1 == TreeAction::Read(root_page_no),
    {
        (
            RangeScanOp {
                start_key,
                end_key,
                state: ScanState::Descend { page_no: root_page_no },
                results: Vec::new(),
            },
            TreeAction::Read(root_page_no),
        )
    }

    pub fn step(self, event: TreeEvent) -> (r: (RangeScanOp, TreeAction))
        ensures
            scan_step(self, event, r),

    {
        let RangeScanOp { start_key, end_key, state, mut results } = self;
        match (state, event) {
            (ScanState::Descend { page_no }, TreeEvent::Node(node)) => {
                let next = match node.next_page_for(&start_key) {
                    Some(child) => ScanState::Stepping { next: child, at_leaf: false },
                    None => ScanState::Stepping { next: page_no, at_leaf: true },
                };
                (RangeScanOp { start_key, end_key, state: next, results }, TreeAction::Release)
            },
            (ScanState::Stepping { next, at_leaf }, TreeEvent::Ack) => {
                let state = if at_leaf {
                    ScanState::LeafRead
                } else {
                    ScanState::Descend { page_no: next }
                };
                (RangeScanOp { start_key, end_key, state, results }, TreeAction::Read(next))
            },
            (ScanState::LeafRead, TreeEvent::Node(node)) => {
                let next = match &node {
                    BTreeNode::Leaf(leaf) => {
                        let mut found = leaf.entries_in_range(&start_key, &end_key);
                        let ghost before = results@;
                        let ghost add = found@;
                        results.append(&mut found);
                        assert(pairs_view(results@) =~= pairs_view(before) + pairs_view(add));
                        leaf.next_page_no
                    },
                    BTreeNode::Internal(_) => None,
                };
                (
                    RangeScanOp { start_key, end_key, state: ScanState::LeafReleased { next }, results },
                    TreeAction::Release,
                )
            },
            (ScanState::LeafReleased { next }, TreeEvent::Ack) => match next {
                Some(x) => (
                    RangeScanOp { start_key, end_key, state: ScanState::LeafRead, results },
                    TreeAction::Read(x),
                ),
                None => (
                    RangeScanOp { start_key, end_key, state: ScanState::Finished, results },
                    TreeAction::Finish,
                ),
            },
            (_, _) => (
                RangeScanOp { start_key, end_key, state: ScanState::Finished, results },
                TreeAction::Corrupt,
            ),
        }
    }
}

// ── insert ──
/// Where an insertion stands.
pub enum InsertState {
    /// Descending: waiting for the node of `page_no`.
    Descend { page_no: u32 },
    /// The internal page was released; `child` is read next.
    DescendReleased { child: u32 },
    /// The leaf was written back with the new entry.
    LeafWritten,
    /// The full leaf `page_no` was released; it is read again to split it.
    LeafSplitReleased { page_no: u32 },
    /// Waiting for the node of the full leaf `page_no`.
    LeafSplitRead { page_no: u32 },
    /// Waiting for the page of the new right leaf.
    LeafSplitAllocating { page_no: u32, leaf: LeafNode },
    /// The right leaf was written; the left one is written next.
    LeafSplitRightWritten { left: LeafNode, old_next: Option<u32>, split_key: Key, new_page_no: u32 },
    /// Both halves were written; the old next leaf must point back to the
    /// new one.
    LeafSplitLeftWritten { old_next: Option<u32>, split_key: Key, new_page_no: u32 },
    /// Waiting for the node of the old next leaf.
    NextLeafRead { split_key: Key, new_page_no: u32 },
    /// The old next leaf was updated (or released).
    NextLeafDone { split_key: Key, new_page_no: u32 },
    /// Waiting for the node of the parent `page_no`, which gains the entry
    /// `(split_key, new_page_no)`.
    ParentRead { page_no: u32, split_key: Key, new_page_no: u32 },
    /// The parent was written with the new entry.
    ParentWritten,
    /// The full parent `page_no` was released; it is read again to split it.
    InternalSplitReleased { page_no: u32, split_key: Key, new_page_no: u32 },
    /// Waiting for the node of the full parent.
    InternalSplitRead { split_key: Key, new_page_no: u32 },
    /// Waiting for the page of the new right internal node.
    InternalSplitAllocating { left: InternalNode, right: InternalNode, up_key: Key },
    /// The right node was written; the left one is written next.
    InternalSplitRightWritten { left: InternalNode, up_key: Key, new_page_no: u32 },
    /// Both halves were written; `(up_key, new_page_no)` moves up.
    InternalSplitLeftWritten { up_key: Key, new_page_no: u32 },
    /// The root split: waiting for the page of the new root.
    RootAllocating { split_key: Key, new_page_no: u32 },
    /// The new root was written at `root_page_no`.
    RootWritten { root_page_no: u32 },
    Finished,
}

/// Stores a key/value pair: descends to the leaf, inserts there, and splits
/// full nodes on the way back up, growing a new root when the root splits.
pub struct InsertOp {
    /// The root; changed when the root splits.
    pub root_page_no: u32,
    /// The key and value, until they are stored in a leaf.
    pub pending: Option<(Key, Vec<u8>)>,
    /// The internal pages passed on the way down, root first, still to be
    /// visited on the way up.
    pub path: Vec<u32>,
    pub state: InsertState,
}

/// The action is a write of the held page with this node.
pub open spec fn writes_held(a: TreeAction, n: NodeView) -> bool {
    a matches TreeAction::WriteHeld(m) && m@ == n
}

/// The action is a write of the fresh page with this node.
pub open spec fn writes_fresh(a: TreeAction, n: NodeView) -> bool {
    a matches TreeAction::WriteFresh(m) && m@ == n
}

/// The pending key, while it is pending.
pub open spec fn pending_key(p: Option<(Key, Vec<u8>)>) -> Seq<u8> {
    p->Some_0.0@
}

/// The pending value, while it is pending.
pub open spec fn pending_value(p: Option<(Key, Vec<u8>)>) -> Seq<u8> {
    p->Some_0.1@
}

/// What one step of an insertion does. Every transition the insertion
/// makes is listed; any other pairing of state and event is answered with
/// `Corrupt`.
pub open spec fn insert_step(op: InsertOp, event: TreeEvent, r: (InsertOp, TreeAction)) -> bool {
    // the root changes only when a new root was written
    &&& r.0.root_page_no == (match (op.state, event) {
        (InsertState::RootWritten { root_page_no }, TreeEvent::Ack) => root_page_no,
        _ => op.root_page_no,
    })
    // descending: a leaf takes the pair or splits, an internal node
    // routes the key to a child
    &&& (op.state is Descend && event is Node && op.pending is None) ==> r.1 == TreeAction::Corrupt
        && r.0.state is Finished && r.0.path@ == op.path@
    &&& op.state matches InsertState::Descend { page_no } ==> event matches TreeEvent::Node(node)
        ==> op.pending matches Some(p) ==> match node@ {
        NodeView::Leaf(l) => {
            &&& !leaf_sorted(l.entries) ==> r.1 == TreeAction::Corrupt && r.0.state is Finished
            &&& leaf_sorted(l.entries) && leaf_lookup(l.entries, p.0@) is None
                && l.entries.len() >= MAX_LEAF_ENTRIES ==> {
                &&& r.1 == TreeAction::Release
                &&& r.0.state == (InsertState::LeafSplitReleased { page_no })
                &&& r.0.pending == op.pending
                &&& r.0.path@ == op.path@
            }
            &&& leaf_sorted(l.entries) && !(leaf_lookup(l.entries, p.0@) is None
                && l.entries.len() >= MAX_LEAF_ENTRIES) ==> {
                &&& writes_held(r.1, NodeView::Leaf(LeafView {
                    entries: leaf_insert_entries(l.entries, p.0@, p.1@),
                    prev_page_no: l.prev_page_no,
                    next_page_no: l.next_page_no,
                }))
                &&& r.0.state is LeafWritten
                &&& r.0.pending is None
            }
        },
        NodeView::Internal(i) => {
            &&& r.1 == TreeAction::Release
            &&& r.0.state == (InsertState::DescendReleased {
                child: route(i.first_child_page_no, i.entries, p.0@),
            })
            &&& r.0.pending == op.pending
            &&& r.0.path@ == op.path@.push(page_no)
        },
    }
    &&& op.state matches InsertState::DescendReleased { child } ==> event is Ack ==> {
        &&& r.1 == TreeAction::Read(child)
        &&& r.0.state == (InsertState::Descend { page_no: child })
        &&& r.0.pending == op.pending
        &&& r.0.path@ == op.path@
    }
    // the leaf split: read the leaf again, allocate the right page
    // write the right half, then the left half
    &&& op.state matches InsertState::LeafSplitReleased { page_no } ==> event is Ack ==> {
        &&& r.1 == TreeAction::Read(page_no)
        &&& r.0.state == (InsertState::LeafSplitRead { page_no })
        &&& r.0.pending == op.pending
        &&& r.0.path@ == op.path@
    }
    &&& op.state matches InsertState::LeafSplitRead { page_no } ==> event matches TreeEvent::Node(node) ==> {
        &&& r.0.pending == op.pending
        &&& r.0.path@ == op.path@
        &&& match node@ {
            NodeView::Leaf(l) => {
                &&& leaf_sorted(l.entries) && op.pending is Some ==> {
                    &&& r.1 == TreeAction::Allocate
                    &&& r.0.state matches InsertState::LeafSplitAllocating { page_no: q, leaf }
                    &&& q == page_no
                    &&& leaf@ == l
                }
                &&& !(leaf_sorted(l.entries) && op.pending is Some) ==> r.1 == TreeAction::Corrupt
                    && r.0.state is Finished
            },
            NodeView::Internal(_) => r.1 == TreeAction::Corrupt && r.0.state is Finished,
        }
    }
    &&& op.state matches InsertState::LeafSplitAllocating { page_no, leaf } ==> event matches TreeEvent::Allocated(m) ==> {
        &&& (leaf_sorted(leaf@.entries) && op.pending is Some) ==> {
            let all = leaf_insert_entries(leaf@.entries, pending_key(op.pending), pending_value(op.pending));
            let mid = all.len() / 2;
            &&& writes_fresh(r.1, NodeView::Leaf(LeafView {
                entries: all.subrange(mid as int, all.len() as int),
                prev_page_no: Some(page_no),
                next_page_no: leaf@.next_page_no,
            }))
            &&& r.0.state matches InsertState::LeafSplitRightWritten { left, old_next, split_key, new_page_no }
            &&& left@ == (LeafView {
                entries: all.subrange(0, mid as int),
                prev_page_no: leaf@.prev_page_no,
                next_page_no: Some(m),
            })
            &&& old_next == leaf@.next_page_no
            &&& split_key@ == all[mid as int].0
            &&& new_page_no == m
            &&& r.0.pending is None
            &&& r.0.path@ == op.path@
        }
        &&& !(leaf_sorted(leaf@.entries) && op.pending is Some) ==> r.1 == TreeAction::Corrupt
            && r.0.state is Finished
    }
    &&& op.state matches InsertState::LeafSplitRightWritten { left, old_next, split_key, new_page_no }
        ==> event is Ack ==> {
        &&& writes_held(r.1, NodeView::Leaf(left@))
        &&& r.0.state matches InsertState::LeafSplitLeftWritten { old_next: o, split_key: k, new_page_no: n }
        &&& o == old_next
        &&& k@ == split_key@
        &&& n == new_page_no
        &&& r.0.pending == op.pending
        &&& r.0.path@ == op.path@
    }
    // the old next leaf points back to the new leaf, then the split
    // moves up
    &&& op.state matches InsertState::LeafSplitLeftWritten { old_next, split_key, new_page_no }
        ==> event is Ack ==> r.0.pending == op.pending && match old_next {
        Some(x) => {
            &&& r.1 == TreeAction::Read(x)
            &&& r.0.state matches InsertState::NextLeafRead { split_key: k, new_page_no: n }
            &&& k@ == split_key@
            &&& n == new_page_no
            &&& r.0.path@ == op.path@
        },
        None => propagated(op.path@, split_key@, new_page_no, r.0, r.1),
    }
    &&& op.state matches InsertState::NextLeafRead { split_key, new_page_no } ==> event matches TreeEvent::Node(node) ==> {
        &&& r.0.state matches InsertState::NextLeafDone { split_key: k, new_page_no: n }
        &&& k@ == split_key@
        &&& n == new_page_no
        &&& r.0.pending == op.pending
        &&& r.0.path@ == op.path@
        &&& match node@ {
            NodeView::Leaf(l) => writes_held(r.1, NodeView::Leaf(LeafView { prev_page_no: Some(new_page_no), ..l })),
            NodeView::Internal(_) => r.1 == TreeAction::Release,
        }
    }
    &&& op.state matches InsertState::NextLeafDone { split_key, new_page_no } ==> event is Ack
        ==> r.0.pending == op.pending && propagated(op.path@, split_key@, new_page_no, r.0, r.1)
    // the parent gains the new entry, or splits
    &&& op.state matches InsertState::ParentRead { page_no, split_key, new_page_no } ==> event matches TreeEvent::Node(node) ==> {
        &&& r.0.pending == op.pending
        &&& r.0.path@ == op.path@
        &&& match node@ {
            NodeView::Internal(i) => {
                &&& !internal_sorted(i.entries) ==> r.1 == TreeAction::Corrupt && r.0.state is Finished
                &&& internal_sorted(i.entries) && i.entries.len() >= MAX_INTERNAL_ENTRIES ==> {
                    &&& r.1 == TreeAction::Release
                    &&& r.0.state matches InsertState::InternalSplitReleased { page_no: q, split_key: k, new_page_no: n }
                    &&& q == page_no
                    &&& k@ == split_key@
                    &&& n == new_page_no
                }
                &&& internal_sorted(i.entries) && i.entries.len() < MAX_INTERNAL_ENTRIES ==> {
                    &&& writes_held(r.1, NodeView::Internal(InternalView {
                        first_child_page_no: i.first_child_page_no,
                        entries: i.entries.insert(internal_position(i.entries, split_key@), (split_key@, new_page_no)),
                    }))
                    &&& r.0.state is ParentWritten
                }
            },
            // a leaf in the parent's place gains nothing: it is written back
            // as it was, and the insertion ends there
            NodeView::Leaf(l) => writes_held(r.1, NodeView::Leaf(l)) && r.0.state is ParentWritten,
        }
    }
    &&& (op.state is LeafWritten || op.state is ParentWritten) && event is Ack ==> r.1 == TreeAction::Finish
        && r.0.state is Finished && r.0.pending == op.pending && r.0.path@ == op.path@
    // the internal split: read the parent again, allocate the right
    // page, write the right half, then the left half
    &&& op.state matches InsertState::InternalSplitReleased { page_no, split_key, new_page_no } ==> event is Ack ==> {
        &&& r.1 == TreeAction::Read(page_no)
        &&& r.0.state matches InsertState::InternalSplitRead { split_key: k, new_page_no: n }
        &&& k@ == split_key@
        &&& n == new_page_no
        &&& r.0.pending == op.pending
        &&& r.0.path@ == op.path@
    }
    &&& op.state matches InsertState::InternalSplitRead { split_key, new_page_no } ==> event matches TreeEvent::Node(node) ==> {
        &&& r.0.pending == op.pending
        &&& r.0.path@ == op.path@
        &&& match node@ {
            NodeView::Internal(i) => {
                let all = i.entries.insert(internal_position(i.entries, split_key@), (split_key@, new_page_no));
                let mid = all.len() / 2;
                &&& internal_sorted(i.entries) ==> {
                    &&& r.1 == TreeAction::Allocate
                    &&& r.0.state matches InsertState::InternalSplitAllocating { left, right, up_key }
                    &&& left@ == (InternalView { first_child_page_no: i.first_child_page_no, entries: all.subrange(0, mid as int) })
                    &&& right@ == (InternalView {
                        first_child_page_no: all[mid as int].1,
                        entries: all.subrange(mid as int + 1, all.len() as int),
                    })
                    &&& up_key@ == all[mid as int].0
                }
                &&& !internal_sorted(i.entries) ==> r.1 == TreeAction::Corrupt && r.0.state is Finished
            },
            NodeView::Leaf(_) => r.1 == TreeAction::Corrupt && r.0.state is Finished,
        }
    }
    &&& op.state matches InsertState::InternalSplitAllocating { left, right, up_key } ==> event matches TreeEvent::Allocated(m) ==> {
        &&& writes_fresh(r.1, NodeView::Internal(right@))
        &&& r.0.state matches InsertState::InternalSplitRightWritten { left: l, up_key: k, new_page_no: n }
        &&& l@ == left@
        &&& k@ == up_key@
        &&& n == m
        &&& r.0.pending == op.pending
        &&& r.0.path@ == op.path@
    }
    &&& op.state matches InsertState::InternalSplitRightWritten { left, up_key, new_page_no } ==> event is Ack ==> {
        &&& writes_held(r.1, NodeView::Internal(left@))
        &&& r.0.state matches InsertState::InternalSplitLeftWritten { up_key: k, new_page_no: n }
        &&& k@ == up_key@
        &&& n == new_page_no
        &&& r.0.pending == op.pending
        &&& r.0.path@ == op.path@
    }
    &&& op.state matches InsertState::InternalSplitLeftWritten { up_key, new_page_no } ==> event is Ack
        ==> r.0.pending == op.pending && propagated(op.path@, up_key@, new_page_no, r.0, r.1)
    // the root split: a new root above the old root and the new page
    &&& op.state matches InsertState::RootAllocating { split_key, new_page_no } ==> event matches TreeEvent::Allocated(m) ==> {
        &&& writes_fresh(r.1, NodeView::Internal(InternalView {
            first_child_page_no: op.root_page_no,
            entries: seq![(split_key@, new_page_no)],
        }))
        &&& r.0.state == (InsertState::RootWritten { root_page_no: m })
        &&& r.0.pending == op.pending
        &&& r.0.path@ == op.path@
    }
    &&& op.state is RootWritten && event is Ack ==> r.1 == TreeAction::Finish && r.0.state is Finished
        && r.0.pending == op.pending && r.0.path@ == op.path@
    // any other pairing
    &&& !insert_expects(op.state, event) ==> r.1 == TreeAction::Corrupt && r.0.state is Finished
        && r.0.pending == op.pending && r.0.path@ == op.path@
}

impl InsertOp {
    /// Starts at the root: the first action reads it.
    pub fn start(root_page_no: u32, key: Key, value: Vec<u8>) -> (r: (InsertOp, TreeAction))
        ensures
            r.0.root_page_no == root_page_no,
            r.0.pending matches Some(p) && p.0@ == key@ && p.1@ == value@,
            r.0.path@.len() == 0,
            r.0.state == (InsertState::Descend { page_no: root_page_no }),
            r.1 == TreeAction::Read(root_page_no),
    {
        (
            InsertOp {
                root_page_no,
                pending: Some((key, value)),
                path: Vec::new(),
                state: InsertState::Descend { page_no: root_page_no },
            },
            TreeAction::Read(root_page_no),
        )
    }

    /// One step of the insertion: takes what happened and answers with the
    /// next action. Every transition the insertion makes is listed in the
    /// contract; any other pairing of state and event is answered with
    /// `Corrupt`.
    #[verifier::rlimit(40)]
    pub fn step(self, event: TreeEvent) -> (r: (InsertOp, TreeAction))
        ensures
            insert_step(self, event, r),

    {
        let InsertOp { root_page_no, pending, path, state } = self;
        match (state, event) {
            (InsertState::Descend { page_no }, TreeEvent::Node(node)) => {
                let (key, value) = match pending {
                    Some(p) => p,
                    None => {
                        return (InsertOp { root_page_no, pending: None, path, state: InsertState::Finished }, TreeAction::Corrupt);
                    },
                };
                match node {
                    BTreeNode::Internal(internal) => {
                        let child = internal.find_child(&key);
                        let mut path = path;
                        path.push(page_no);
                        (
                            InsertOp { root_page_no, pending: Some((key, value)), path, state: InsertState::DescendReleased { child } },
                            TreeAction::Release,
                        )
                    },
                    BTreeNode::Leaf(leaf) => {
                        let mut leaf = leaf;
                        if !leaf.is_sorted() {
                            (InsertOp { root_page_no, pending: Some((key, value)), path, state: InsertState::Finished }, TreeAction::Corrupt)
                        } else if leaf.needs_split_for(&key) {
                            (
                                InsertOp { root_page_no, pending: Some((key, value)), path, state: InsertState::LeafSplitReleased { page_no } },
                                TreeAction::Release,
                            )
                        } else {
                            leaf.insert(key, value);
                            (
                                InsertOp { root_page_no, pending: None, path, state: InsertState::LeafWritten },
                                TreeAction::WriteHeld(BTreeNode::Leaf(leaf)),
                            )
                        }
                    },
                }
            },
            (InsertState::DescendReleased { child }, TreeEvent::Ack) => (
                InsertOp { root_page_no, pending, path, state: InsertState::Descend { page_no: child } },
                TreeAction::Read(child),
            ),
            (InsertState::LeafSplitReleased { page_no }, TreeEvent::Ack) => (
                InsertOp { root_page_no, pending, path, state: InsertState::LeafSplitRead { page_no } },
                TreeAction::Read(page_no),
            ),
            (InsertState::LeafSplitRead { page_no }, TreeEvent::Node(node)) => match node {
                BTreeNode::Leaf(leaf) => {
                    if leaf.is_sorted() && pending.is_some() {
                        (
                            InsertOp { root_page_no, pending, path, state: InsertState::LeafSplitAllocating { page_no, leaf } },
                            TreeAction::Allocate,
                        )
                    } else {
                        (InsertOp { root_page_no, pending, path, state: InsertState::Finished }, TreeAction::Corrupt)
                    }
                },
                BTreeNode::Internal(_) => (InsertOp { root_page_no, pending, path, state: InsertState::Finished }, TreeAction::Corrupt),
            },
            (InsertState::LeafSplitAllocating { page_no, leaf }, TreeEvent::Allocated(m)) => {
                if !leaf.is_sorted() {
                    return (InsertOp { root_page_no, pending, path, state: InsertState::Finished }, TreeAction::Corrupt);
                }
                match pending {
                    Some((key, value)) => {
                        let old_next = leaf.next_page_no;
                        let (left, right, split_key) = leaf.split_insert(key, value, page_no, m);
                        (
                            InsertOp {
                                root_page_no,
                                pending: None,
                                path,
                                state: InsertState::LeafSplitRightWritten { left, old_next, split_key, new_page_no: m },
                            },
                            TreeAction::WriteFresh(BTreeNode::Leaf(right)),
                        )
                    },
                    None => (InsertOp { root_page_no, pending: None, path, state: InsertState::Finished }, TreeAction::Corrupt),
                }
            },
            (InsertState::LeafSplitRightWritten { left, old_next, split_key, new_page_no }, TreeEvent::Ack) => (
                InsertOp { root_page_no, pending, path, state: InsertState::LeafSplitLeftWritten { old_next, split_key, new_page_no } },
                TreeAction::WriteHeld(BTreeNode::Leaf(left)),
            ),
            (InsertState::LeafSplitLeftWritten { old_next, split_key, new_page_no }, TreeEvent::Ack) => match old_next {
                Some(x) => (
                    InsertOp { root_page_no, pending, path, state: InsertState::NextLeafRead { split_key, new_page_no } },
                    TreeAction::Read(x),
                ),
                None => InsertOp::propagate(root_page_no, pending, path, split_key, new_page_no),
            },
            (InsertState::NextLeafRead { split_key, new_page_no }, TreeEvent::Node(node)) => {
                let action = match node {
                    BTreeNode::Leaf(leaf) => {
                        let mut leaf = leaf;
                        leaf.prev_page_no = Some(new_page_no);
                        TreeAction::WriteHeld(BTreeNode::Leaf(leaf))
                    },
                    BTreeNode::Internal(_) => TreeAction::Release,
                };
                (InsertOp { root_page_no, pending, path, state: InsertState::NextLeafDone { split_key, new_page_no } }, action)
            },
            (InsertState::NextLeafDone { split_key, new_page_no }, TreeEvent::Ack) => {
                InsertOp::propagate(root_page_no, pending, path, split_key, new_page_no)
            },
            (InsertState::ParentRead { page_no, split_key, new_page_no }, TreeEvent::Node(node)) => match node {
                BTreeNode::Internal(internal) => {
                    let mut internal = internal;
                    if !internal.is_sorted() {
                        (InsertOp { root_page_no, pending, path, state: InsertState::Finished }, TreeAction::Corrupt)
                    } else if internal.is_full() {
                        (
                            InsertOp { root_page_no, pending, path, state: InsertState::InternalSplitReleased { page_no, split_key, new_page_no } },
                            TreeAction::Release,
                        )
                    } else {
                        internal.insert_entry(split_key, new_page_no);
                        (
                            InsertOp { root_page_no, pending, path, state: InsertState::ParentWritten },
                            TreeAction::WriteHeld(BTreeNode::Internal(internal)),
                        )
                    }
                },
                BTreeNode::Leaf(leaf) => (
                    InsertOp { root_page_no, pending, path, state: InsertState::ParentWritten },
                    TreeAction::WriteHeld(BTreeNode::Leaf(leaf)),
                ),
            },
            (InsertState::LeafWritten, TreeEvent::Ack) => (
                InsertOp { root_page_no, pending, path, state: InsertState::Finished },
                TreeAction::Finish,
            ),
            (InsertState::ParentWritten, TreeEvent::Ack) => (
                InsertOp { root_page_no, pending, path, state: InsertState::Finished },
                TreeAction::Finish,
            ),
            (InsertState::InternalSplitReleased { page_no, split_key, new_page_no }, TreeEvent::Ack) => (
                InsertOp { root_page_no, pending, path, state: InsertState::InternalSplitRead { split_key, new_page_no } },
                TreeAction::Read(page_no),
            ),
            (InsertState::InternalSplitRead { split_key, new_page_no }, TreeEvent::Node(node)) => match node {
                BTreeNode::Internal(internal) => {
                    if internal.is_sorted() {
                        let (left, right, up_key) = internal.split_insert(split_key, new_page_no);
                        (
                            InsertOp { root_page_no, pending, path, state: InsertState::InternalSplitAllocating { left, right, up_key } },
                            TreeAction::Allocate,
                        )
                    } else {
                        (InsertOp { root_page_no, pending, path, state: InsertState::Finished }, TreeAction::Corrupt)
                    }
                },
                BTreeNode::Leaf(_) => (InsertOp { root_page_no, pending, path, state: InsertState::Finished }, TreeAction::Corrupt),
            },
            (InsertState::InternalSplitAllocating { left, right, up_key }, TreeEvent::Allocated(m)) => (
                InsertOp { root_page_no, pending, path, state: InsertState::InternalSplitRightWritten { left, up_key, new_page_no: m } },
                TreeAction::WriteFresh(BTreeNode::Internal(right)),
            ),
            (InsertState::InternalSplitRightWritten { left, up_key, new_page_no }, TreeEvent::Ack) => (
                InsertOp { root_page_no, pending, path, state: InsertState::InternalSplitLeftWritten { up_key, new_page_no } },
                TreeAction::WriteHeld(BTreeNode::Internal(left)),
            ),
            (InsertState::InternalSplitLeftWritten { up_key, new_page_no }, TreeEvent::Ack) => {
                InsertOp::propagate(root_page_no, pending, path, up_key, new_page_no)
            },
            (InsertState::RootAllocating { split_key, new_page_no }, TreeEvent::Allocated(m)) => {
                let root = InternalNode::new_root(root_page_no, split_key, new_page_no);
                (
                    InsertOp { root_page_no, pending, path, state: InsertState::RootWritten { root_page_no: m } },
                    TreeAction::WriteFresh(BTreeNode::Internal(root)),
                )
            },
            (InsertState::RootWritten { root_page_no: new_root }, TreeEvent::Ack) => (
                InsertOp { root_page_no: new_root, pending, path, state: InsertState::Finished },
                TreeAction::Finish,
            ),
            (_, _) => (InsertOp { root_page_no, pending, path, state: InsertState::Finished }, TreeAction::Corrupt),
        }
    }

    /// After a split produced `(split_key, new_page_no)`: the parent on the
    /// path gains it, or, at the top, a new root is allocated.
    fn propagate(root_page_no: u32, pending: Option<(Key, Vec<u8>)>, path: Vec<u32>, split_key: Key, new_page_no: u32) -> (r: (InsertOp, TreeAction))
        ensures
            r.0.root_page_no == root_page_no,
            r.0.pending == pending,
            propagated(path@, split_key@, new_page_no, r.0, r.1),
    {
        let mut path = path;
        match path.pop() {
            Some(parent) => (
                InsertOp { root_page_no, pending, path, state: InsertState::ParentRead { page_no: parent, split_key, new_page_no } },
                TreeAction::Read(parent),
            ),
            None => (
                InsertOp { root_page_no, pending, path, state: InsertState::RootAllocating { split_key, new_page_no } },
                TreeAction::Allocate,
            ),
        }
    }
}

/// The pairings of state and event that an insertion answers with a
/// transition of its own.
pub open spec fn insert_expects(state: InsertState, event: TreeEvent) -> bool {
    match (state, event) {
        (InsertState::Descend { .. }, TreeEvent::Node(_)) => true,
        (InsertState::DescendReleased { .. }, TreeEvent::Ack) => true,
        (InsertState::LeafWritten, TreeEvent::Ack) => true,
        (InsertState::LeafSplitReleased { .. }, TreeEvent::Ack) => true,
        (InsertState::LeafSplitRead { .. }, TreeEvent::Node(_)) => true,
        (InsertState::LeafSplitAllocating { .. }, TreeEvent::Allocated(_)) => true,
        (InsertState::LeafSplitRightWritten { .. }, TreeEvent::Ack) => true,
        (InsertState::LeafSplitLeftWritten { .. }, TreeEvent::Ack) => true,
        (InsertState::NextLeafRead { .. }, TreeEvent::Node(_)) => true,
        (InsertState::NextLeafDone { .. }, TreeEvent::Ack) => true,
        (InsertState::ParentRead { .. }, TreeEvent::Node(_)) => true,
        (InsertState::ParentWritten, TreeEvent::Ack) => true,
        (InsertState::InternalSplitReleased { .. }, TreeEvent::Ack) => true,
        (InsertState::InternalSplitRead { .. }, TreeEvent::Node(_)) => true,
        (InsertState::InternalSplitAllocating { .. }, TreeEvent::Allocated(_)) => true,
        (InsertState::InternalSplitRightWritten { .. }, TreeEvent::Ack) => true,
        (InsertState::InternalSplitLeftWritten { .. }, TreeEvent::Ack) => true,
        (InsertState::RootAllocating { .. }, TreeEvent::Allocated(_)) => true,
        (InsertState::RootWritten { .. }, TreeEvent::Ack) => true,
        _ => false,
    }
}

/// After a split produced `(split_key, new_page_no)` below the pages of
/// `path`: the last page of the path is read as the parent that gains the
/// entry, or, with the path used up, a page is allocated for a new root.
pub open spec fn propagated(path: Seq<u32>, split_key: Seq<u8>, new_page_no: u32, op: InsertOp, a: TreeAction) -> bool {
    if path.len() == 0 {
        &&& a == TreeAction::Allocate
        &&& op.path@ == path
        &&& op.state matches InsertState::RootAllocating { split_key: k, new_page_no: m }
        &&& k@ == split_key
        &&& m == new_page_no
    } else {
        &&& a == TreeAction::Read(path.last())
        &&& op.path@ == path.drop_last()
        &&& op.state matches InsertState::ParentRead { page_no: q, split_key: k, new_page_no: m }
        &&& q == path.last()
        &&& k@ == split_key
        &&& m == new_page_no
    }
}

} // verus!
