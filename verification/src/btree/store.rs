//! The index pages as a map from page number to node, the value a tree of
//! such pages holds under a key, and what the operations of `ops` compute
//! over it when the caller performs their actions faithfully.

use vstd::prelude::*;
use super::key::bytes_le;
use super::node::{
    leaf_insert_entries, leaf_lookup, leaf_sorted, lemma_leaf_insert_lookup, lemma_lookup_at, LeafView, NodeView,
};
use super::ops::{
    insert_step, pairs_view, propagated, scan_step, search_step, writes_fresh, writes_held, InsertOp,
    InsertState, RangeScanOp, ScanState, SearchOp, SearchState, TreeAction, TreeEvent,
};
use super::shape::{
    leaf_fix, lemma_prev_fix_none, node_len, prev_ok, store_bounded, tree_ok,
    chain_at, lemma_insert_leaf_wf, lemma_internal_split_pending, lemma_leaf_convex, lemma_leaf_split_pending,
    lemma_relink_pending, lemma_wf_value, next_leaf_at, node_fits, node_key, pending_ok, split_due, tree_wf,
};
use super::tree::MAX_INTERNAL_ENTRIES;

verus! {

/// The page after `page_no` on the way down for `key`: the child that an
/// internal node routes the key to; any other page is where the way ends.
pub open spec fn next_on_path(store: Map<u32, NodeView>, page_no: u32, key: Seq<u8>) -> u32 {
    if store.contains_key(page_no) && store[page_no] is Internal {
        let i = store[page_no]->Internal_0;
        super::node::route(i.first_child_page_no, i.entries, key)
    } else {
        page_no
    }
}

/// The page reached from `page_no` after `n` steps down for `key`.
pub open spec fn descend(store: Map<u32, NodeView>, page_no: u32, key: Seq<u8>, n: nat) -> u32
    decreases n,
{
    if n == 0 {
        page_no
    } else {
        descend(store, next_on_path(store, page_no, key), key, (n - 1) as nat)
    }
}

/// The page holds a leaf.
pub open spec fn is_leaf_page(store: Map<u32, NodeView>, page_no: u32) -> bool {
    store.contains_key(page_no) && store[page_no] is Leaf
}

/// The way down for `key` from `root` ends at a leaf.
pub open spec fn reaches_leaf(store: Map<u32, NodeView>, root: u32, key: Seq<u8>) -> bool {
    exists|n: nat| is_leaf_page(store, #[trigger] descend(store, root, key, n))
}

/// The leaf page that the way down for `key` ends at.
pub open spec fn leaf_page_of(store: Map<u32, NodeView>, root: u32, key: Seq<u8>) -> u32 {
    descend(store, root, key, choose|n: nat| is_leaf_page(store, #[trigger] descend(store, root, key, n)))
}

/// The value the tree at `root` holds under `key`: what the leaf at the end
/// of the key's way down holds; none when the way down ends at no leaf.
pub open spec fn tree_value(store: Map<u32, NodeView>, root: u32, key: Seq<u8>) -> Option<Seq<u8>> {
    if reaches_leaf(store, root, key) {
        leaf_lookup(store[leaf_page_of(store, root, key)]->Leaf_0.entries, key)
    } else {
        None
    }
}

/// A value by its bytes.
pub open spec fn bytes_of(v: Option<Vec<u8>>) -> Option<Seq<u8>> {
    match v {
        Some(b) => Some(b@),
        None => None,
    }
}

/// `event` is what a caller performing `action` over `store` hands back: the
/// node a read page holds, the number of a page that holds no node yet, or
/// the acknowledgement of a release or write.
pub open spec fn answers(store: Map<u32, NodeView>, action: TreeAction, event: TreeEvent) -> bool {
    match action {
        TreeAction::Read(p) => store.contains_key(p) && (event matches TreeEvent::Node(n) && n@ == store[p]),
        TreeAction::Allocate => event matches TreeEvent::Allocated(m) && !store.contains_key(m),
        TreeAction::Release => event is Ack,
        TreeAction::WriteHeld(_) => event is Ack,
        TreeAction::WriteFresh(_) => event is Ack,
        TreeAction::Finish => false,
        TreeAction::Corrupt => false,
    }
}

/// One more step down is the step after the first `n`.
pub proof fn lemma_descend_last(store: Map<u32, NodeView>, page_no: u32, key: Seq<u8>, n: nat)
    ensures
        descend(store, page_no, key, n + 1) == next_on_path(store, descend(store, page_no, key, n), key),
    decreases n,
{
    let q = next_on_path(store, page_no, key);
    if n > 0 {
        lemma_descend_last(store, q, key, (n - 1) as nat);
        assert(descend(store, page_no, key, n + 1) == descend(store, q, key, n));
        assert(descend(store, page_no, key, n) == descend(store, q, key, (n - 1) as nat));
    } else {
        assert(descend(store, page_no, key, 1) == descend(store, q, key, 0));
    }
}

/// Once the way down is at a leaf, it stays there.
pub proof fn lemma_descend_stays(store: Map<u32, NodeView>, page_no: u32, key: Seq<u8>, a: nat, b: nat)
    requires
        is_leaf_page(store, descend(store, page_no, key, a)),
        a <= b,
    ensures
        descend(store, page_no, key, b) == descend(store, page_no, key, a),
    decreases b - a,
{
    if a < b {
        lemma_descend_stays(store, page_no, key, a, (b - 1) as nat);
        lemma_descend_last(store, page_no, key, (b - 1) as nat);
    }
}

/// A leaf page on the way down for `key` is the leaf the way ends at.
pub proof fn lemma_leaf_on_path(store: Map<u32, NodeView>, root: u32, key: Seq<u8>, d: nat)
    requires
        is_leaf_page(store, descend(store, root, key, d)),
    ensures
        reaches_leaf(store, root, key),
        leaf_page_of(store, root, key) == descend(store, root, key, d),
{
    assert(reaches_leaf(store, root, key));
    let c = choose|n: nat| is_leaf_page(store, #[trigger] descend(store, root, key, n));
    if c <= d {
        lemma_descend_stays(store, root, key, c, d);
    } else {
        lemma_descend_stays(store, root, key, d, c);
    }
}

/// The page is on the way down for `key` from `root`.
pub open spec fn on_path(store: Map<u32, NodeView>, root: u32, key: Seq<u8>, page_no: u32) -> bool {
    exists|d: nat| #[trigger] descend(store, root, key, d) == page_no
}

/// Where a search over `store` from `root` stands, with the action it asked
/// for last: every page it reads is on the key's way down, the leaf it
/// reads last is the one the way ends at, and the result it holds once the
/// leaf is looked up is the value the tree holds under the key.
pub open spec fn search_at(store: Map<u32, NodeView>, root: u32, op: SearchOp, action: TreeAction) -> bool {
    let k = op.key@;
    match op.state {
        SearchState::Descend { page_no } => action == TreeAction::Read(page_no) && on_path(store, root, k, page_no),
        SearchState::Stepping { next, at_leaf } => {
            &&& action == TreeAction::Release
            &&& on_path(store, root, k, next)
            &&& at_leaf ==> is_leaf_page(store, next)
        },
        SearchState::LeafRead => action matches TreeAction::Read(p) && is_leaf_page(store, p) && on_path(
            store,
            root,
            k,
            p,
        ),
        SearchState::Releasing => action == TreeAction::Release && bytes_of(op.result) == tree_value(store, root, k),
        SearchState::Finished => action is Corrupt || (action is Finish && bytes_of(op.result) == tree_value(
            store,
            root,
            k,
        )),
    }
}

/// A search begins where `SearchOp::start` leaves it.
pub proof fn lemma_search_start(store: Map<u32, NodeView>, root: u32, op: SearchOp, action: TreeAction)
    requires
        op.state == (SearchState::Descend { page_no: root }),
        action == TreeAction::Read(root),
    ensures
        search_at(store, root, op, action),
{
    assert(descend(store, root, op.key@, 0) == root);
}

/// A search over pages that do not change finds what the tree holds: each
/// step, answered as `answers` says, keeps `search_at`, so a search that
/// finishes holds `tree_value` of its key.
pub proof fn lemma_search_step(
    store: Map<u32, NodeView>,
    root: u32,
    op: SearchOp,
    action: TreeAction,
    event: TreeEvent,
    r: (SearchOp, TreeAction),
)
    requires
        search_at(store, root, op, action),
        answers(store, action, event),
        search_step(op, event, r),
    ensures
        search_at(store, root, r.0, r.1),
{
    let k = op.key@;
    match op.state {
        SearchState::Descend { page_no } => {
            let d = choose|d: nat| #[trigger] descend(store, root, k, d) == page_no;
            lemma_descend_last(store, root, k, d);
            assert(on_path(store, root, k, next_on_path(store, page_no, k)));
        },
        SearchState::LeafRead => {
            let p = action->Read_0;
            let d = choose|d: nat| #[trigger] descend(store, root, k, d) == p;
            lemma_leaf_on_path(store, root, k, d);
        },
        _ => {},
    }
}

/// Over a well-formed tree a search never reports corruption.
pub proof fn lemma_search_not_corrupt(
    store: Map<u32, NodeView>,
    root: u32,
    h: nat,
    op: SearchOp,
    action: TreeAction,
    event: TreeEvent,
    r: (SearchOp, TreeAction),
)
    requires
        tree_wf(store, root, h),
        search_at(store, root, op, action),
        answers(store, action, event),
        search_step(op, event, r),
    ensures
        r.1 != TreeAction::Corrupt,
{
    if op.state is LeafRead {
        let k = op.key@;
        let p = action->Read_0;
        let d = choose|d: nat| #[trigger] descend(store, root, k, d) == p;
        assert(node_fits(store, descend(store, root, k, h), false));
        if d <= h {
            assert(node_fits(store, descend(store, root, k, d), d < h));
        } else {
            lemma_descend_stays(store, root, k, h, d);
        }
    }
}

/// The page a performed action leaves pinned as the held page: the page
/// read last, until it is released or written.
pub open spec fn held_after(held: Option<u32>, action: TreeAction) -> Option<u32> {
    match action {
        TreeAction::Read(p) => Some(p),
        TreeAction::Release => None,
        TreeAction::WriteHeld(_) => None,
        _ => held,
    }
}

/// The pages after a performed action: a write stores its node in the held
/// or the fresh page.
pub open spec fn store_after(
    store: Map<u32, NodeView>,
    held: Option<u32>,
    fresh: Option<u32>,
    action: TreeAction,
) -> Map<u32, NodeView> {
    match action {
        TreeAction::WriteHeld(n) => store.insert(held->Some_0, n@),
        TreeAction::WriteFresh(n) => store.insert(fresh->Some_0, n@),
        _ => store,
    }
}

/// A leaf after storing `v` under `k` in it.
pub open spec fn inserted_leaf(l: LeafView, k: Seq<u8>, v: Seq<u8>) -> NodeView {
    NodeView::Leaf(
        LeafView {
            entries: leaf_insert_entries(l.entries, k, v),
            prev_page_no: l.prev_page_no,
            next_page_no: l.next_page_no,
        },
    )
}

/// The tree at `root2` over `after` holds `v` under `k` and, under every
/// other key, what the tree at `root` over `before` holds.
pub open spec fn holds_inserted(
    before: Map<u32, NodeView>,
    root: u32,
    after: Map<u32, NodeView>,
    root2: u32,
    k: Seq<u8>,
    v: Seq<u8>,
) -> bool {
    forall|x: Seq<u8>| #[trigger] tree_value(after, root2, x) == if x == k {
        Some(v)
    } else {
        tree_value(before, root, x)
    }
}

/// Two page maps in which every page leads the way down for `x` to the same
/// next page give the same ways down.
pub proof fn lemma_same_ways(s1: Map<u32, NodeView>, s2: Map<u32, NodeView>, page_no: u32, x: Seq<u8>, n: nat)
    requires
        forall|q: u32| #[trigger] next_on_path(s1, q, x) == next_on_path(s2, q, x),
    ensures
        descend(s1, page_no, x, n) == descend(s2, page_no, x, n),
    decreases n,
{
    if n > 0 {
        assert(next_on_path(s1, page_no, x) == next_on_path(s2, page_no, x));
        lemma_same_ways(s1, s2, next_on_path(s1, page_no, x), x, (n - 1) as nat);
    }
}

/// Storing `v` under `k` in the sorted leaf at the end of the key's way down
/// makes the tree hold `v` under `k` and leaves every other key's value as
/// it was.
pub proof fn lemma_insert_in_leaf(store: Map<u32, NodeView>, root: u32, k: Seq<u8>, v: Seq<u8>, p: u32)
    requires
        on_path(store, root, k, p),
        is_leaf_page(store, p),
        leaf_sorted(store[p]->Leaf_0.entries),
    ensures
        holds_inserted(store, root, store.insert(p, inserted_leaf(store[p]->Leaf_0, k, v)), root, k, v),
{
    let l = store[p]->Leaf_0;
    let s2 = store.insert(p, inserted_leaf(l, k, v));
    let dk = choose|d: nat| #[trigger] descend(store, root, k, d) == p;
    lemma_leaf_on_path(store, root, k, dk);
    assert forall|x: Seq<u8>| #[trigger] tree_value(s2, root, x) == if x == k {
        Some(v)
    } else {
        tree_value(store, root, x)
    } by {
        assert forall|q: u32| #[trigger] next_on_path(store, q, x) == next_on_path(s2, q, x) by {
            if q == p {
            } else {
                assert(s2.contains_key(q) == store.contains_key(q));
            }
        }
        assert forall|n: nat| #[trigger] descend(s2, root, x, n) == descend(store, root, x, n) by {
            lemma_same_ways(store, s2, root, x, n);
        }
        assert forall|q: u32| #[trigger] is_leaf_page(s2, q) == is_leaf_page(store, q) by {}
        if reaches_leaf(store, root, x) {
            let c = choose|n: nat| is_leaf_page(store, #[trigger] descend(store, root, x, n));
            lemma_leaf_on_path(store, root, x, c);
            assert(is_leaf_page(s2, descend(s2, root, x, c)));
            lemma_leaf_on_path(s2, root, x, c);
            let lp = leaf_page_of(store, root, x);
            assert(leaf_page_of(s2, root, x) == lp);
            lemma_leaf_insert_lookup(l.entries, k, v, x);
            if x == k {
                assert(lp == p);
            }
        } else {
            assert(x != k);
            assert(!reaches_leaf(s2, root, x)) by {
                if reaches_leaf(s2, root, x) {
                    let c = choose|n: nat| is_leaf_page(s2, #[trigger] descend(s2, root, x, n));
                    assert(is_leaf_page(store, descend(store, root, x, c)));
                }
            }
        }
    }
}

/// The page a performed action leaves pinned as the fresh page: the page
/// allocated last, until it is written.
pub open spec fn fresh_after(fresh: Option<u32>, action: TreeAction, event: TreeEvent) -> Option<u32> {
    match action {
        TreeAction::Allocate => Some(event->Allocated_0),
        TreeAction::WriteFresh(_) => None,
        _ => fresh,
    }
}

/// The pages of `path` are the first pages of `k`'s way down.
pub open spec fn path_ok(s0: Map<u32, NodeView>, root: u32, k: Seq<u8>, path: Seq<u32>) -> bool {
    forall|i: int| 0 <= i < path.len() ==> #[trigger] path[i] == descend(s0, root, k, i as nat)
}

/// The left half of the leaf `l` after storing `(k, v)` and splitting,
/// followed by the new leaf at `m`.
pub open spec fn split_left(l: LeafView, k: Seq<u8>, v: Seq<u8>, m: u32) -> LeafView {
    let all = leaf_insert_entries(l.entries, k, v);
    LeafView { entries: all.subrange(0, (all.len() / 2) as int), prev_page_no: l.prev_page_no, next_page_no: Some(m) }
}

/// The right half of the leaf `l` at page `p` after storing `(k, v)` and
/// splitting, between `p` and the leaf that followed `p`.
pub open spec fn split_right(l: LeafView, k: Seq<u8>, v: Seq<u8>, p: u32) -> LeafView {
    let all = leaf_insert_entries(l.entries, k, v);
    LeafView {
        entries: all.subrange((all.len() / 2) as int, all.len() as int),
        prev_page_no: Some(p),
        next_page_no: l.next_page_no,
    }
}

/// The first key of the right half.
pub open spec fn split_key_of(l: LeafView, k: Seq<u8>, v: Seq<u8>) -> Seq<u8> {
    let all = leaf_insert_entries(l.entries, k, v);
    all[(all.len() / 2) as int].0
}

/// Writing the held page with the node of `action` leaves a well-formed
/// tree at `root2` of height `h2` holding the pair and every other value.
pub open spec fn held_write_done(
    s0: Map<u32, NodeView>,
    root: u32,
    k: Seq<u8>,
    v: Seq<u8>,
    s: Map<u32, NodeView>,
    held: Option<u32>,
    action: TreeAction,
    root2: u32,
    h2: nat,
) -> bool {
    &&& held is Some
    &&& action matches TreeAction::WriteHeld(n)
    &&& tree_wf(s.insert(held->Some_0, n@), root2, h2)
    &&& prev_ok(s.insert(held->Some_0, n@), root2, h2)
    &&& holds_inserted(s0, root, s.insert(held->Some_0, n@), root2, k, v)
}

/// The action writes page `x`, a leaf, with a leaf of the same entries and
/// the same next leaf that links back to `pv`.
pub open spec fn relinks(s: Map<u32, NodeView>, x: u32, pv: u32, action: TreeAction) -> bool {
    &&& s[x] is Leaf
    &&& action matches TreeAction::WriteHeld(n)
    &&& n@ is Leaf
    &&& n@->Leaf_0.entries == s[x]->Leaf_0.entries
    &&& n@->Leaf_0.next_page_no == s[x]->Leaf_0.next_page_no
    &&& n@->Leaf_0.prev_page_no == Some(pv)
}

/// A write the action asks for stores a node of at most four entries.
pub open spec fn write_bounded(action: TreeAction) -> bool {
    match action {
        TreeAction::WriteHeld(n) => node_len(n@) <= 4,
        TreeAction::WriteFresh(n) => node_len(n@) <= 4,
        _ => true,
    }
}

/// Where an insertion of `v` under `k` into the tree at `root`
/// of height `h` over `s0` stands, with the pages `s` as they are now, the
/// held and fresh pages and the action it asked for last. On the way down
/// it reads the pages of `k`'s way; at the leaf it stores the pair or
/// splits the leaf; a split moves up the path, splitting full parents,
/// until a parent takes the new entry or a new root is grown; it never
/// reports corruption; every node it writes holds at most four entries;
/// and when it finishes, the pages form a tree as `tree_ok` asks (leaves
/// linked both ways in key order, every node within the entry bound) at
/// the (possibly new) root that holds `v` under `k` and every other key's
/// value as before.
pub open spec fn insert_inv(
    s0: Map<u32, NodeView>,
    root: u32,
    h: nat,
    k: Seq<u8>,
    v: Seq<u8>,
    s: Map<u32, NodeView>,
    held: Option<u32>,
    fresh: Option<u32>,
    op: InsertOp,
    action: TreeAction,
) -> bool {
    let path = op.path@;
    let j = path.len();
    let kv = op.pending matches Some(pair) && pair.0@ == k && pair.1@ == v;
    let lp = descend(s0, root, k, h);
    let l = s0[lp]->Leaf_0;
    let here = descend(s0, root, k, j);
    let descending = s == s0 && fresh is None && op.root_page_no == root && kv && path_ok(s0, root, k, path);
    let splitting = op.root_page_no == root && op.pending is None && path_ok(s0, root, k, path);
    &&& tree_ok(s0, root, h)
    &&& store_bounded(s)
    &&& write_bounded(action)
    &&& match op.state {
        InsertState::Descend { page_no } => descending && held is None && j <= h && page_no == here && action
            == TreeAction::Read(page_no),
        InsertState::DescendReleased { child } => descending && held is Some && 1 <= j <= h && child == here
            && action == TreeAction::Release,
        InsertState::LeafWritten => s == s0 && fresh is None && op.root_page_no == root && held_write_done(
            s0,
            root,
            k,
            v,
            s,
            held,
            action,
            root,
            h,
        ),
        InsertState::LeafSplitReleased { page_no } => descending && held is Some && j == h && page_no == lp
            && split_due(l, k) && action == TreeAction::Release,
        InsertState::LeafSplitRead { page_no } => descending && held is None && j == h && page_no == lp
            && split_due(l, k) && action == TreeAction::Read(page_no),
        InsertState::LeafSplitAllocating { page_no, leaf } => descending && held == Some(lp) && j == h && page_no
            == lp && split_due(l, k) && leaf@ == l && action == TreeAction::Allocate,
        InsertState::LeafSplitRightWritten { left, old_next, split_key, new_page_no } => {
            &&& s == s0 && splitting && held == Some(lp) && fresh == Some(new_page_no) && j == h
            &&& !s0.contains_key(new_page_no) && split_due(l, k)
            &&& left@ == split_left(l, k, v, new_page_no) && old_next == l.next_page_no
            &&& split_key@ == split_key_of(l, k, v)
            &&& writes_fresh(action, NodeView::Leaf(split_right(l, k, v, lp)))
        },
        InsertState::LeafSplitLeftWritten { old_next, split_key, new_page_no } => {
            &&& s == s0.insert(new_page_no, NodeView::Leaf(split_right(l, k, v, lp)))
            &&& splitting && held == Some(lp) && fresh is None && j == h
            &&& !s0.contains_key(new_page_no) && split_due(l, k)
            &&& old_next == l.next_page_no && split_key@ == split_key_of(l, k, v)
            &&& writes_held(action, NodeView::Leaf(split_left(l, k, v, new_page_no)))
        },
        InsertState::NextLeafRead { split_key, new_page_no } => splitting && held is None && fresh is None && j == h
            && action is Read && pending_ok(s0, root, h, k, v, s, h, split_key@, new_page_no, Some((action->Read_0, new_page_no))),
        InsertState::NextLeafDone { split_key, new_page_no } => {
            &&& splitting && fresh is None && j == h
            &&& held matches Some(x) && s.contains_key(x)
            &&& pending_ok(s0, root, h, k, v, s, h, split_key@, new_page_no, Some((held->Some_0, new_page_no)))
            &&& relinks(s, held->Some_0, new_page_no, action)
        },
        InsertState::ParentRead { page_no, split_key, new_page_no } => splitting && held is None && fresh is None && j
            + 1 <= h && page_no == here && pending_ok(s0, root, h, k, v, s, j + 1, split_key@, new_page_no, None)
            && action == TreeAction::Read(page_no),
        InsertState::ParentWritten => fresh is None && op.root_page_no == root && held_write_done(
            s0,
            root,
            k,
            v,
            s,
            held,
            action,
            root,
            h,
        ),
        InsertState::InternalSplitReleased { page_no, split_key, new_page_no } => splitting && held is Some && fresh
            is None && j + 1 <= h && page_no == here && s0[here]->Internal_0.entries.len() >= MAX_INTERNAL_ENTRIES
            && pending_ok(s0, root, h, k, v, s, j + 1, split_key@, new_page_no, None) && action == TreeAction::Release,
        InsertState::InternalSplitRead { split_key, new_page_no } => splitting && held is None && fresh is None && j
            + 1 <= h && s0[here]->Internal_0.entries.len() >= MAX_INTERNAL_ENTRIES && pending_ok(
            s0,
            root,
            h,
            k,
            v,
            s,
            j + 1,
            split_key@,
            new_page_no,
            None,
        ) && action == TreeAction::Read(here),
        InsertState::InternalSplitAllocating { left, right, up_key } => {
            &&& splitting && held == Some(here) && fresh is None && j + 1 <= h && s.contains_key(here)
            &&& action == TreeAction::Allocate
            &&& left@.entries.len() <= 4 && right@.entries.len() <= 4
            &&& forall|m2: u32| !s.contains_key(m2) ==> pending_ok(
                s0,
                root,
                h,
                k,
                v,
                #[trigger] s.insert(m2, NodeView::Internal(right@)).insert(here, NodeView::Internal(left@)),
                j,
                up_key@,
                m2,
                None,
            )
        },
        InsertState::InternalSplitRightWritten { left, up_key, new_page_no } => {
            &&& splitting && held == Some(here) && fresh == Some(new_page_no) && j + 1 <= h
            &&& left@.entries.len() <= 4
            &&& action matches TreeAction::WriteFresh(rn)
            &&& pending_ok(s0, root, h, k, v, s.insert(new_page_no, rn@).insert(here, NodeView::Internal(left@)), j, up_key@, new_page_no, None)
        },
        InsertState::InternalSplitLeftWritten { up_key, new_page_no } => {
            &&& splitting && held == Some(here) && fresh is None && j + 1 <= h
            &&& action matches TreeAction::WriteHeld(ln)
            &&& pending_ok(s0, root, h, k, v, s.insert(here, ln@), j, up_key@, new_page_no, None)
        },
        InsertState::RootAllocating { split_key, new_page_no } => splitting && held is None && fresh is None && j == 0
            && pending_ok(s0, root, h, k, v, s, 0, split_key@, new_page_no, None) && action == TreeAction::Allocate,
        InsertState::RootWritten { root_page_no } => {
            &&& op.root_page_no == root && held is None && fresh == Some(root_page_no)
            &&& action matches TreeAction::WriteFresh(n)
            &&& tree_wf(s.insert(root_page_no, n@), root_page_no, h + 1)
            &&& prev_ok(s.insert(root_page_no, n@), root_page_no, h + 1)
            &&& holds_inserted(s0, root, s.insert(root_page_no, n@), root_page_no, k, v)
        },
        InsertState::Finished => action is Finish && (tree_ok(s, op.root_page_no, h) || tree_ok(
            s,
            op.root_page_no,
            h + 1,
        )) && holds_inserted(s0, root, s, op.root_page_no, k, v),
    }
}

/// An insertion begins where `InsertOp::start` leaves it.
pub proof fn lemma_insert_start(
    s0: Map<u32, NodeView>,
    root: u32,
    h: nat,
    k: Seq<u8>,
    v: Seq<u8>,
    op: InsertOp,
    action: TreeAction,
)
    requires
        tree_ok(s0, root, h),
        op.root_page_no == root,
        op.pending matches Some(pair) && pair.0@ == k && pair.1@ == v,
        op.path@.len() == 0,
        op.state == (InsertState::Descend { page_no: root }),
        action == TreeAction::Read(root),
    ensures
        insert_inv(s0, root, h, k, v, s0, None, None, op, action),
{
    assert(descend(s0, root, k, 0) == root);
}

/// Performing an action whose writes are within the entry bound keeps the
/// pages within it.
proof fn lemma_store_after_bounded(s: Map<u32, NodeView>, held: Option<u32>, fresh: Option<u32>, action: TreeAction)
    requires
        store_bounded(s),
        write_bounded(action),
    ensures
        store_bounded(store_after(s, held, fresh, action)),
{
    let s2 = store_after(s, held, fresh, action);
    assert forall|p: u32| s2.contains_key(p) implies node_len(#[trigger] s2[p]) <= 4 by {
        if !s.contains_key(p) || s2[p] != s[p] {
        }
    }
}

/// After a split pending below the pages of `path`, moving it up keeps the
/// insertion where `insert_inv` says.
proof fn lemma_propagate_inv(
    s0: Map<u32, NodeView>,
    root: u32,
    h: nat,
    k: Seq<u8>,
    v: Seq<u8>,
    s: Map<u32, NodeView>,
    path: Seq<u32>,
    u: Seq<u8>,
    m: u32,
    r: (InsertOp, TreeAction),
)
    requires
        tree_ok(s0, root, h),
        store_bounded(s),
        path_ok(s0, root, k, path),
        pending_ok(s0, root, h, k, v, s, path.len(), u, m, None),
        r.0.root_page_no == root,
        r.0.pending is None,
        propagated(path, u, m, r.0, r.1),
    ensures
        insert_inv(s0, root, h, k, v, s, None, None, r.0, r.1),
{
    let np = r.0.path@;
    assert forall|i: int| 0 <= i < np.len() implies #[trigger] np[i] == descend(s0, root, k, i as nat) by {
        assert(np[i] == path[i]);
    }
    if path.len() > 0 {
        assert(path.last() == descend(s0, root, k, (path.len() - 1) as nat));
        assert((np.len() + 1) as nat == path.len());
    }
}

/// One step of an insertion, answered as `answers` says and performed on
/// the pages, keeps `insert_inv`; so an insertion into a well-formed tree
/// never reports corruption, and when it finishes leaves a tree as
/// `tree_ok` asks (one level higher when the root split) that holds `v`
/// under `k` and every other key's value as before.
#[verifier::rlimit(80)]
pub proof fn lemma_insert_step(
    s0: Map<u32, NodeView>,
    root: u32,
    h: nat,
    k: Seq<u8>,
    v: Seq<u8>,
    s: Map<u32, NodeView>,
    held: Option<u32>,
    fresh: Option<u32>,
    op: InsertOp,
    action: TreeAction,
    event: TreeEvent,
    r: (InsertOp, TreeAction),
)
    requires
        insert_inv(s0, root, h, k, v, s, held, fresh, op, action),
        answers(s, action, event),
        insert_step(op, event, r),
    ensures
        insert_inv(
            s0,
            root,
            h,
            k,
            v,
            store_after(s, held, fresh, action),
            held_after(held, action),
            fresh_after(fresh, action, event),
            r.0,
            r.1,
        ),
{
    let path = op.path@;
    let j = path.len();
    let lp = descend(s0, root, k, h);
    let l = s0[lp]->Leaf_0;
    let here = descend(s0, root, k, j);
    lemma_store_after_bounded(s, held, fresh, action);
    assert(super::shape::node_fits(s0, lp, false));
    assert(node_len(s0[lp]) <= 4);
    match op.state {
        InsertState::Descend { page_no } => {
            assert(super::shape::node_fits(s0, here, j < h));
            if j < h {
                lemma_descend_last(s0, root, k, j);
                let np = r.0.path@;
                assert forall|i: int| 0 <= i < np.len() implies #[trigger] np[i] == descend(s0, root, k, i as nat) by {
                    if i < j {
                        assert(np[i] == path[i]);
                    }
                }
            } else {
                lemma_insert_leaf_wf(s0, root, h, k, v);
                super::shape::lemma_insert_len(l.entries, k, v);
            }
        },
        InsertState::LeafWritten => {},
        InsertState::LeafSplitAllocating { page_no, leaf } => {
            super::shape::lemma_split_due_len(l, k, v);
        },
        InsertState::LeafSplitRightWritten { left, old_next, split_key, new_page_no } => {
            super::shape::lemma_split_due_len(l, k, v);
        },
        InsertState::LeafSplitLeftWritten { old_next, split_key, new_page_no } => {
            lemma_leaf_split_pending(s0, root, h, k, v, new_page_no);
            assert(store_after(s, held, fresh, action) =~= s0.insert(
                new_page_no,
                NodeView::Leaf(split_right(l, k, v, lp)),
            ).insert(lp, NodeView::Leaf(split_left(l, k, v, new_page_no))));
            if old_next is None {
                lemma_propagate_inv(s0, root, h, k, v, store_after(s, held, fresh, action), path, split_key@, new_page_no, r);
            }
        },
        InsertState::NextLeafRead { split_key, new_page_no } => {
            let x = action->Read_0;
            assert(s[x] is Leaf);
            assert(node_len(s[x]) <= 4);
        },
        InsertState::NextLeafDone { split_key, new_page_no } => {
            let x = held->Some_0;
            let s2 = store_after(s, held, fresh, action);
            let n = action->WriteHeld_0;
            lemma_relink_pending(s0, root, h, k, v, s, h, split_key@, new_page_no, x, n@->Leaf_0);
            assert(s2 =~= s.insert(x, NodeView::Leaf(n@->Leaf_0)));
            lemma_propagate_inv(s0, root, h, k, v, s2, path, split_key@, new_page_no, r);
        },
        InsertState::ParentRead { page_no, split_key, new_page_no } => {
            assert(s[here] == s0[here]);
            assert(super::shape::node_fits(s0, here, true));
            super::shape::lemma_strict_sorted(s0[here]->Internal_0.entries);
            super::node::lemma_internal_position(s0[here]->Internal_0.entries, split_key@);
            let w = s.insert(here, super::shape::gained(s[here], split_key@, new_page_no));
            lemma_prev_fix_none(w, root, h);
        },
        InsertState::ParentWritten => {},
        InsertState::InternalSplitRead { split_key, new_page_no } => {
            assert(s[here] == s0[here]);
            assert(super::shape::node_fits(s0, here, true));
            assert(node_len(s0[here]) <= 4);
            super::shape::lemma_strict_sorted(s0[here]->Internal_0.entries);
            super::node::lemma_internal_position(s0[here]->Internal_0.entries, split_key@);
            let left = r.0.state->InternalSplitAllocating_left;
            let right = r.0.state->InternalSplitAllocating_right;
            let up = r.0.state->InternalSplitAllocating_up_key;
            assert forall|m2: u32| !s.contains_key(m2) implies pending_ok(
                s0,
                root,
                h,
                k,
                v,
                #[trigger] s.insert(m2, NodeView::Internal(right@)).insert(here, NodeView::Internal(left@)),
                j,
                up@,
                m2,
                None,
            ) by {
                lemma_internal_split_pending(s0, root, h, k, v, s, j + 1, split_key@, new_page_no, m2);
            }
        },
        InsertState::InternalSplitLeftWritten { up_key, new_page_no } => {
            lemma_propagate_inv(s0, root, h, k, v, store_after(s, held, fresh, action), path, up_key@, new_page_no, r);
        },
        InsertState::RootAllocating { split_key, new_page_no } => {
            let r2 = event->Allocated_0;
            let n = r.1->WriteFresh_0;
            assert(n@ == super::shape::grown_root(root, split_key@, new_page_no)) by {
                assert(Seq::<(Seq<u8>, u32)>::empty().insert(0, (split_key@, new_page_no)) =~= seq![(split_key@, new_page_no)]);
            }
            lemma_prev_fix_none(s.insert(r2, n@), r2, h + 1);
        },
        _ => {},
    }
}

/// What a read gives back of a write: once an insertion of `(k, v)` into
/// the tree at `root` over `s0` has finished with pages `s`, a search over
/// `s` from the insertion's root that finishes gives `v` for `k` and, for
/// any other key, the value the tree held before.
pub proof fn lemma_search_after_insert(
    s0: Map<u32, NodeView>,
    root: u32,
    h: nat,
    k: Seq<u8>,
    v: Seq<u8>,
    s: Map<u32, NodeView>,
    held: Option<u32>,
    fresh: Option<u32>,
    ins: InsertOp,
    op: SearchOp,
)
    requires
        insert_inv(s0, root, h, k, v, s, held, fresh, ins, TreeAction::Finish),
        search_at(s, ins.root_page_no, op, TreeAction::Finish),
    ensures
        bytes_of(op.result) == if op.key@ == k {
            Some(v)
        } else {
            tree_value(s0, root, op.key@)
        },
{
    assert(tree_value(s, ins.root_page_no, op.key@) == if op.key@ == k {
        Some(v)
    } else {
        tree_value(s0, root, op.key@)
    });
}

/// Every pair a range scan has collected has its key between the scan's
/// bounds.
pub open spec fn scan_in_range(op: RangeScanOp) -> bool {
    forall|i: int|
        0 <= i < op.results@.len() ==> bytes_le(op.start_key@, #[trigger] op.results@[i].0@) && bytes_le(
            op.results@[i].0@,
            op.end_key@,
        )
}

/// A range scan returns only keys within its bounds: whatever the pages
/// hold, a step keeps `scan_in_range`, which holds of a scan with no
/// results yet.
pub proof fn lemma_scan_step_in_range(op: RangeScanOp, event: TreeEvent, r: (RangeScanOp, TreeAction))
    requires
        scan_in_range(op),
        scan_step(op, event, r),
    ensures
        scan_in_range(r.0),
{
    let old_pairs = pairs_view(op.results@);
    let new_pairs = pairs_view(r.0.results@);
    let appended = op.state is LeafRead && (event matches TreeEvent::Node(n) && n@ is Leaf);
    if appended {
        let l = event->Node_0@->Leaf_0;
        let pred = |e: (Seq<u8>, Seq<u8>)| bytes_le(op.start_key@, e.0) && bytes_le(e.0, op.end_key@);
        let added = l.entries.filter(pred);
        assert(new_pairs == old_pairs + added);
        assert forall|i: int| 0 <= i < r.0.results@.len() implies bytes_le(
            r.0.start_key@,
            #[trigger] r.0.results@[i].0@,
        ) && bytes_le(r.0.results@[i].0@, r.0.end_key@) by {
            assert(new_pairs[i] == (r.0.results@[i].0@, r.0.results@[i].1@));
            if i < old_pairs.len() {
                assert(old_pairs[i] == (op.results@[i].0@, op.results@[i].1@));
            } else {
                l.entries.lemma_filter_pred(pred, i - old_pairs.len());
            }
        }
    } else {
        assert(r.0.results@ == op.results@);
    }
}

/// Filtering keeps keys strictly increasing.
proof fn lemma_filter_sorted(es: Seq<(Seq<u8>, Seq<u8>)>, pred: spec_fn((Seq<u8>, Seq<u8>)) -> bool)
    requires
        leaf_sorted(es),
    ensures
        leaf_sorted(es.filter(pred)),
    decreases es.len(),
{
    reveal(Seq::filter);
    if es.len() > 0 {
        let d = es.drop_last();
        assert(leaf_sorted(d)) by {
            assert forall|a: int, b: int| 0 <= a < b < d.len() implies super::key::bytes_lt(
                #[trigger] d[a].0,
                #[trigger] d[b].0,
            ) by {
                assert(d[a] == es[a] && d[b] == es[b]);
            }
        }
        lemma_filter_sorted(d, pred);
        let f = d.filter(pred);
        if pred(es.last()) {
            let g = f.push(es.last());
            assert forall|a: int, b: int| 0 <= a < b < g.len() implies super::key::bytes_lt(
                #[trigger] g[a].0,
                #[trigger] g[b].0,
            ) by {
                if b == g.len() - 1 {
                    assert(g[a] == f[a]);
                    assert(f.contains(f[a]));
                    d.lemma_filter_contains_rev(pred, f[a]);
                    let i = choose|i: int| 0 <= i < d.len() && d[i] == f[a];
                    assert(es[i] == d[i]);
                } else {
                    assert(g[a] == f[a] && g[b] == f[b]);
                }
            }
        }
    }
}

/// The collected pairs are in the tree at `r`, with keys between `st` and
/// `en`.
pub open spec fn scan_sound(
    s: Map<u32, NodeView>,
    r: u32,
    st: Seq<u8>,
    en: Seq<u8>,
    res: Seq<(Seq<u8>, Seq<u8>)>,
) -> bool {
    forall|i: int|
        0 <= i < res.len() ==> bytes_le(st, #[trigger] res[i].0) && bytes_le(res[i].0, en) && tree_value(s, r, res[i].0)
            == Some(res[i].1)
}

/// Every pair of the tree at `r` with a key between `st` and `en`, and
/// below `bound` when there is one, is collected.
pub open spec fn scan_covers(
    s: Map<u32, NodeView>,
    r: u32,
    st: Seq<u8>,
    en: Seq<u8>,
    res: Seq<(Seq<u8>, Seq<u8>)>,
    bound: Option<Seq<u8>>,
) -> bool {
    forall|e: Seq<u8>|
        bytes_le(st, e) && bytes_le(e, en) && (bound matches Some(b) ==> super::key::bytes_lt(e, b)) && #[trigger] tree_value(
            s,
            r,
            e,
        ) is Some ==> exists|i: int| 0 <= i < res.len() && #[trigger] res[i].0 == e
}

/// A scan that has collected exactly the pairs of the tree with keys
/// between `st` and `en`, in increasing key order.
pub open spec fn scan_done(s: Map<u32, NodeView>, r: u32, st: Seq<u8>, en: Seq<u8>, res: Seq<(Seq<u8>, Seq<u8>)>) -> bool {
    &&& leaf_sorted(res)
    &&& scan_sound(s, r, st, en, res)
    &&& scan_covers(s, r, st, en, res, None)
}

/// A scan whose next leaf is the leaf of `f`: it has collected, in
/// increasing key order, exactly the pairs with keys between `st` and `en`
/// below `f`, and the keys of `f`'s leaf from `st` on are from `f` on.
pub open spec fn scan_front(
    s: Map<u32, NodeView>,
    r: u32,
    h: nat,
    st: Seq<u8>,
    en: Seq<u8>,
    res: Seq<(Seq<u8>, Seq<u8>)>,
    f: Seq<u8>,
) -> bool {
    &&& bytes_le(st, f)
    &&& leaf_sorted(res)
    &&& scan_sound(s, r, st, en, res)
    &&& forall|i: int| 0 <= i < res.len() ==> super::key::bytes_lt(#[trigger] res[i].0, f)
    &&& scan_covers(s, r, st, en, res, Some(f))
    &&& forall|t: int|
        0 <= t < s[descend(s, r, f, h)]->Leaf_0.entries.len() && bytes_le(
            st,
            #[trigger] s[descend(s, r, f, h)]->Leaf_0.entries[t].0,
        ) ==> bytes_le(f, s[descend(s, r, f, h)]->Leaf_0.entries[t].0)
}

/// Collecting the pairs of the leaf of `f` that lie between the bounds
/// moves the scan to the next leaf of the chain, or finishes it at the
/// last leaf.
proof fn lemma_scan_leaf(
    s: Map<u32, NodeView>,
    r: u32,
    h: nat,
    st: Seq<u8>,
    en: Seq<u8>,
    res: Seq<(Seq<u8>, Seq<u8>)>,
    f: Seq<u8>,
    res2: Seq<(Seq<u8>, Seq<u8>)>,
)
    requires
        tree_wf(s, r, h),
        scan_front(s, r, h, st, en, res, f),
        res2 == res + s[descend(s, r, f, h)]->Leaf_0.entries.filter(
            |e: (Seq<u8>, Seq<u8>)| bytes_le(st, e.0) && bytes_le(e.0, en),
        ),
    ensures
        match s[descend(s, r, f, h)]->Leaf_0.next_page_no {
            Some(n) => exists|y: Seq<u8>| scan_front(s, r, h, st, en, res2, y) && #[trigger] descend(s, r, y, h) == n,
            None => scan_done(s, r, st, en, res2),
        },
{
    broadcast use Seq::lemma_filter_pred, Seq::lemma_filter_contains;
    let p = descend(s, r, f, h);
    let l = s[p]->Leaf_0;
    let pred = |e: (Seq<u8>, Seq<u8>)| bytes_le(st, e.0) && bytes_le(e.0, en);
    let a = l.entries.filter(pred);
    assert(node_fits(s, p, false));
    lemma_filter_sorted(l.entries, pred);
    // every entry of the leaf is at home there, with the tree's value
    assert forall|t: int| 0 <= t < l.entries.len() implies #[trigger] descend(s, r, l.entries[t].0, h) == p
        && tree_value(s, r, l.entries[t].0) == Some(l.entries[t].1) by {
        assert(node_key(s[descend(s, r, f, h)], t) == l.entries[t].0);
        lemma_wf_value(s, r, h, l.entries[t].0);
        lemma_lookup_at(l.entries, l.entries[t].0, t);
    }
    assert forall|i: int| #![trigger a[i]] 0 <= i < a.len() implies descend(s, r, a[i].0, h) == p && tree_value(s, r, a[i].0)
        == Some(a[i].1) && bytes_le(f, a[i].0) && pred(a[i]) by {
        assert(a.contains(a[i]));
        l.entries.lemma_filter_contains_rev(pred, a[i]);
        let t = choose|t: int| 0 <= t < l.entries.len() && l.entries[t] == a[i];
        assert(l.entries[t] == a[i]);
    }
    // a value of the tree under a key that reaches p is an entry of p, so
    // it is collected when it is between the bounds
    assert forall|e: Seq<u8>| bytes_le(st, e) && bytes_le(e, en) && descend(s, r, e, h) == p && #[trigger] tree_value(
        s,
        r,
        e,
    ) is Some implies exists|i: int| 0 <= i < res2.len() && #[trigger] res2[i].0 == e by {
        lemma_wf_value(s, r, h, e);
        let t = choose|t: int| 0 <= t < l.entries.len() && l.entries[t].0 == e;
        assert(pred(l.entries[t]));
        assert(a.contains(l.entries[t]));
        let i = choose|i: int| 0 <= i < a.len() && a[i] == l.entries[t];
        assert(res2[res.len() + i] == a[i]);
    }
    assert(leaf_sorted(res2)) by {
        assert forall|x: int, y: int| 0 <= x < y < res2.len() implies super::key::bytes_lt(
            #[trigger] res2[x].0,
            #[trigger] res2[y].0,
        ) by {
            if y < res.len() {
                assert(res2[x] == res[x] && res2[y] == res[y]);
            } else if x < res.len() {
                assert(res2[x] == res[x] && res2[y] == a[y - res.len()]);
                super::key::lemma_bytes_lt_le_transitive(res[x].0, f, a[y - res.len()].0);
            } else {
                assert(res2[x] == a[x - res.len()] && res2[y] == a[y - res.len()]);
            }
        }
    }
    assert(scan_sound(s, r, st, en, res2)) by {
        assert forall|i: int| 0 <= i < res2.len() implies bytes_le(st, #[trigger] res2[i].0) && bytes_le(res2[i].0, en)
            && tree_value(s, r, res2[i].0) == Some(res2[i].1) by {
            if i < res.len() {
                assert(res2[i] == res[i]);
            } else {
                assert(res2[i] == a[i - res.len()]);
            }
        }
    }
    // the pairs collected before stay collected
    assert forall|e: Seq<u8>| bytes_le(st, e) && bytes_le(e, en) && super::key::bytes_lt(e, f) && #[trigger] tree_value(
        s,
        r,
        e,
    ) is Some implies exists|i: int| 0 <= i < res2.len() && #[trigger] res2[i].0 == e by {
        let i = choose|i: int| 0 <= i < res.len() && #[trigger] res[i].0 == e;
        assert(res2[i] == res[i]);
    }
    assert(chain_at(s, r, h, f));
    match l.next_page_no {
        None => {
            assert forall|e: Seq<u8>| bytes_le(st, e) && bytes_le(e, en) && #[trigger] tree_value(s, r, e) is Some implies exists|
                i: int,
            | 0 <= i < res2.len() && #[trigger] res2[i].0 == e by {
                super::key::lemma_bytes_lt_trichotomy(e, f);
                if !super::key::bytes_lt(e, f) {
                    assert(descend(s, r, e, h) == p);
                }
            }
        },
        Some(n) => {
            let y = choose|y: Seq<u8>| #[trigger] next_leaf_at(s, r, h, f, y) && descend(s, r, y, h) == n;
            let ln = s[n]->Leaf_0;
            assert(node_fits(s, n, false));
            super::key::lemma_bytes_le_lt_transitive(st, f, y);
            assert forall|i: int| 0 <= i < res2.len() implies super::key::bytes_lt(#[trigger] res2[i].0, y) by {
                if i < res.len() {
                    assert(res2[i] == res[i]);
                    super::key::lemma_bytes_lt_transitive(res[i].0, f, y);
                } else {
                    let e = a[i - res.len()].0;
                    assert(res2[i] == a[i - res.len()]);
                    super::key::lemma_bytes_lt_trichotomy(e, y);
                    if !super::key::bytes_lt(e, y) {
                        super::key::lemma_bytes_lt_le_transitive(f, y, e);
                        lemma_leaf_convex(s, r, h, f, y, e);
                    }
                }
            }
            assert forall|e: Seq<u8>| bytes_le(st, e) && bytes_le(e, en) && super::key::bytes_lt(e, y) && #[trigger] tree_value(
                s,
                r,
                e,
            ) is Some implies exists|i: int| 0 <= i < res2.len() && #[trigger] res2[i].0 == e by {
                super::key::lemma_bytes_lt_trichotomy(e, f);
                if !super::key::bytes_lt(e, f) {
                    assert(descend(s, r, e, h) == p);
                }
            }
            assert forall|t: int|
                0 <= t < s[descend(s, r, y, h)]->Leaf_0.entries.len() && bytes_le(
                    st,
                    #[trigger] s[descend(s, r, y, h)]->Leaf_0.entries[t].0,
                ) implies bytes_le(y, s[descend(s, r, y, h)]->Leaf_0.entries[t].0) by {
                let e = ln.entries[t].0;
                assert(node_key(s[descend(s, r, y, h)], t) == e);
                assert(descend(s, r, e, h) == n);
                super::key::lemma_bytes_lt_trichotomy(e, y);
                if super::key::bytes_lt(e, y) {
                    super::key::lemma_bytes_lt_trichotomy(e, f);
                    if super::key::bytes_lt(e, f) {
                        lemma_leaf_convex(s, r, h, e, f, y);
                    } else {
                        assert(descend(s, r, e, h) == p);
                    }
                }
            }
            assert(scan_front(s, r, h, st, en, res2, y));
        },
    }
}

/// Where a range scan over the well-formed tree at `r` of height `h` over
/// pages that do not change stands, with the action it asked for last: it
/// descends along the start key's way to its leaf, then walks the leaf
/// chain, holding in key order exactly the pairs between the bounds that
/// lie before the leaf it reads next; when it finishes it holds, in
/// increasing key order, exactly the pairs of the tree between the bounds.
pub open spec fn scan_inv(s: Map<u32, NodeView>, r: u32, h: nat, op: RangeScanOp, action: TreeAction) -> bool {
    let st = op.start_key@;
    let en = op.end_key@;
    let res = pairs_view(op.results@);
    &&& tree_wf(s, r, h)
    &&& match op.state {
        ScanState::Descend { page_no } => res.len() == 0 && action == TreeAction::Read(page_no) && exists|d: nat|
            d <= h && #[trigger] descend(s, r, st, d) == page_no,
        ScanState::Stepping { next, at_leaf } => {
            &&& res.len() == 0 && action == TreeAction::Release
            &&& exists|d: nat| d <= h && #[trigger] descend(s, r, st, d) == next
            &&& at_leaf ==> next == descend(s, r, st, h)
        },
        ScanState::LeafRead => action matches TreeAction::Read(p) && exists|f: Seq<u8>|
            scan_front(s, r, h, st, en, res, f) && #[trigger] descend(s, r, f, h) == p,
        ScanState::LeafReleased { next } => action == TreeAction::Release && match next {
            Some(n) => exists|f: Seq<u8>| scan_front(s, r, h, st, en, res, f) && #[trigger] descend(s, r, f, h) == n,
            None => scan_done(s, r, st, en, res),
        },
        ScanState::Finished => action is Finish && scan_done(s, r, st, en, res),
    }
}

/// A range scan begins where `RangeScanOp::start` leaves it.
pub proof fn lemma_scan_start(s: Map<u32, NodeView>, r: u32, h: nat, op: RangeScanOp, action: TreeAction)
    requires
        tree_wf(s, r, h),
        op.state == (ScanState::Descend { page_no: r }),
        op.results@.len() == 0,
        action == TreeAction::Read(r),
    ensures
        scan_inv(s, r, h, op, action),
{
    assert(descend(s, r, op.start_key@, 0) == r);
}

/// A range scan over a well-formed tree returns exactly its pairs between
/// the bounds, in increasing key order: each step over pages that do not
/// change, answered as `answers` says, keeps `scan_inv`.
pub proof fn lemma_scan_step(
    s: Map<u32, NodeView>,
    r: u32,
    h: nat,
    op: RangeScanOp,
    action: TreeAction,
    event: TreeEvent,
    rr: (RangeScanOp, TreeAction),
)
    requires
        scan_inv(s, r, h, op, action),
        answers(s, action, event),
        scan_step(op, event, rr),
    ensures
        scan_inv(s, r, h, rr.0, rr.1),
{
    let st = op.start_key@;
    let en = op.end_key@;
    let res = pairs_view(op.results@);
    match op.state {
        ScanState::Descend { page_no } => {
            let d = choose|d: nat| d <= h && #[trigger] descend(s, r, st, d) == page_no;
            assert(node_fits(s, page_no, d < h));
            lemma_descend_last(s, r, st, d);
            if d < h {
                assert(descend(s, r, st, d + 1) == next_on_path(s, page_no, st));
            }
        },
        ScanState::Stepping { next, at_leaf } => {
            if at_leaf {
                assert(node_fits(s, next, false));
                assert(descend(s, r, st, h) == next);
                assert(scan_front(s, r, h, st, en, res, st)) by {
                    super::key::lemma_bytes_lt_irreflexive(st);
                    assert forall|e: Seq<u8>| bytes_le(st, e) && bytes_le(e, en) && super::key::bytes_lt(e, st)
                        && #[trigger] tree_value(s, r, e) is Some implies exists|i: int| 0 <= i < res.len() && #[trigger] res[i].0
                        == e by {
                        super::key::lemma_bytes_le_lt_transitive(st, e, st);
                    }
                }
            }
        },
        ScanState::LeafRead => {
            let p = action->Read_0;
            let f = choose|f: Seq<u8>| scan_front(s, r, h, st, en, res, f) && #[trigger] descend(s, r, f, h) == p;
            assert(node_fits(s, descend(s, r, f, h), false));
            let res2 = pairs_view(rr.0.results@);
            lemma_scan_leaf(s, r, h, st, en, res, f, res2);
        },
        _ => {},
    }
}

} // verus!
