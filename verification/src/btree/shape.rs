//! The shape of a well-formed tree of index pages, and why storing a pair,
//! splitting a node, and growing a new root keep it.

use vstd::prelude::*;
use super::key::{
    bytes_le, bytes_lt, lemma_bytes_le_lt_transitive, lemma_bytes_lt_irreflexive,
    lemma_bytes_lt_le_transitive, lemma_bytes_lt_transitive, lemma_bytes_lt_trichotomy,
};
use super::tree::{lemma_internal_split_route, lemma_leaf_split_lookup};
use super::node::{
    internal_position, leaf_insert_entries, leaf_lookup, leaf_position, leaf_sorted, lemma_internal_position,
    lemma_leaf_insert_lookup, lemma_leaf_insert_sorted, lemma_leaf_position, route, InternalView,
    LeafView, NodeView,
};
use super::store::{
    descend, holds_inserted, inserted_leaf, lemma_insert_in_leaf, on_path, is_leaf_page, lemma_descend_last, lemma_leaf_on_path, lemma_same_ways,
    leaf_page_of, next_on_path, reaches_leaf, tree_value,
};

verus! {

// ── internal nodes by slot ──
/// Keys strictly increasing.
pub open spec fn internal_strict(es: Seq<(Seq<u8>, u32)>) -> bool {
    forall|a: int, b: int| 0 <= a < b < es.len() ==> bytes_lt(#[trigger] es[a].0, #[trigger] es[b].0)
}

/// The child in slot `t`: the first child in slot 0, the child of entry
/// `t - 1` after it.
pub open spec fn child_at(n: InternalView, t: int) -> u32 {
    if t == 0 {
        n.first_child_page_no
    } else {
        n.entries[t - 1].1
    }
}

/// How many entries have keys at most `x`: the slot whose child `route`
/// picks.
pub open spec fn slot(es: Seq<(Seq<u8>, u32)>, x: Seq<u8>) -> int
    decreases es.len(),
{
    if es.len() == 0 {
        0
    } else if bytes_le(es.last().0, x) {
        es.len() as int
    } else {
        slot(es.drop_last(), x)
    }
}

/// `route` picks the child in the key's slot.
pub proof fn lemma_route_slot(first: u32, es: Seq<(Seq<u8>, u32)>, x: Seq<u8>)
    ensures
        0 <= slot(es, x) <= es.len(),
        route(first, es, x) == child_at(InternalView { first_child_page_no: first, entries: es }, slot(es, x)),
    decreases es.len(),
{
    if es.len() > 0 && !bytes_le(es.last().0, x) {
        let d = es.drop_last();
        lemma_route_slot(first, d, x);
        if slot(d, x) > 0 {
            assert(d[slot(d, x) - 1] == es[slot(d, x) - 1]);
        }
    }
}

/// In a strictly sorted node the entries before the key's slot have keys at
/// most the key, the others keys above it.
pub proof fn lemma_slot_bounds(es: Seq<(Seq<u8>, u32)>, x: Seq<u8>)
    requires
        internal_strict(es),
    ensures
        0 <= slot(es, x) <= es.len(),
        forall|i: int| 0 <= i < slot(es, x) ==> bytes_le(#[trigger] es[i].0, x),
        forall|i: int| slot(es, x) <= i < es.len() ==> bytes_lt(x, #[trigger] es[i].0),
    decreases es.len(),
{
    if es.len() > 0 {
        let d = es.drop_last();
        assert(internal_strict(d)) by {
            assert forall|a: int, b: int| 0 <= a < b < d.len() implies bytes_lt(
                #[trigger] d[a].0,
                #[trigger] d[b].0,
            ) by {
                assert(d[a] == es[a] && d[b] == es[b]);
            }
        }
        lemma_slot_bounds(d, x);
        if bytes_le(es.last().0, x) {
            assert forall|i: int| 0 <= i < es.len() implies bytes_le(#[trigger] es[i].0, x) by {
                if i < es.len() - 1 {
                    lemma_bytes_lt_le_transitive(es[i].0, es.last().0, x);
                }
            }
        } else {
            lemma_bytes_lt_trichotomy(es.last().0, x);
            assert forall|i: int| slot(es, x) <= i < es.len() implies bytes_lt(x, #[trigger] es[i].0) by {
                if i < es.len() - 1 {
                    assert(d[i] == es[i]);
                }
            }
            assert forall|i: int| 0 <= i < slot(es, x) implies bytes_le(#[trigger] es[i].0, x) by {
                assert(d[i] == es[i]);
            }
        }
    }
}

/// The slot is determined by the bounds of `lemma_slot_bounds`.
pub proof fn lemma_slot_unique(es: Seq<(Seq<u8>, u32)>, x: Seq<u8>, s: int)
    requires
        internal_strict(es),
        0 <= s <= es.len(),
        forall|i: int| 0 <= i < s ==> bytes_le(#[trigger] es[i].0, x),
        forall|i: int| s <= i < es.len() ==> bytes_lt(x, #[trigger] es[i].0),
    ensures
        slot(es, x) == s,
{
    lemma_slot_bounds(es, x);
    let t = slot(es, x);
    if t < s {
        assert(bytes_le(es[t].0, x) && bytes_lt(x, es[t].0));
        lemma_bytes_le_lt_transitive(es[t].0, x, es[t].0);
        lemma_bytes_lt_irreflexive(es[t].0);
    }
    if s < t {
        assert(bytes_le(es[s].0, x) && bytes_lt(x, es[s].0));
        lemma_bytes_le_lt_transitive(es[s].0, x, es[s].0);
        lemma_bytes_lt_irreflexive(es[s].0);
    }
}

/// Strictly increasing keys are in order.
pub proof fn lemma_strict_sorted(es: Seq<(Seq<u8>, u32)>)
    requires
        internal_strict(es),
    ensures
        super::node::internal_sorted(es),
{
    assert forall|a: int, b: int| 0 <= a < b < es.len() implies bytes_le(#[trigger] es[a].0, #[trigger] es[b].0) by {
    }
}

/// The key occurs in no entry.
pub open spec fn fresh_key(es: Seq<(Seq<u8>, u32)>, k: Seq<u8>) -> bool {
    forall|i: int| 0 <= i < es.len() ==> #[trigger] es[i].0 != k
}

/// Inserting `(k, m)` at its position into a strictly sorted node without
/// the key keeps it strictly sorted, and changes the route of exactly the
/// keys from `k` on that shared `k`'s slot: they go to `m`.
pub proof fn lemma_insert_route(first: u32, es: Seq<(Seq<u8>, u32)>, k: Seq<u8>, m: u32, x: Seq<u8>)
    requires
        internal_strict(es),
        fresh_key(es, k),
    ensures
        slot(es, k) == internal_position(es, k),
        internal_strict(es.insert(internal_position(es, k), (k, m))),
        route(first, es.insert(internal_position(es, k), (k, m)), x) == if bytes_le(k, x) && slot(es, x) == slot(
            es,
            k,
        ) {
            m
        } else {
            route(first, es, x)
        },
{
    lemma_strict_sorted(es);
    lemma_internal_position(es, k);
    let pos = internal_position(es, k);
    let es2 = es.insert(pos, (k, m));
    assert forall|i: int| pos <= i < es.len() implies bytes_lt(k, #[trigger] es[i].0) by {
        lemma_bytes_lt_trichotomy(es[i].0, k);
    }
    lemma_slot_unique(es, k, pos);
    assert(internal_strict(es2)) by {
        assert forall|a: int, b: int| 0 <= a < b < es2.len() implies bytes_lt(
            #[trigger] es2[a].0,
            #[trigger] es2[b].0,
        ) by {
            if b < pos {
                assert(es2[a] == es[a] && es2[b] == es[b]);
            } else if b == pos {
                assert(es2[a] == es[a]);
            } else if a < pos {
                assert(es2[a] == es[a] && es2[b] == es[b - 1]);
                lemma_bytes_lt_transitive(es[a].0, k, es[b - 1].0);
            } else if a == pos {
                assert(es2[b] == es[b - 1]);
            } else {
                assert(es2[a] == es[a - 1] && es2[b] == es[b - 1]);
            }
        }
    }
    lemma_slot_bounds(es, x);
    let sx = slot(es, x);
    lemma_bytes_lt_trichotomy(k, x);
    let s2 = if bytes_le(k, x) { sx + 1 } else { sx };
    if bytes_le(k, x) {
        // every key below k is at most x, so the slot of x is at least pos
        if sx < pos {
            assert(bytes_lt(x, es[sx].0) && bytes_lt(es[sx].0, k));
            lemma_bytes_lt_transitive(x, es[sx].0, k);
            lemma_bytes_lt_le_transitive(x, k, x);
            lemma_bytes_lt_irreflexive(x);
        }
        assert forall|i: int| 0 <= i < s2 implies bytes_le(#[trigger] es2[i].0, x) by {
            if i < pos {
                assert(es2[i] == es[i]);
            } else if i > pos {
                assert(es2[i] == es[i - 1]);
            }
        }
        assert forall|i: int| s2 <= i < es2.len() implies bytes_lt(x, #[trigger] es2[i].0) by {
            assert(es2[i] == es[i - 1]);
        }
    } else {
        // x is below k, so its slot is at most pos
        if sx > pos {
            assert(bytes_le(es[pos].0, x) && bytes_lt(k, es[pos].0));
            lemma_bytes_lt_le_transitive(k, es[pos].0, x);
        }
        assert forall|i: int| 0 <= i < s2 implies bytes_le(#[trigger] es2[i].0, x) by {
            assert(es2[i] == es[i]);
        }
        assert forall|i: int| s2 <= i < es2.len() implies bytes_lt(x, #[trigger] es2[i].0) by {
            if i < pos {
                assert(es2[i] == es[i]);
            } else if i > pos {
                assert(es2[i] == es[i - 1]);
            }
        }
    }
    lemma_slot_unique(es2, x, s2);
    lemma_route_slot(first, es, x);
    lemma_route_slot(first, es2, x);
    if s2 > 0 && s2 - 1 > pos {
        assert(es2[s2 - 1] == es[s2 - 2]);
    }
    if s2 > 0 && s2 - 1 < pos {
        assert(es2[s2 - 1] == es[s2 - 1]);
    }
}

// ── well-formed trees ──
/// The number of entries of a node.
pub open spec fn node_len(n: NodeView) -> int {
    match n {
        NodeView::Leaf(l) => l.entries.len() as int,
        NodeView::Internal(i) => i.entries.len() as int,
    }
}

/// The key of entry `t` of a node.
pub open spec fn node_key(n: NodeView, t: int) -> Seq<u8> {
    match n {
        NodeView::Leaf(l) => l.entries[t].0,
        NodeView::Internal(i) => i.entries[t].0,
    }
}

/// The children of an internal node are distinct pages that hold nodes.
pub open spec fn children_ok(s: Map<u32, NodeView>, n: InternalView) -> bool {
    &&& forall|a: int, b: int| 0 <= a < b <= n.entries.len() ==> #[trigger] child_at(n, a) != #[trigger] child_at(n, b)
    &&& forall|t: int| 0 <= t <= n.entries.len() ==> s.contains_key(#[trigger] child_at(n, t))
}

/// Page `p` holds a node fit for its level: an internal node with strictly
/// increasing keys and distinct children above the leaves, a leaf with
/// strictly increasing keys at the bottom.
pub open spec fn node_fits(s: Map<u32, NodeView>, p: u32, internal: bool) -> bool {
    &&& s.contains_key(p)
    &&& match s[p] {
        NodeView::Internal(n) => internal && internal_strict(n.entries) && children_ok(s, n),
        NodeView::Leaf(l) => !internal && leaf_sorted(l.entries),
    }
}

/// Two keys go down the same pages for the first `i + 1` levels.
pub open spec fn same_way(s: Map<u32, NodeView>, r: u32, x: Seq<u8>, y: Seq<u8>, i: nat) -> bool {
    forall|l: nat| l <= i ==> #[trigger] descend(s, r, x, l) == descend(s, r, y, l)
}

/// Every way down from `r` passes `h` internal levels and ends at a leaf,
/// each page fit for its level.
pub open spec fn levels_ok(s: Map<u32, NodeView>, r: u32, h: nat) -> bool {
    forall|x: Seq<u8>, j: nat| j <= h ==> node_fits(s, #[trigger] descend(s, r, x, j), j < h)
}

/// A page is reached at one level only, and always the same way: the pages
/// form a tree.
pub open spec fn ways_unique(s: Map<u32, NodeView>, r: u32, h: nat) -> bool {
    forall|x: Seq<u8>, y: Seq<u8>, i: nat, j: nat|
        i <= h && j <= h && #[trigger] descend(s, r, x, i) == #[trigger] descend(s, r, y, j) ==> i == j
            && same_way(s, r, x, y, i)
}

/// Every key a node holds is routed to that node.
pub open spec fn keys_home(s: Map<u32, NodeView>, r: u32, h: nat) -> bool {
    forall|x: Seq<u8>, j: nat, t: int|
        j <= h && 0 <= t < node_len(s[descend(s, r, x, j)]) ==> descend(
            s,
            r,
            #[trigger] node_key(s[#[trigger] descend(s, r, x, j)], t),
            j,
        ) == descend(s, r, x, j)
}

/// `y` comes after `x` and reaches another leaf than `x`, and every key
/// from `x` up to `y` (not included) reaches `x`'s leaf: `y`'s leaf is the
/// one right after `x`'s in key order.
pub open spec fn next_leaf_at(s: Map<u32, NodeView>, r: u32, h: nat, x: Seq<u8>, y: Seq<u8>) -> bool {
    &&& bytes_lt(x, y)
    &&& descend(s, r, y, h) != descend(s, r, x, h)
    &&& forall|z: Seq<u8>| bytes_le(x, z) && bytes_lt(z, y) ==> #[trigger] descend(s, r, z, h) == descend(s, r, x, h)
}

/// The leaf of `x` links to the leaf right after it in key order, or, when
/// it links to none, every key from `x` on reaches it.
pub open spec fn chain_at(s: Map<u32, NodeView>, r: u32, h: nat, x: Seq<u8>) -> bool {
    match s[descend(s, r, x, h)]->Leaf_0.next_page_no {
        None => forall|y: Seq<u8>| bytes_le(x, y) ==> #[trigger] descend(s, r, y, h) == descend(s, r, x, h),
        Some(n) => exists|y: Seq<u8>| #[trigger] next_leaf_at(s, r, h, x, y) && descend(s, r, y, h) == n,
    }
}

/// The leaves are chained in key order.
pub open spec fn chain_ok(s: Map<u32, NodeView>, r: u32, h: nat) -> bool {
    forall|x: Seq<u8>| #[trigger] chain_at(s, r, h, x)
}

/// A well-formed tree of height `h` at `r`.
pub open spec fn tree_wf(s: Map<u32, NodeView>, r: u32, h: nat) -> bool {
    &&& levels_ok(s, r, h)
    &&& ways_unique(s, r, h)
    &&& keys_home(s, r, h)
    &&& chain_ok(s, r, h)
}

/// Two trees whose keys reach the same leaves, which link to the same next
/// leaves, are chained alike.
pub proof fn lemma_chain_same(s: Map<u32, NodeView>, r: u32, h: nat, s2: Map<u32, NodeView>, r2: u32, h2: nat)
    requires
        chain_ok(s, r, h),
        forall|x: Seq<u8>| #[trigger] descend(s2, r2, x, h2) == descend(s, r, x, h),
        forall|x: Seq<u8>| #[trigger] s2[descend(s2, r2, x, h2)]->Leaf_0.next_page_no == s[descend(s, r, x, h)]->Leaf_0.next_page_no,
    ensures
        chain_ok(s2, r2, h2),
{
    assert forall|x: Seq<u8>| #[trigger] chain_at(s2, r2, h2, x) by {
        assert(chain_at(s, r, h, x));
        assert(s2[descend(s2, r2, x, h2)]->Leaf_0.next_page_no == s[descend(s, r, x, h)]->Leaf_0.next_page_no);
        match s[descend(s, r, x, h)]->Leaf_0.next_page_no {
            None => {
                assert forall|y: Seq<u8>| bytes_le(x, y) implies #[trigger] descend(s2, r2, y, h2) == descend(s2, r2, x, h2) by {
                    assert(descend(s, r, y, h) == descend(s, r, x, h));
                }
            },
            Some(n) => {
                let y = choose|y: Seq<u8>| #[trigger] next_leaf_at(s, r, h, x, y) && descend(s, r, y, h) == n;
                assert forall|z: Seq<u8>| bytes_le(x, z) && bytes_lt(z, y) implies #[trigger] descend(s2, r2, z, h2)
                    == descend(s2, r2, x, h2) by {
                    assert(descend(s, r, z, h) == descend(s, r, x, h));
                }
                assert(next_leaf_at(s2, r2, h2, x, y));
            },
        }
    }
}

/// From `a` up to `x` every key reaches `x`'s leaf.
pub open spec fn leaf_from(s: Map<u32, NodeView>, r: u32, h: nat, a: Seq<u8>, x: Seq<u8>) -> bool {
    &&& bytes_le(a, x)
    &&& forall|z: Seq<u8>| bytes_le(a, z) && bytes_le(z, x) ==> #[trigger] descend(s, r, z, h) == descend(s, r, x, h)
}

/// `pv` names the leaf right before `x`'s leaf in key order, or, when it
/// names none, every key up to `x` reaches `x`'s leaf.
pub open spec fn prev_at_with(s: Map<u32, NodeView>, r: u32, h: nat, x: Seq<u8>, pv: Option<u32>) -> bool {
    match pv {
        None => forall|y: Seq<u8>| bytes_le(y, x) ==> #[trigger] descend(s, r, y, h) == descend(s, r, x, h),
        Some(q) => exists|a: Seq<u8>, y: Seq<u8>|
            leaf_from(s, r, h, a, x) && #[trigger] next_leaf_at(s, r, h, y, a) && descend(s, r, y, h) == q,
    }
}

/// The leaf of `x` links back to the leaf right before it, or to none when
/// it is the first leaf.
pub open spec fn prev_at(s: Map<u32, NodeView>, r: u32, h: nat, x: Seq<u8>) -> bool {
    prev_at_with(s, r, h, x, s[descend(s, r, x, h)]->Leaf_0.prev_page_no)
}

/// Every leaf links back to the leaf before it in key order; the first leaf
/// links back to none.
pub open spec fn prev_ok(s: Map<u32, NodeView>, r: u32, h: nat) -> bool {
    forall|x: Seq<u8>| #[trigger] prev_at(s, r, h, x)
}

/// The back link the leaf of `x` should have, once the leaf `fix.0`, if any,
/// links back to `fix.1`.
pub open spec fn fixed_prev(s: Map<u32, NodeView>, r: u32, h: nat, x: Seq<u8>, fix: Option<(u32, u32)>) -> Option<u32> {
    match fix {
        Some(f) => if descend(s, r, x, h) == f.0 {
            Some(f.1)
        } else {
            s[descend(s, r, x, h)]->Leaf_0.prev_page_no
        },
        None => s[descend(s, r, x, h)]->Leaf_0.prev_page_no,
    }
}

/// The back links are right once leaf `fix.0`, if any, links back to
/// `fix.1`.
pub open spec fn prev_ok_fix(s: Map<u32, NodeView>, r: u32, h: nat, fix: Option<(u32, u32)>) -> bool {
    forall|x: Seq<u8>| #[trigger] prev_at_with(s, r, h, x, fixed_prev(s, r, h, x, fix))
}

/// Every node holds at most four entries.
pub open spec fn store_bounded(s: Map<u32, NodeView>) -> bool {
    forall|p: u32| s.contains_key(p) ==> node_len(#[trigger] s[p]) <= 4
}

/// A well-formed tree with its leaves linked both ways and every node
/// within the entry bound.
pub open spec fn tree_ok(s: Map<u32, NodeView>, r: u32, h: nat) -> bool {
    &&& tree_wf(s, r, h)
    &&& prev_ok(s, r, h)
    &&& store_bounded(s)
}

/// Two trees whose keys reach the same leaves, which link back alike, have
/// the same back links right.
pub proof fn lemma_prev_same(s: Map<u32, NodeView>, r: u32, h: nat, s2: Map<u32, NodeView>, r2: u32, h2: nat)
    requires
        prev_ok(s, r, h),
        forall|x: Seq<u8>| #[trigger] descend(s2, r2, x, h2) == descend(s, r, x, h),
        forall|x: Seq<u8>| #[trigger] s2[descend(s2, r2, x, h2)]->Leaf_0.prev_page_no == s[descend(s, r, x, h)]->Leaf_0.prev_page_no,
    ensures
        prev_ok(s2, r2, h2),
{
    assert forall|x: Seq<u8>| #[trigger] prev_at(s2, r2, h2, x) by {
        assert(prev_at(s, r, h, x));
        assert(s2[descend(s2, r2, x, h2)]->Leaf_0.prev_page_no == s[descend(s, r, x, h)]->Leaf_0.prev_page_no);
        match s[descend(s, r, x, h)]->Leaf_0.prev_page_no {
            None => {
                assert forall|y: Seq<u8>| bytes_le(y, x) implies #[trigger] descend(s2, r2, y, h2) == descend(s2, r2, x, h2) by {
                    assert(descend(s, r, y, h) == descend(s, r, x, h));
                }
            },
            Some(q) => {
                let (a, y) = choose|a: Seq<u8>, y: Seq<u8>|
                    leaf_from(s, r, h, a, x) && #[trigger] next_leaf_at(s, r, h, y, a) && descend(s, r, y, h) == q;
                assert forall|z: Seq<u8>| bytes_le(a, z) && bytes_le(z, x) implies #[trigger] descend(s2, r2, z, h2)
                    == descend(s2, r2, x, h2) by {
                    assert(descend(s, r, z, h) == descend(s, r, x, h));
                }
                assert forall|z: Seq<u8>| bytes_le(y, z) && bytes_lt(z, a) implies #[trigger] descend(s2, r2, z, h2)
                    == descend(s2, r2, y, h2) by {
                    assert(descend(s, r, z, h) == descend(s, r, y, h));
                }
                assert(leaf_from(s2, r2, h2, a, x));
                assert(next_leaf_at(s2, r2, h2, y, a));
            },
        }
    }
}

/// Relinking leaf `n` back to `pv` (entries and next link unchanged) puts
/// right the back links that were right but for that leaf.
pub proof fn lemma_relink_prev(s: Map<u32, NodeView>, r: u32, h: nat, n: u32, pv: u32, l2: LeafView)
    requires
        levels_ok(s, r, h),
        prev_ok_fix(s, r, h, Some((n, pv))),
        is_leaf_page(s, n),
        l2.prev_page_no == Some(pv),
    ensures
        prev_ok(s.insert(n, NodeView::Leaf(l2)), r, h),
{
    let s2 = s.insert(n, NodeView::Leaf(l2));
    assert forall|x: Seq<u8>, k: nat| #[trigger] descend(s2, r, x, k) == descend(s, r, x, k) by {
        assert forall|q: u32| #[trigger] next_on_path(s, q, x) == next_on_path(s2, q, x) by {}
        lemma_ways_kept(s, s2, r, x);
    }
    assert forall|x: Seq<u8>| #[trigger] prev_at(s2, r, h, x) by {
        assert(prev_at_with(s, r, h, x, fixed_prev(s, r, h, x, Some((n, pv)))));
        assert(s2[descend(s2, r, x, h)]->Leaf_0.prev_page_no == fixed_prev(s, r, h, x, Some((n, pv))));
        match fixed_prev(s, r, h, x, Some((n, pv))) {
            None => {
                assert forall|y: Seq<u8>| bytes_le(y, x) implies #[trigger] descend(s2, r, y, h) == descend(s2, r, x, h) by {
                    assert(descend(s, r, y, h) == descend(s, r, x, h));
                }
            },
            Some(q) => {
                let (a, y) = choose|a: Seq<u8>, y: Seq<u8>|
                    leaf_from(s, r, h, a, x) && #[trigger] next_leaf_at(s, r, h, y, a) && descend(s, r, y, h) == q;
                assert forall|z: Seq<u8>| bytes_le(a, z) && bytes_le(z, x) implies #[trigger] descend(s2, r, z, h)
                    == descend(s2, r, x, h) by {
                    assert(descend(s, r, z, h) == descend(s, r, x, h));
                }
                assert forall|z: Seq<u8>| bytes_le(y, z) && bytes_lt(z, a) implies #[trigger] descend(s2, r, z, h)
                    == descend(s2, r, y, h) by {
                    assert(descend(s, r, z, h) == descend(s, r, y, h));
                }
                assert(leaf_from(s2, r, h, a, x));
                assert(next_leaf_at(s2, r, h, y, a));
            },
        }
    }
}

/// In a well-formed tree the value under `x` is what the leaf at level `h`
/// of its way holds.
pub proof fn lemma_wf_value(s: Map<u32, NodeView>, r: u32, h: nat, x: Seq<u8>)
    requires
        levels_ok(s, r, h),
    ensures
        is_leaf_page(s, descend(s, r, x, h)),
        reaches_leaf(s, r, x),
        leaf_page_of(s, r, x) == descend(s, r, x, h),
        tree_value(s, r, x) == leaf_lookup(s[descend(s, r, x, h)]->Leaf_0.entries, x),
{
    assert(node_fits(s, descend(s, r, x, h), false));
    lemma_leaf_on_path(s, r, x, h);
}

/// A single empty leaf is a well-formed tree of height 0, with its back
/// link right; over pages that are all within the entry bound it is a
/// tree as `tree_ok` asks.
pub proof fn lemma_empty_tree_wf(s: Map<u32, NodeView>, r: u32)
    requires
        s.contains_key(r),
        s[r] == NodeView::Leaf(LeafView { entries: Seq::empty(), prev_page_no: None, next_page_no: None }),
    ensures
        tree_wf(s, r, 0),
        prev_ok(s, r, 0),
        store_bounded(s) ==> tree_ok(s, r, 0),
        forall|x: Seq<u8>| #[trigger] tree_value(s, r, x) is None,
{
    assert forall|x: Seq<u8>, j: nat| j <= 0 implies #[trigger] descend(s, r, x, j) == r by {}
    assert forall|x: Seq<u8>| #[trigger] prev_at(s, r, 0, x) by {
        assert forall|y: Seq<u8>| bytes_le(y, x) implies #[trigger] descend(s, r, y, 0) == descend(s, r, x, 0) by {}
    }
    assert forall|x: Seq<u8>| #[trigger] tree_value(s, r, x) is None by {
        lemma_leaf_on_path(s, r, x, 0);
    }
}

/// Replacing a node by one that routes every key the same way and is a
/// leaf exactly when the old one was keeps every way down.
pub proof fn lemma_ways_kept(s1: Map<u32, NodeView>, s2: Map<u32, NodeView>, r: u32, x: Seq<u8>)
    requires
        forall|q: u32| #[trigger] next_on_path(s1, q, x) == next_on_path(s2, q, x),
    ensures
        forall|n: nat| #[trigger] descend(s2, r, x, n) == descend(s1, r, x, n),
{
    assert forall|n: nat| #[trigger] descend(s2, r, x, n) == descend(s1, r, x, n) by {
        lemma_same_ways(s1, s2, r, x, n);
    }
}

/// Relinking a leaf (changing its neighbours, not its entries) keeps a
/// well-formed tree and every value.
pub proof fn lemma_relink_leaf(s: Map<u32, NodeView>, r: u32, h: nat, p: u32, l2: LeafView)
    requires
        tree_wf(s, r, h),
        is_leaf_page(s, p),
        l2.entries == s[p]->Leaf_0.entries,
        l2.next_page_no == s[p]->Leaf_0.next_page_no,
    ensures
        tree_wf(s.insert(p, NodeView::Leaf(l2)), r, h),
        forall|x: Seq<u8>| #[trigger] tree_value(s.insert(p, NodeView::Leaf(l2)), r, x) == tree_value(s, r, x),
{
    let s2 = s.insert(p, NodeView::Leaf(l2));
    assert forall|x: Seq<u8>, n: nat| #[trigger] descend(s2, r, x, n) == descend(s, r, x, n) by {
        assert forall|q: u32| #[trigger] next_on_path(s, q, x) == next_on_path(s2, q, x) by {}
        lemma_ways_kept(s, s2, r, x);
    }
    assert forall|q: u32| s.contains_key(q) implies (#[trigger] s2[q] is Leaf) == s[q] is Leaf && node_len(s2[q]) == node_len(s[q])
        && (forall|t: int| #[trigger] node_key(s2[q], t) == node_key(s[q], t)) by {}
    assert(levels_ok(s2, r, h)) by {
        assert forall|x: Seq<u8>, j: nat| j <= h implies node_fits(s2, #[trigger] descend(s2, r, x, j), j < h) by {
            assert(node_fits(s, descend(s, r, x, j), j < h));
            let q = descend(s, r, x, j);
            if q != p && s[q] is Internal {
                let n = s[q]->Internal_0;
                assert forall|t: int| 0 <= t <= n.entries.len() implies s2.contains_key(#[trigger] child_at(n, t)) by {
                    assert(s.contains_key(child_at(n, t)));
                }
            }
        }
    }
    assert(ways_unique(s2, r, h)) by {
        assert forall|x: Seq<u8>, y: Seq<u8>, i: nat, j: nat|
            i <= h && j <= h && #[trigger] descend(s2, r, x, i) == #[trigger] descend(s2, r, y, j) implies i == j
            && same_way(s2, r, x, y, i) by {
            assert(descend(s, r, x, i) == descend(s, r, y, j));
            assert forall|l: nat| l <= i implies #[trigger] descend(s2, r, x, l) == descend(s2, r, y, l) by {
                assert(descend(s, r, x, l) == descend(s, r, y, l));
            }
        }
    }
    assert(keys_home(s2, r, h)) by {
        assert forall|x: Seq<u8>, j: nat, t: int|
            j <= h && 0 <= t < node_len(s2[descend(s2, r, x, j)]) implies descend(
            s2,
            r,
            #[trigger] node_key(s2[#[trigger] descend(s2, r, x, j)], t),
            j,
        ) == descend(s2, r, x, j) by {
            let q = descend(s, r, x, j);
            assert(node_fits(s, q, j < h));
            assert(node_key(s2[q], t) == node_key(s[q], t));
            assert(descend(s, r, node_key(s[q], t), j) == q);
            assert(descend(s2, r, node_key(s[q], t), j) == descend(s, r, node_key(s[q], t), j));
        }
    }
    assert forall|x: Seq<u8>| #[trigger] s2[descend(s2, r, x, h)]->Leaf_0.next_page_no == s[descend(s, r, x, h)]->Leaf_0.next_page_no by {}
    lemma_chain_same(s, r, h, s2, r, h);
    assert forall|x: Seq<u8>| #[trigger] tree_value(s2, r, x) == tree_value(s, r, x) by {
        lemma_wf_value(s, r, h, x);
        lemma_wf_value(s2, r, h, x);
    }
}

/// Every key of a leaf after storing `(k, v)` is `k` or a key it held
/// before.
pub proof fn lemma_insert_keys(es: Seq<(Seq<u8>, Seq<u8>)>, k: Seq<u8>, v: Seq<u8>, t: int)
    requires
        leaf_sorted(es),
        0 <= t < leaf_insert_entries(es, k, v).len(),
    ensures
        leaf_insert_entries(es, k, v)[t].0 == k || exists|t0: int| 0 <= t0 < es.len() && #[trigger] es[t0].0
            == leaf_insert_entries(es, k, v)[t].0,
{
    lemma_leaf_position(es, k);
    let p = leaf_position(es, k);
    let ns = leaf_insert_entries(es, k, v);
    if p < es.len() && es[p].0 == k {
        if t != p {
            assert(ns[t] == es[t]);
        }
    } else if t < p {
        assert(ns[t] == es[t]);
    } else if t > p {
        assert(ns[t] == es[t - 1]);
    }
}

/// Storing a pair in the leaf at the end of its key's way keeps a
/// well-formed tree, which then holds the pair and every other key's value
/// as before.
pub proof fn lemma_insert_leaf_wf(s: Map<u32, NodeView>, r: u32, h: nat, k: Seq<u8>, v: Seq<u8>)
    requires
        tree_wf(s, r, h),
    ensures
        ({
            let p = descend(s, r, k, h);
            let s2 = s.insert(p, inserted_leaf(s[p]->Leaf_0, k, v));
            &&& tree_wf(s2, r, h)
            &&& holds_inserted(s, r, s2, r, k, v)
            &&& forall|x: Seq<u8>, n: nat| #[trigger] descend(s2, r, x, n) == descend(s, r, x, n)
            &&& prev_ok(s, r, h) ==> prev_ok(s2, r, h)
        }),
{
    let p = descend(s, r, k, h);
    let l = s[p]->Leaf_0;
    let s2 = s.insert(p, inserted_leaf(l, k, v));
    assert(node_fits(s, p, false));
    assert(on_path(s, r, k, p));
    lemma_insert_in_leaf(s, r, k, v, p);
    lemma_leaf_insert_sorted(l.entries, k, v);
    assert forall|x: Seq<u8>, n: nat| #[trigger] descend(s2, r, x, n) == descend(s, r, x, n) by {
        assert forall|q: u32| #[trigger] next_on_path(s, q, x) == next_on_path(s2, q, x) by {}
        lemma_ways_kept(s, s2, r, x);
    }
    assert(levels_ok(s2, r, h)) by {
        assert forall|x: Seq<u8>, j: nat| j <= h implies node_fits(s2, #[trigger] descend(s2, r, x, j), j < h) by {
            assert(node_fits(s, descend(s, r, x, j), j < h));
            let q = descend(s, r, x, j);
            if q != p && s[q] is Internal {
                let n = s[q]->Internal_0;
                assert forall|t: int| 0 <= t <= n.entries.len() implies s2.contains_key(#[trigger] child_at(n, t)) by {
                    assert(s.contains_key(child_at(n, t)));
                }
            }
        }
    }
    assert(ways_unique(s2, r, h)) by {
        assert forall|x: Seq<u8>, y: Seq<u8>, i: nat, j: nat|
            i <= h && j <= h && #[trigger] descend(s2, r, x, i) == #[trigger] descend(s2, r, y, j) implies i == j
            && same_way(s2, r, x, y, i) by {
            assert(descend(s, r, x, i) == descend(s, r, y, j));
            assert forall|l: nat| l <= i implies #[trigger] descend(s2, r, x, l) == descend(s2, r, y, l) by {
                assert(descend(s, r, x, l) == descend(s, r, y, l));
            }
        }
    }
    assert(keys_home(s2, r, h)) by {
        assert forall|x: Seq<u8>, j: nat, t: int|
            j <= h && 0 <= t < node_len(s2[descend(s2, r, x, j)]) implies descend(
            s2,
            r,
            #[trigger] node_key(s2[#[trigger] descend(s2, r, x, j)], t),
            j,
        ) == descend(s2, r, x, j) by {
            let q = descend(s, r, x, j);
            assert(node_fits(s, q, j < h));
            if q == p {
                // p is reached at level h only
                assert(descend(s, r, k, h) == descend(s, r, x, j));
                assert(j == h);
                let e = node_key(s2[p], t);
                lemma_insert_keys(l.entries, k, v, t);
                if e != k {
                    let t0 = choose|t0: int| 0 <= t0 < l.entries.len() && #[trigger] l.entries[t0].0 == e;
                    assert(node_key(s[q], t0) == e);
                    assert(descend(s, r, e, j) == q);
                }
                assert(descend(s2, r, e, j) == descend(s, r, e, j));
            } else {
                assert(descend(s, r, node_key(s[q], t), j) == q);
                assert(descend(s2, r, node_key(s[q], t), j) == descend(s, r, node_key(s[q], t), j));
            }
        }
    }
    assert forall|x: Seq<u8>| #[trigger] s2[descend(s2, r, x, h)]->Leaf_0.next_page_no == s[descend(s, r, x, h)]->Leaf_0.next_page_no by {}
    lemma_chain_same(s, r, h, s2, r, h);
    if prev_ok(s, r, h) {
        assert forall|x: Seq<u8>| #[trigger] s2[descend(s2, r, x, h)]->Leaf_0.prev_page_no == s[descend(s, r, x, h)]->Leaf_0.prev_page_no by {}
        lemma_prev_same(s, r, h, s2, r, h);
    }
}

/// Two page maps that lead the way down for `x` to the same next page at
/// each of its first `n` pages give the same first `n + 1` pages.
pub proof fn lemma_ways_agree(s1: Map<u32, NodeView>, s2: Map<u32, NodeView>, r: u32, x: Seq<u8>, n: nat)
    requires
        forall|j: nat| j < n ==> next_on_path(s1, #[trigger] descend(s1, r, x, j), x) == next_on_path(
            s2,
            descend(s1, r, x, j),
            x,
        ),
    ensures
        forall|j: nat| j <= n ==> #[trigger] descend(s2, r, x, j) == descend(s1, r, x, j),
    decreases n,
{
    if n > 0 {
        lemma_ways_agree(s1, s2, r, x, (n - 1) as nat);
        lemma_descend_last(s1, r, x, (n - 1) as nat);
        lemma_descend_last(s2, r, x, (n - 1) as nat);
        assert(descend(s1, r, x, (n - 1) as nat) == descend(s2, r, x, (n - 1) as nat));
        assert forall|j: nat| j <= n implies #[trigger] descend(s2, r, x, j) == descend(s1, r, x, j) by {
            if j < n {
                assert(j <= (n - 1) as nat);
            }
        }
    } else {
        assert forall|j: nat| j <= n implies #[trigger] descend(s2, r, x, j) == descend(s1, r, x, j) by {
            assert(j == 0);
        }
    }
}

/// A node above the root with the root as its only child.
pub open spec fn lone_root(r: u32) -> NodeView {
    NodeView::Internal(InternalView { first_child_page_no: r, entries: Seq::empty() })
}

/// Putting a node above the root whose only child is the root makes a
/// well-formed tree one level higher that holds the same values.
pub proof fn lemma_add_root(s: Map<u32, NodeView>, r: u32, h: nat, r2: u32)
    requires
        tree_wf(s, r, h),
        !s.contains_key(r2),
    ensures
        ({
            let s2 = s.insert(r2, lone_root(r));
            &&& tree_wf(s2, r2, h + 1)
            &&& forall|x: Seq<u8>, j: nat| j <= h ==> #[trigger] descend(s2, r2, x, j + 1) == descend(s, r, x, j)
            &&& forall|x: Seq<u8>| #[trigger] tree_value(s2, r2, x) == tree_value(s, r, x)
            &&& prev_ok(s, r, h) ==> prev_ok(s2, r2, h + 1)
        }),
{
    let s2 = s.insert(r2, lone_root(r));
    assert forall|x: Seq<u8>, j: nat| j <= h implies #[trigger] descend(s2, r2, x, j + 1) == descend(s, r, x, j) by {
        assert forall|i: nat| i < h implies next_on_path(s, #[trigger] descend(s, r, x, i), x) == next_on_path(
            s2,
            descend(s, r, x, i),
            x,
        ) by {
            assert(node_fits(s, descend(s, r, x, i), i < h));
        }
        lemma_ways_agree(s, s2, r, x, h);
        assert(next_on_path(s2, r2, x) == r);
        assert(descend(s2, r2, x, j + 1) == descend(s2, r, x, j));
    }
    assert forall|x: Seq<u8>, j: nat| j <= h + 1 && j > 0 implies #[trigger] descend(s2, r2, x, j) == descend(
        s,
        r,
        x,
        (j - 1) as nat,
    ) by {
        assert(descend(s2, r2, x, ((j - 1) as nat) + 1) == descend(s, r, x, (j - 1) as nat));
    }
    assert(levels_ok(s2, r2, h + 1)) by {
        assert forall|x: Seq<u8>, j: nat| j <= h + 1 implies node_fits(s2, #[trigger] descend(s2, r2, x, j), j < h + 1) by {
            if j == 0 {
                let n = InternalView { first_child_page_no: r, entries: Seq::<(Seq<u8>, u32)>::empty() };
                assert(node_fits(s, descend(s, r, x, 0), 0 < h));
                assert forall|t: int| 0 <= t <= n.entries.len() implies s2.contains_key(#[trigger] child_at(n, t)) by {}
            } else {
                let q = descend(s, r, x, (j - 1) as nat);
                assert(node_fits(s, q, j - 1 < h));
                if s[q] is Internal {
                    let n = s[q]->Internal_0;
                    assert forall|t: int| 0 <= t <= n.entries.len() implies s2.contains_key(#[trigger] child_at(n, t)) by {
                        assert(s.contains_key(child_at(n, t)));
                    }
                }
            }
        }
    }
    assert(ways_unique(s2, r2, h + 1)) by {
        assert forall|x: Seq<u8>, y: Seq<u8>, i: nat, j: nat|
            i <= h + 1 && j <= h + 1 && #[trigger] descend(s2, r2, x, i) == #[trigger] descend(s2, r2, y, j) implies i
            == j && same_way(s2, r2, x, y, i) by {
            if i > 0 {
                assert(node_fits(s, descend(s, r, x, (i - 1) as nat), i - 1 < h));
            }
            if j > 0 {
                assert(node_fits(s, descend(s, r, y, (j - 1) as nat), j - 1 < h));
            }
            if i > 0 && j > 0 {
                assert(descend(s, r, x, (i - 1) as nat) == descend(s, r, y, (j - 1) as nat));
                assert forall|l: nat| l <= i implies #[trigger] descend(s2, r2, x, l) == descend(s2, r2, y, l) by {
                    if l > 0 {
                        assert(descend(s, r, x, (l - 1) as nat) == descend(s, r, y, (l - 1) as nat));
                    }
                }
            } else {
                assert(i == 0 && j == 0);
                assert forall|l: nat| l <= i implies #[trigger] descend(s2, r2, x, l) == descend(s2, r2, y, l) by {}
            }
        }
    }
    assert(keys_home(s2, r2, h + 1)) by {
        assert forall|x: Seq<u8>, j: nat, t: int|
            j <= h + 1 && 0 <= t < node_len(s2[descend(s2, r2, x, j)]) implies descend(
            s2,
            r2,
            #[trigger] node_key(s2[#[trigger] descend(s2, r2, x, j)], t),
            j,
        ) == descend(s2, r2, x, j) by {
            if j > 0 {
                let q = descend(s, r, x, (j - 1) as nat);
                assert(node_fits(s, q, j - 1 < h));
                let e = node_key(s[q], t);
                assert(descend(s, r, e, (j - 1) as nat) == q);
            }
        }
    }
    assert forall|x: Seq<u8>| #[trigger] descend(s2, r2, x, h + 1) == descend(s, r, x, h) by {
        assert(descend(s2, r2, x, h + 1) == descend(s, r, x, h));
    }
    assert forall|x: Seq<u8>| #[trigger] s2[descend(s2, r2, x, h + 1)]->Leaf_0.next_page_no == s[descend(s, r, x, h)]->Leaf_0.next_page_no by {
        assert(node_fits(s, descend(s, r, x, h), false));
    }
    lemma_chain_same(s, r, h, s2, r2, h + 1);
    if prev_ok(s, r, h) {
        assert forall|x: Seq<u8>| #[trigger] s2[descend(s2, r2, x, h + 1)]->Leaf_0.prev_page_no == s[descend(s, r, x, h)]->Leaf_0.prev_page_no by {
            assert(node_fits(s, descend(s, r, x, h), false));
        }
        lemma_prev_same(s, r, h, s2, r2, h + 1);
    }
    assert forall|x: Seq<u8>| #[trigger] tree_value(s2, r2, x) == tree_value(s, r, x) by {
        lemma_wf_value(s, r, h, x);
        lemma_wf_value(s2, r2, h + 1, x);
    }
}

// ── splitting a node ──
/// `cl` and `cr` are the halves of node `cn` split at entry `mid`, with `u`
/// the key that separates them: a leaf keeps the entries before `mid` on
/// the left and the rest on the right; an internal node moves entry `mid`
/// up, its child becoming the right half's first child.
pub open spec fn split_halves(cn: NodeView, mid: int, cl: NodeView, cr: NodeView, u: Seq<u8>, m: u32) -> bool {
    match cn {
        NodeView::Leaf(l) => {
            &&& 1 <= mid < l.entries.len()
            &&& cl is Leaf && cl->Leaf_0.entries == l.entries.subrange(0, mid)
            &&& cr is Leaf && cr->Leaf_0.entries == l.entries.subrange(mid, l.entries.len() as int)
            &&& u == l.entries[mid].0
            &&& cl->Leaf_0.next_page_no == Some(m)
            &&& cr->Leaf_0.next_page_no == l.next_page_no
        },
        NodeView::Internal(n) => {
            &&& 1 <= mid < n.entries.len()
            &&& cl == NodeView::Internal(
                InternalView { first_child_page_no: n.first_child_page_no, entries: n.entries.subrange(0, mid) },
            )
            &&& cr == NodeView::Internal(
                InternalView {
                    first_child_page_no: n.entries[mid].1,
                    entries: n.entries.subrange(mid + 1, n.entries.len() as int),
                },
            )
            &&& u == n.entries[mid].0
        },
    }
}

/// An internal node that gained the entry `(u, m)` at its position.
pub open spec fn gained(gn: NodeView, u: Seq<u8>, m: u32) -> NodeView {
    match gn {
        NodeView::Internal(n) => NodeView::Internal(
            InternalView {
                first_child_page_no: n.first_child_page_no,
                entries: n.entries.insert(internal_position(n.entries, u), (u, m)),
            },
        ),
        _ => gn,
    }
}

/// The pages after splitting the node at level `d` of `k`'s way into `cl`
/// (in place) and `cr` (at the new page `m`), its parent gaining `(u, m)`.
pub open spec fn split_store(
    w: Map<u32, NodeView>,
    r: u32,
    k: Seq<u8>,
    d: nat,
    m: u32,
    cl: NodeView,
    cr: NodeView,
    u: Seq<u8>,
) -> Map<u32, NodeView> {
    let c = descend(w, r, k, d);
    let g = descend(w, r, k, (d - 1) as nat);
    w.insert(m, cr).insert(c, cl).insert(g, gained(w[g], u, m))
}

/// What the parent of a split node looks like: the separating key is new
/// to it, and after gaining `(u, m)` it sends exactly the keys from `u` on
/// that it sent to the split node to `m`.
pub proof fn lemma_split_parent(
    w: Map<u32, NodeView>,
    r: u32,
    h: nat,
    k: Seq<u8>,
    d: nat,
    m: u32,
    cl: NodeView,
    cr: NodeView,
    u: Seq<u8>,
    mid: int,
)
    requires
        tree_wf(w, r, h),
        1 <= d <= h,
        !w.contains_key(m),
        split_halves(w[descend(w, r, k, d)], mid, cl, cr, u, m),
    ensures
        ({
            let c = descend(w, r, k, d);
            let g = descend(w, r, k, (d - 1) as nat);
            let gn = w[g]->Internal_0;
            let gn2 = gained(w[g], u, m)->Internal_0;
            &&& w[g] is Internal
            &&& w.contains_key(c) && w.contains_key(g) && c != g && c != m && g != m
            &&& descend(w, r, u, d) == c
            &&& descend(w, r, u, (d - 1) as nat) == g
            &&& fresh_key(gn.entries, u)
            &&& gained(w[g], u, m) is Internal
            &&& gn2.first_child_page_no == gn.first_child_page_no
            &&& internal_strict(gn2.entries)
            &&& forall|x: Seq<u8>| #[trigger] route(gn2.first_child_page_no, gn2.entries, x) == if bytes_le(u, x)
                && route(gn.first_child_page_no, gn.entries, x) == c {
                m
            } else {
                route(gn.first_child_page_no, gn.entries, x)
            }
            &&& forall|x: Seq<u8>| descend(w, r, x, (d - 1) as nat) == g ==> #[trigger] descend(w, r, x, d) == route(
                gn.first_child_page_no,
                gn.entries,
                x,
            )
        }),
{
    let c = descend(w, r, k, d);
    let g = descend(w, r, k, (d - 1) as nat);
    assert(node_fits(w, c, d < h));
    assert(node_fits(w, g, true));
    let gn = w[g]->Internal_0;
    assert forall|x: Seq<u8>| descend(w, r, x, (d - 1) as nat) == g implies #[trigger] descend(w, r, x, d) == route(
        gn.first_child_page_no,
        gn.entries,
        x,
    ) by {
        lemma_descend_last(w, r, x, (d - 1) as nat);
    }
    // the separating key and the first key of the left half live in c
    let e0 = node_key(w[c], 0);
    assert(node_key(w[c], mid) == u);
    assert(descend(w, r, u, d) == c);
    assert(descend(w, r, e0, d) == c);
    assert(same_way(w, r, u, k, d));
    assert(same_way(w, r, e0, k, d));
    assert(descend(w, r, u, (d - 1) as nat) == g);
    assert(descend(w, r, e0, (d - 1) as nat) == g);
    assert(bytes_lt(e0, u)) by {
        match w[c] {
            NodeView::Leaf(l) => {
                assert(bytes_lt(l.entries[0].0, l.entries[mid].0));
            },
            NodeView::Internal(n) => {
                assert(bytes_lt(n.entries[0].0, n.entries[mid].0));
            },
        }
    }
    lemma_route_slot(gn.first_child_page_no, gn.entries, u);
    lemma_route_slot(gn.first_child_page_no, gn.entries, e0);
    lemma_slot_bounds(gn.entries, u);
    lemma_slot_bounds(gn.entries, e0);
    assert(fresh_key(gn.entries, u)) by {
        assert forall|i: int| 0 <= i < gn.entries.len() implies #[trigger] gn.entries[i].0 != u by {
            if gn.entries[i].0 == u {
                // u's slot is i + 1, e0's slot is at most i: different children, yet both are c
                assert forall|a: int| 0 <= a < i + 1 implies bytes_le(#[trigger] gn.entries[a].0, u) by {
                    if a < i {
                        assert(bytes_lt(gn.entries[a].0, gn.entries[i].0));
                    }
                }
                assert forall|a: int| i + 1 <= a < gn.entries.len() implies bytes_lt(u, #[trigger] gn.entries[a].0) by {
                    assert(bytes_lt(gn.entries[i].0, gn.entries[a].0));
                }
                lemma_slot_unique(gn.entries, u, i + 1);
                if slot(gn.entries, e0) > i {
                    assert(bytes_le(gn.entries[i].0, e0));
                    lemma_bytes_le_lt_transitive(u, e0, u);
                    lemma_bytes_lt_irreflexive(u);
                }
                assert(child_at(gn, slot(gn.entries, e0)) != child_at(gn, i + 1));
            }
        }
    }
    assert forall|x: Seq<u8>| #[trigger] route(
        gained(w[g], u, m)->Internal_0.first_child_page_no,
        gained(w[g], u, m)->Internal_0.entries,
        x,
    ) == if bytes_le(u, x) && route(gn.first_child_page_no, gn.entries, x) == c {
        m
    } else {
        route(gn.first_child_page_no, gn.entries, x)
    } by {
        lemma_insert_route(gn.first_child_page_no, gn.entries, u, m, x);
        lemma_route_slot(gn.first_child_page_no, gn.entries, x);
        lemma_slot_bounds(gn.entries, x);
        // same child means same slot: the children are distinct
        if slot(gn.entries, x) != slot(gn.entries, u) {
            assert(child_at(gn, slot(gn.entries, x)) != child_at(gn, slot(gn.entries, u)));
        }
    }
    lemma_insert_route(gn.first_child_page_no, gn.entries, u, m, u);
    assert(w.contains_key(c));
    assert(descend(w, r, k, d) != descend(w, r, k, (d - 1) as nat)) by {
        if c == g {
            assert(d == (d - 1) as nat);
        }
    }
}

/// The way down for `x` after a split: the same pages, except that a key
/// from `u` on that went through the split node now goes through `m`.
pub open spec fn split_way(
    w: Map<u32, NodeView>,
    r: u32,
    k: Seq<u8>,
    d: nat,
    m: u32,
    u: Seq<u8>,
    x: Seq<u8>,
    j: nat,
) -> u32 {
    if j == d && descend(w, r, x, d) == descend(w, r, k, d) && bytes_le(u, x) {
        m
    } else {
        descend(w, r, x, j)
    }
}

/// After a split, level `j` of the way down for `x` is as `split_way` says.
pub proof fn lemma_split_way_at(
    w: Map<u32, NodeView>,
    r: u32,
    h: nat,
    k: Seq<u8>,
    d: nat,
    m: u32,
    cl: NodeView,
    cr: NodeView,
    u: Seq<u8>,
    mid: int,
    x: Seq<u8>,
    j: nat,
)
    requires
        tree_wf(w, r, h),
        1 <= d <= h,
        !w.contains_key(m),
        split_halves(w[descend(w, r, k, d)], mid, cl, cr, u, m),
        j <= h,
    ensures
        descend(split_store(w, r, k, d, m, cl, cr, u), r, x, j) == split_way(w, r, k, d, m, u, x, j),
    decreases j,
{
    let w2 = split_store(w, r, k, d, m, cl, cr, u);
    let c = descend(w, r, k, d);
    let g = descend(w, r, k, (d - 1) as nat);
    lemma_split_parent(w, r, h, k, d, m, cl, cr, u, mid);
    if j > 0 {
        let i = (j - 1) as nat;
        lemma_split_way_at(w, r, h, k, d, m, cl, cr, u, mid, x, i);
        lemma_descend_last(w, r, x, i);
        lemma_descend_last(w2, r, x, i);
        let pi = descend(w, r, x, i);
        assert(node_fits(w, pi, i < h));
        // the pages of the way are where they are only at their own level
        if pi == g {
            assert(descend(w, r, x, i) == descend(w, r, k, (d - 1) as nat));
            assert(i == (d - 1) as nat);
        }
        if pi == c {
            assert(descend(w, r, x, i) == descend(w, r, k, d));
            assert(i == d);
        }
        if j == d {
            if pi != g {
                assert(w2[pi] == w[pi]);
                if descend(w, r, x, d) == c {
                    assert(same_way(w, r, x, k, d));
                    assert(descend(w, r, x, (d - 1) as nat) == g);
                }
            }
        } else if i == d && pi == c {
            assert(d < h);
            let n = w[c]->Internal_0;
            lemma_strict_sorted(n.entries);
            lemma_internal_split_route(n.first_child_page_no, n.entries, mid, x);
            lemma_bytes_lt_trichotomy(x, u);
            if bytes_le(u, x) {
                assert(w2[m] == cr);
                assert(n.entries.subrange(mid + 1, n.entries.len() as int) == cr->Internal_0.entries);
            } else {
                assert(w2[c] == cl);
            }
        } else {
            assert(pi != m);
            assert(w2[pi] == w[pi]);
        }
    }
}

/// The halves of a split node fit where the node did, their keys are the
/// node's keys before and after `u`, and their children are the node's
/// children before and after the separating entry.
pub proof fn lemma_halves(w: Map<u32, NodeView>, cn: NodeView, internal: bool, mid: int, cl: NodeView, cr: NodeView, u: Seq<u8>, m: u32)
    requires
        match cn {
            NodeView::Internal(n) => internal && internal_strict(n.entries) && children_ok(w, n),
            NodeView::Leaf(l) => !internal && leaf_sorted(l.entries),
        },
        split_halves(cn, mid, cl, cr, u, m),
    ensures
        match cl {
            NodeView::Internal(n) => internal && internal_strict(n.entries) && children_ok(w, n),
            NodeView::Leaf(l) => !internal && leaf_sorted(l.entries),
        },
        match cr {
            NodeView::Internal(n) => internal && internal_strict(n.entries) && children_ok(w, n),
            NodeView::Leaf(l) => !internal && leaf_sorted(l.entries),
        },
        node_len(cl) == mid,
        forall|t: int| 0 <= t < mid ==> #[trigger] node_key(cl, t) == node_key(cn, t) && bytes_lt(node_key(cn, t), u),
        internal ==> node_len(cr) == node_len(cn) - mid - 1,
        !internal ==> node_len(cr) == node_len(cn) - mid,
        internal ==> forall|t: int| 0 <= t < node_len(cr) ==> #[trigger] node_key(cr, t) == node_key(cn, t + mid + 1)
            && bytes_lt(u, node_key(cn, t + mid + 1)),
        !internal ==> forall|t: int| 0 <= t < node_len(cr) ==> #[trigger] node_key(cr, t) == node_key(cn, t + mid)
            && bytes_le(u, node_key(cn, t + mid)),
        internal ==> forall|t: int| 0 <= t <= mid ==> #[trigger] child_at(cl->Internal_0, t) == child_at(cn->Internal_0, t),
        internal ==> forall|t: int| 0 <= t <= node_len(cr) ==> #[trigger] child_at(cr->Internal_0, t) == child_at(
            cn->Internal_0,
            t + mid + 1,
        ),
{
    match cn {
        NodeView::Leaf(l) => {
            lemma_leaf_split_lookup(l.entries, mid, u);
            let left = l.entries.subrange(0, mid);
            let right = l.entries.subrange(mid, l.entries.len() as int);
            assert forall|t: int| 0 <= t < mid implies #[trigger] node_key(cl, t) == node_key(cn, t) && bytes_lt(
                node_key(cn, t),
                u,
            ) by {
                assert(left[t] == l.entries[t]);
            }
            assert forall|t: int| 0 <= t < node_len(cr) implies #[trigger] node_key(cr, t) == node_key(cn, t + mid)
                && bytes_le(u, node_key(cn, t + mid)) by {
                assert(right[t] == l.entries[t + mid]);
            }
        },
        NodeView::Internal(n) => {
            let es = n.entries;
            let ln = cl->Internal_0;
            let rn = cr->Internal_0;
            assert(internal_strict(ln.entries)) by {
                assert forall|a: int, b: int| 0 <= a < b < ln.entries.len() implies bytes_lt(
                    #[trigger] ln.entries[a].0,
                    #[trigger] ln.entries[b].0,
                ) by {
                    assert(ln.entries[a] == es[a] && ln.entries[b] == es[b]);
                }
            }
            assert(internal_strict(rn.entries)) by {
                assert forall|a: int, b: int| 0 <= a < b < rn.entries.len() implies bytes_lt(
                    #[trigger] rn.entries[a].0,
                    #[trigger] rn.entries[b].0,
                ) by {
                    assert(rn.entries[a] == es[a + mid + 1] && rn.entries[b] == es[b + mid + 1]);
                }
            }
            assert forall|t: int| 0 <= t <= mid implies #[trigger] child_at(ln, t) == child_at(n, t) by {
                if t > 0 {
                    assert(ln.entries[t - 1] == es[t - 1]);
                }
            }
            assert forall|t: int| 0 <= t <= rn.entries.len() implies #[trigger] child_at(rn, t) == child_at(
                n,
                t + mid + 1,
            ) by {
                if t > 0 {
                    assert(rn.entries[t - 1] == es[t + mid]);
                }
            }
            assert(children_ok(w, ln)) by {
                assert forall|a: int, b: int| 0 <= a < b <= ln.entries.len() implies #[trigger] child_at(ln, a)
                    != #[trigger] child_at(ln, b) by {
                    assert(child_at(ln, a) == child_at(n, a) && child_at(ln, b) == child_at(n, b));
                }
                assert forall|t: int| 0 <= t <= ln.entries.len() implies w.contains_key(#[trigger] child_at(ln, t)) by {
                    assert(child_at(ln, t) == child_at(n, t));
                }
            }
            assert(children_ok(w, rn)) by {
                assert forall|a: int, b: int| 0 <= a < b <= rn.entries.len() implies #[trigger] child_at(rn, a)
                    != #[trigger] child_at(rn, b) by {
                    assert(child_at(rn, a) == child_at(n, a + mid + 1) && child_at(rn, b) == child_at(n, b + mid + 1));
                }
                assert forall|t: int| 0 <= t <= rn.entries.len() implies w.contains_key(#[trigger] child_at(rn, t)) by {
                    assert(child_at(rn, t) == child_at(n, t + mid + 1));
                }
            }
            assert forall|t: int| 0 <= t < mid implies #[trigger] node_key(cl, t) == node_key(cn, t) && bytes_lt(
                node_key(cn, t),
                u,
            ) by {
                assert(ln.entries[t] == es[t]);
            }
            assert forall|t: int| 0 <= t < node_len(cr) implies #[trigger] node_key(cr, t) == node_key(cn, t + mid + 1)
                && bytes_lt(u, node_key(cn, t + mid + 1)) by {
                assert(rn.entries[t] == es[t + mid + 1]);
            }
        },
    }
}

/// After a split the leaves are still chained in key order: a split leaf
/// links to its new right half, which links to where the leaf linked.
pub proof fn lemma_split_chain(
    w: Map<u32, NodeView>,
    r: u32,
    h: nat,
    k: Seq<u8>,
    d: nat,
    m: u32,
    cl: NodeView,
    cr: NodeView,
    u: Seq<u8>,
    mid: int,
    w2: Map<u32, NodeView>,
)
    requires
        tree_wf(w, r, h),
        1 <= d <= h,
        !w.contains_key(m),
        split_halves(w[descend(w, r, k, d)], mid, cl, cr, u, m),
        w2 == split_store(w, r, k, d, m, cl, cr, u),
        forall|x: Seq<u8>, j: nat| j <= h ==> #[trigger] descend(w2, r, x, j) == split_way(w, r, k, d, m, u, x, j),
    ensures
        chain_ok(w2, r, h),
{
    let c = descend(w, r, k, d);
    let g = descend(w, r, k, (d - 1) as nat);
    lemma_split_parent(w, r, h, k, d, m, cl, cr, u, mid);
    assert(w2[m] == cr && w2[c] == cl && w2[g] == gained(w[g], u, m));
    assert forall|x: Seq<u8>| #[trigger] descend(w, r, x, h) != m by {
        assert(node_fits(w, descend(w, r, x, h), false));
    }
    if d < h {
        assert forall|x: Seq<u8>| #[trigger] descend(w2, r, x, h) == descend(w, r, x, h) by {
            assert(descend(w2, r, x, h) == split_way(w, r, k, d, m, u, x, h));
        }
        assert forall|x: Seq<u8>| #[trigger] w2[descend(w2, r, x, h)]->Leaf_0.next_page_no == w[descend(w, r, x, h)]->Leaf_0.next_page_no by {
            let q = descend(w, r, x, h);
            assert(node_fits(w, q, false));
            assert(q != c && q != g);
        }
        lemma_chain_same(w, r, h, w2, r, h);
    } else {
        let l = w[c]->Leaf_0;
        let e0 = node_key(w[c], 0);
        assert(node_fits(w, c, false));
        assert(node_key(w[c], mid) == u);
        assert(descend(w, r, u, h) == c);
        assert(descend(w, r, e0, h) == c);
        assert(bytes_lt(e0, u)) by {
            assert(bytes_lt(l.entries[0].0, l.entries[mid].0));
        }
        assert forall|x: Seq<u8>| #[trigger] descend(w2, r, x, h) == split_way(w, r, k, d, m, u, x, h) by {}
        assert forall|x: Seq<u8>| #[trigger] chain_at(w2, r, h, x) by {
            let lx = descend(w, r, x, h);
            assert(chain_at(w, r, h, x));
            assert(node_fits(w, lx, false));
            if lx == c && bytes_le(u, x) {
                // x is in the right half, which links where the leaf did
                match l.next_page_no {
                    None => {
                        assert forall|y: Seq<u8>| bytes_le(x, y) implies #[trigger] descend(w2, r, y, h) == descend(w2, r, x, h) by {
                            assert(descend(w, r, y, h) == c);
                            if !bytes_le(u, y) {
                                lemma_bytes_lt_trichotomy(u, y);
                                lemma_bytes_lt_le_transitive(y, u, x);
                                lemma_bytes_le_lt_transitive(x, y, x);
                                lemma_bytes_lt_irreflexive(x);
                            }
                        }
                    },
                    Some(n) => {
                        let y0 = choose|y: Seq<u8>| #[trigger] next_leaf_at(w, r, h, x, y) && descend(w, r, y, h) == n;
                        assert(descend(w2, r, y0, h) == n);
                        assert forall|z: Seq<u8>| bytes_le(x, z) && bytes_lt(z, y0) implies #[trigger] descend(w2, r, z, h)
                            == descend(w2, r, x, h) by {
                            assert(descend(w, r, z, h) == c);
                            if !bytes_le(u, z) {
                                lemma_bytes_lt_trichotomy(u, z);
                                lemma_bytes_lt_le_transitive(z, u, x);
                                lemma_bytes_le_lt_transitive(x, z, x);
                                lemma_bytes_lt_irreflexive(x);
                            }
                        }
                        assert(next_leaf_at(w2, r, h, x, y0));
                    },
                }
            } else if lx == c {
                // x is in the left half, which links to the right half
                lemma_bytes_lt_trichotomy(u, x);
                assert(bytes_lt(x, u));
                assert(descend(w2, r, u, h) == m);
                assert forall|z: Seq<u8>| bytes_le(x, z) && bytes_lt(z, u) implies #[trigger] descend(w2, r, z, h)
                    == descend(w2, r, x, h) by {
                    lemma_leaf_convex(w, r, h, x, z, u);
                    lemma_bytes_lt_trichotomy(u, z);
                }
                assert(next_leaf_at(w2, r, h, x, u));
            } else {
                assert(lx != g);
                assert(w2[lx] == w[lx]);
                match w[lx]->Leaf_0.next_page_no {
                    None => {
                        assert forall|y: Seq<u8>| bytes_le(x, y) implies #[trigger] descend(w2, r, y, h) == descend(w2, r, x, h) by {
                            assert(descend(w, r, y, h) == lx);
                        }
                    },
                    Some(n) => {
                        let y0 = choose|y: Seq<u8>| #[trigger] next_leaf_at(w, r, h, x, y) && descend(w, r, y, h) == n;
                        if n == c {
                            // the split leaf's left half still comes right after x's leaf
                            if bytes_le(u, y0) {
                                lemma_bytes_lt_le_transitive(e0, u, y0);
                                lemma_bytes_lt_trichotomy(e0, x);
                                if bytes_lt(e0, x) {
                                    lemma_leaf_convex(w, r, h, e0, x, y0);
                                } else if e0 == x {
                                } else {
                                    assert(descend(w, r, e0, h) == lx);
                                }
                            }
                            lemma_bytes_lt_trichotomy(u, y0);
                        }
                        assert forall|z: Seq<u8>| bytes_le(x, z) && bytes_lt(z, y0) implies #[trigger] descend(w2, r, z, h)
                            == descend(w2, r, x, h) by {
                            assert(descend(w, r, z, h) == lx);
                        }
                        assert(next_leaf_at(w2, r, h, x, y0));
                    },
                }
            }
        }
    }
}

/// The back link to put right after splitting node `cn` into a new page
/// `m`: a split leaf's old next leaf must link back to `m`.
pub open spec fn split_fix(cn: NodeView, m: u32) -> Option<(u32, u32)> {
    match cn {
        NodeView::Leaf(l) => match l.next_page_no {
            Some(n) => Some((n, m)),
            None => None,
        },
        NodeView::Internal(_) => None,
    }
}

/// After a split the back links stay right, except that a split leaf's old
/// next leaf must now link back to the new right half.
pub proof fn lemma_split_prev(
    w: Map<u32, NodeView>,
    r: u32,
    h: nat,
    k: Seq<u8>,
    d: nat,
    m: u32,
    cl: NodeView,
    cr: NodeView,
    u: Seq<u8>,
    mid: int,
    w2: Map<u32, NodeView>,
)
    requires
        tree_wf(w, r, h),
        prev_ok(w, r, h),
        1 <= d <= h,
        !w.contains_key(m),
        split_halves(w[descend(w, r, k, d)], mid, cl, cr, u, m),
        d == h ==> cl->Leaf_0.prev_page_no == w[descend(w, r, k, d)]->Leaf_0.prev_page_no
            && cr->Leaf_0.prev_page_no == Some(descend(w, r, k, d)),
        w2 == split_store(w, r, k, d, m, cl, cr, u),
        forall|x: Seq<u8>, j: nat| j <= h ==> #[trigger] descend(w2, r, x, j) == split_way(w, r, k, d, m, u, x, j),
    ensures
        prev_ok_fix(w2, r, h, split_fix(w[descend(w, r, k, d)], m)),
{
    let c = descend(w, r, k, d);
    let g = descend(w, r, k, (d - 1) as nat);
    lemma_split_parent(w, r, h, k, d, m, cl, cr, u, mid);
    assert(w2[m] == cr && w2[c] == cl && w2[g] == gained(w[g], u, m));
    assert forall|x: Seq<u8>| #[trigger] descend(w, r, x, h) != m by {
        assert(node_fits(w, descend(w, r, x, h), false));
    }
    if d < h {
        assert(node_fits(w, c, true));
        assert forall|x: Seq<u8>| #[trigger] descend(w2, r, x, h) == descend(w, r, x, h) by {
            assert(descend(w2, r, x, h) == split_way(w, r, k, d, m, u, x, h));
        }
        assert forall|x: Seq<u8>| #[trigger] w2[descend(w2, r, x, h)]->Leaf_0.prev_page_no == w[descend(w, r, x, h)]->Leaf_0.prev_page_no by {
            let q = descend(w, r, x, h);
            assert(node_fits(w, q, false));
            assert(q != c && q != g);
        }
        lemma_prev_same(w, r, h, w2, r, h);
        assert forall|x: Seq<u8>| #[trigger] prev_at_with(w2, r, h, x, fixed_prev(w2, r, h, x, split_fix(w[c], m))) by {
            assert(prev_at(w2, r, h, x));
        }
    } else {
        let l = w[c]->Leaf_0;
        let fix = split_fix(w[c], m);
        let e0 = node_key(w[c], 0);
        assert(node_fits(w, c, false));
        assert(node_key(w[c], mid) == u);
        assert(descend(w, r, u, h) == c);
        assert(descend(w, r, e0, h) == c);
        assert(bytes_lt(e0, u)) by {
            assert(bytes_lt(l.entries[0].0, l.entries[mid].0));
        }
        assert forall|x: Seq<u8>| #[trigger] descend(w2, r, x, h) == split_way(w, r, k, d, m, u, x, h) by {}
        // the leaf after c, if any
        assert(chain_at(w, r, h, e0));
        if l.next_page_no is Some {
            let y1 = choose|y: Seq<u8>| #[trigger] next_leaf_at(w, r, h, e0, y) && descend(w, r, y, h) == l.next_page_no->Some_0;
            assert(node_fits(w, descend(w, r, y1, h), false));
        }
        assert forall|x: Seq<u8>| #[trigger] prev_at_with(w2, r, h, x, fixed_prev(w2, r, h, x, fix)) by {
            let lx = descend(w, r, x, h);
            assert(prev_at(w, r, h, x));
            assert(node_fits(w, lx, false));
            if lx == c && bytes_le(u, x) {
                // the right half links back to the left half
                assert(fixed_prev(w2, r, h, x, fix) == Some(c));
                assert forall|z: Seq<u8>| bytes_le(u, z) && bytes_le(z, x) implies #[trigger] descend(w2, r, z, h)
                    == descend(w2, r, x, h) by {
                    lemma_leaf_convex(w, r, h, u, z, x);
                }
                lemma_bytes_lt_trichotomy(u, e0);
                assert(descend(w2, r, e0, h) == c);
                assert forall|z: Seq<u8>| bytes_le(e0, z) && bytes_lt(z, u) implies #[trigger] descend(w2, r, z, h)
                    == descend(w2, r, e0, h) by {
                    lemma_leaf_convex(w, r, h, e0, z, u);
                    lemma_bytes_lt_trichotomy(u, z);
                }
                assert(leaf_from(w2, r, h, u, x));
                assert(next_leaf_at(w2, r, h, e0, u));
            } else if lx == c {
                // the left half keeps the leaf's back link
                lemma_bytes_lt_trichotomy(u, x);
                assert(fixed_prev(w2, r, h, x, fix) == l.prev_page_no);
                match l.prev_page_no {
                    None => {
                        assert forall|y: Seq<u8>| bytes_le(y, x) implies #[trigger] descend(w2, r, y, h) == descend(w2, r, x, h) by {
                            assert(descend(w, r, y, h) == c);
                            lemma_bytes_lt_trichotomy(u, y);
                            if bytes_le(u, y) {
                                lemma_bytes_le_lt_transitive(u, y, x);
                                lemma_bytes_lt_transitive(u, x, u);
                                lemma_bytes_lt_irreflexive(u);
                            }
                        }
                    },
                    Some(q) => {
                        let (a, y) = choose|a: Seq<u8>, y: Seq<u8>|
                            leaf_from(w, r, h, a, x) && #[trigger] next_leaf_at(w, r, h, y, a) && descend(w, r, y, h) == q;
                        assert forall|z: Seq<u8>| bytes_le(a, z) && bytes_le(z, x) implies #[trigger] descend(w2, r, z, h)
                            == descend(w2, r, x, h) by {
                            assert(descend(w, r, z, h) == c);
                            lemma_bytes_lt_trichotomy(u, z);
                            if bytes_le(u, z) {
                                lemma_bytes_le_lt_transitive(u, z, x);
                                lemma_bytes_lt_transitive(u, x, u);
                                lemma_bytes_lt_irreflexive(u);
                            }
                        }
                        assert forall|z: Seq<u8>| bytes_le(y, z) && bytes_lt(z, a) implies #[trigger] descend(w2, r, z, h)
                            == descend(w2, r, y, h) by {
                            assert(descend(w, r, z, h) == q);
                        }
                        assert(descend(w, r, a, h) == c);
                        lemma_bytes_lt_trichotomy(u, a);
                        if bytes_le(u, a) {
                            lemma_bytes_le_lt_transitive(u, a, x);
                            lemma_bytes_lt_transitive(u, x, u);
                            lemma_bytes_lt_irreflexive(u);
                        }
                        assert(leaf_from(w2, r, h, a, x));
                        assert(next_leaf_at(w2, r, h, y, a));
                    },
                }
            } else if fix is Some && lx == fix->Some_0.0 {
                // the old next leaf of c: it is to link back to the right half
                let y1 = choose|y: Seq<u8>| #[trigger] next_leaf_at(w, r, h, e0, y) && descend(w, r, y, h) == l.next_page_no->Some_0;
                assert(fixed_prev(w2, r, h, x, fix) == Some(m));
                // y1 is at most x, and after u
                lemma_bytes_lt_trichotomy(y1, x);
                if bytes_lt(x, y1) {
                    lemma_bytes_lt_trichotomy(e0, x);
                    if bytes_le(e0, x) {
                        assert(descend(w, r, x, h) == c);
                    } else {
                        lemma_leaf_convex(w, r, h, x, e0, y1);
                    }
                }
                lemma_bytes_lt_trichotomy(u, y1);
                if bytes_le(y1, u) {
                    lemma_leaf_convex(w, r, h, e0, y1, u);
                }
                assert forall|z: Seq<u8>| bytes_le(y1, z) && bytes_le(z, x) implies #[trigger] descend(w2, r, z, h)
                    == descend(w2, r, x, h) by {
                    lemma_leaf_convex(w, r, h, y1, z, x);
                }
                assert forall|z: Seq<u8>| bytes_le(u, z) && bytes_lt(z, y1) implies #[trigger] descend(w2, r, z, h)
                    == descend(w2, r, u, h) by {
                    lemma_bytes_lt_le_transitive(e0, u, z);
                    assert(descend(w, r, z, h) == c);
                }
                assert(leaf_from(w2, r, h, y1, x));
                assert(next_leaf_at(w2, r, h, u, y1));
            } else {
                assert(lx != g);
                assert(w2[lx] == w[lx]);
                assert(fixed_prev(w2, r, h, x, fix) == w[lx]->Leaf_0.prev_page_no);
                match w[lx]->Leaf_0.prev_page_no {
                    None => {
                        assert forall|y: Seq<u8>| bytes_le(y, x) implies #[trigger] descend(w2, r, y, h) == descend(w2, r, x, h) by {
                            assert(descend(w, r, y, h) == lx);
                        }
                    },
                    Some(q) => {
                        let (a, y) = choose|a: Seq<u8>, y: Seq<u8>|
                            leaf_from(w, r, h, a, x) && #[trigger] next_leaf_at(w, r, h, y, a) && descend(w, r, y, h) == q;
                        assert(descend(w, r, a, h) == lx);
                        if q == c {
                            // then lx is the leaf after c, which it is not
                            assert(chain_at(w, r, h, y));
                            if l.next_page_no is Some {
                                let y2 = choose|yy: Seq<u8>| #[trigger] next_leaf_at(w, r, h, y, yy) && descend(w, r, yy, h)
                                    == l.next_page_no->Some_0;
                                lemma_bytes_lt_trichotomy(a, y2);
                                if bytes_lt(a, y2) {
                                    assert(descend(w, r, a, h) == c);
                                } else if bytes_lt(y2, a) {
                                    assert(descend(w, r, y2, h) == c);
                                }
                            } else {
                                assert(descend(w, r, a, h) == c);
                            }
                        }
                        assert forall|z: Seq<u8>| bytes_le(a, z) && bytes_le(z, x) implies #[trigger] descend(w2, r, z, h)
                            == descend(w2, r, x, h) by {
                            assert(descend(w, r, z, h) == lx);
                        }
                        assert forall|z: Seq<u8>| bytes_le(y, z) && bytes_lt(z, a) implies #[trigger] descend(w2, r, z, h)
                            == descend(w2, r, y, h) by {
                            assert(descend(w, r, z, h) == q);
                        }
                        assert(leaf_from(w2, r, h, a, x));
                        assert(next_leaf_at(w2, r, h, y, a));
                    },
                }
            }
        }
    }
}

/// Splitting the node at level `d >= 1` of `k`'s way into halves, the right
/// one at a new page whose entry the parent gains, keeps a well-formed tree
/// that holds the same values.
#[verifier::rlimit(40)]
pub proof fn lemma_split_wf(
    w: Map<u32, NodeView>,
    r: u32,
    h: nat,
    k: Seq<u8>,
    d: nat,
    m: u32,
    cl: NodeView,
    cr: NodeView,
    u: Seq<u8>,
    mid: int,
)
    requires
        tree_wf(w, r, h),
        1 <= d <= h,
        !w.contains_key(m),
        split_halves(w[descend(w, r, k, d)], mid, cl, cr, u, m),
    ensures
        tree_wf(split_store(w, r, k, d, m, cl, cr, u), r, h),
        forall|x: Seq<u8>| #[trigger] tree_value(split_store(w, r, k, d, m, cl, cr, u), r, x) == tree_value(w, r, x),
        forall|x: Seq<u8>, j: nat| j <= h ==> #[trigger] descend(split_store(w, r, k, d, m, cl, cr, u), r, x, j)
            == split_way(w, r, k, d, m, u, x, j),
{
    let w2 = split_store(w, r, k, d, m, cl, cr, u);
    let c = descend(w, r, k, d);
    let g = descend(w, r, k, (d - 1) as nat);
    let cn = w[c];
    lemma_split_parent(w, r, h, k, d, m, cl, cr, u, mid);
    assert(node_fits(w, c, d < h));
    assert(node_fits(w, g, true));
    lemma_halves(w, cn, d < h, mid, cl, cr, u, m);
    assert forall|x: Seq<u8>, j: nat| j <= h implies #[trigger] descend(w2, r, x, j) == split_way(w, r, k, d, m, u, x, j) by {
        lemma_split_way_at(w, r, h, k, d, m, cl, cr, u, mid, x, j);
    }
    // the pages that changed, and where they are
    assert(w2[m] == cr && w2[c] == cl && w2[g] == gained(w[g], u, m));
    assert forall|q: u32| q != m && q != c && q != g implies #[trigger] w2[q] == w[q] && (w2.contains_key(q)
        == w.contains_key(q)) by {}
    assert forall|x: Seq<u8>, j: nat| j <= h && #[trigger] descend(w, r, x, j) == c implies j == d && same_way(w, r, x, k, d) by {
        assert(descend(w, r, x, j) == descend(w, r, k, d));
    }
    assert forall|x: Seq<u8>, j: nat| j <= h && #[trigger] descend(w, r, x, j) == g implies j == (d - 1) as nat by {
        assert(descend(w, r, x, j) == descend(w, r, k, (d - 1) as nat));
    }
    assert forall|x: Seq<u8>, j: nat| j <= h implies #[trigger] descend(w, r, x, j) != m by {
        assert(node_fits(w, descend(w, r, x, j), j < h));
    }
    // every page keeps fitting its level
    assert(levels_ok(w2, r, h)) by {
        assert forall|x: Seq<u8>, j: nat| j <= h implies node_fits(w2, #[trigger] descend(w2, r, x, j), j < h) by {
            let q = descend(w2, r, x, j);
            let pj = descend(w, r, x, j);
            assert(node_fits(w, pj, j < h));
            if q == m || q == c {
                if cl is Internal {
                    let n = cl->Internal_0;
                    assert forall|t: int| 0 <= t <= n.entries.len() implies w2.contains_key(#[trigger] child_at(n, t)) by {
                        assert(w.contains_key(child_at(n, t)));
                    }
                }
                if cr is Internal {
                    let n = cr->Internal_0;
                    assert forall|t: int| 0 <= t <= n.entries.len() implies w2.contains_key(#[trigger] child_at(n, t)) by {
                        assert(w.contains_key(child_at(n, t)));
                    }
                }
            } else if q == g {
                let gn = w[g]->Internal_0;
                let gn2 = gained(w[g], u, m)->Internal_0;
                let pos = internal_position(gn.entries, u);
                lemma_insert_route(gn.first_child_page_no, gn.entries, u, m, u);
                lemma_strict_sorted(gn.entries);
                lemma_internal_position(gn.entries, u);
                assert forall|t: int| 0 <= t <= gn2.entries.len() implies #[trigger] child_at(gn2, t) == if t <= pos {
                    child_at(gn, t)
                } else if t == pos + 1 {
                    m
                } else {
                    child_at(gn, t - 1)
                } by {
                    if t > 0 && t - 1 < pos {
                        assert(gn2.entries[t - 1] == gn.entries[t - 1]);
                    } else if t > 0 && t - 1 > pos {
                        assert(gn2.entries[t - 1] == gn.entries[t - 2]);
                    }
                }
                assert forall|a: int, b: int| 0 <= a < b <= gn2.entries.len() implies #[trigger] child_at(gn2, a)
                    != #[trigger] child_at(gn2, b) by {
                    if a != pos + 1 && b != pos + 1 {
                        let a0 = if a <= pos { a } else { a - 1 };
                        let b0 = if b <= pos { b } else { b - 1 };
                        assert(child_at(gn, a0) != child_at(gn, b0));
                    } else if a == pos + 1 {
                        let b0 = b - 1;
                        assert(w.contains_key(child_at(gn, b0)));
                    } else {
                        assert(w.contains_key(child_at(gn, a)));
                    }
                }
                assert forall|t: int| 0 <= t <= gn2.entries.len() implies w2.contains_key(#[trigger] child_at(gn2, t)) by {
                    if t != pos + 1 {
                        let t0 = if t <= pos { t } else { t - 1 };
                        assert(w.contains_key(child_at(gn, t0)));
                    }
                }
            } else {
                assert(q == pj);
                if w[q] is Internal {
                    let n = w[q]->Internal_0;
                    assert forall|t: int| 0 <= t <= n.entries.len() implies w2.contains_key(#[trigger] child_at(n, t)) by {
                        assert(w.contains_key(child_at(n, t)));
                    }
                }
            }
        }
    }
    // the pages still form a tree
    assert(ways_unique(w2, r, h)) by {
        assert forall|x: Seq<u8>, y: Seq<u8>, i: nat, j: nat|
            i <= h && j <= h && #[trigger] descend(w2, r, x, i) == #[trigger] descend(w2, r, y, j) implies i == j
            && same_way(w2, r, x, y, i) by {
            let q = descend(w2, r, x, i);
            if q == m {
                assert(descend(w, r, x, d) == c && descend(w, r, y, d) == c);
                assert(same_way(w, r, x, k, d) && same_way(w, r, y, k, d));
                assert forall|l: nat| l <= i implies #[trigger] descend(w2, r, x, l) == descend(w2, r, y, l) by {
                    assert(descend(w, r, x, l) == descend(w, r, k, l));
                    assert(descend(w, r, y, l) == descend(w, r, k, l));
                }
            } else {
                assert(descend(w, r, x, i) == descend(w, r, y, j));
                assert(i == j && same_way(w, r, x, y, i));
                assert forall|l: nat| l <= i implies #[trigger] descend(w2, r, x, l) == descend(w2, r, y, l) by {
                    assert(descend(w, r, x, l) == descend(w, r, y, l));
                    if l == d && descend(w, r, x, d) == c && bytes_le(u, x) != bytes_le(u, y) {
                        // then the ways part below c: one through the left half, one through the right
                        assert(d < i);
                        let n = cn->Internal_0;
                        assert(descend(w, r, x, d + 1) == descend(w, r, y, d + 1));
                        lemma_descend_last(w, r, x, d);
                        lemma_descend_last(w, r, y, d);
                        lemma_strict_sorted(n.entries);
                        lemma_internal_split_route(n.first_child_page_no, n.entries, mid, x);
                        lemma_internal_split_route(n.first_child_page_no, n.entries, mid, y);
                        lemma_bytes_lt_trichotomy(x, u);
                        lemma_bytes_lt_trichotomy(y, u);
                        let ln = cl->Internal_0;
                        let rn = cr->Internal_0;
                        let (big, small) = if bytes_le(u, x) { (x, y) } else { (y, x) };
                        lemma_route_slot(rn.first_child_page_no, rn.entries, big);
                        lemma_route_slot(ln.first_child_page_no, ln.entries, small);
                        let sb = slot(rn.entries, big);
                        let ss = slot(ln.entries, small);
                        assert(child_at(rn, sb) == child_at(n, sb + mid + 1));
                        assert(child_at(ln, ss) == child_at(n, ss));
                        assert(child_at(n, ss) != child_at(n, sb + mid + 1));
                    }
                }
            }
        }
    }
    // every key stays at home
    assert(keys_home(w2, r, h)) by {
        assert forall|x: Seq<u8>, j: nat, t: int|
            j <= h && 0 <= t < node_len(w2[descend(w2, r, x, j)]) implies descend(
            w2,
            r,
            #[trigger] node_key(w2[#[trigger] descend(w2, r, x, j)], t),
            j,
        ) == descend(w2, r, x, j) by {
            let q = descend(w2, r, x, j);
            let e = node_key(w2[q], t);
            if q == m {
                let t2 = if d < h { t + mid + 1 } else { t + mid };
                assert(e == node_key(cn, t2));
                assert(descend(w, r, e, d) == c) by {
                    assert(descend(w, r, node_key(w[descend(w, r, k, d)], t2), d) == descend(w, r, k, d));
                }
                lemma_bytes_lt_trichotomy(u, e);
            } else if q == c {
                assert(j == d);
                assert(e == node_key(cn, t) && bytes_lt(e, u));
                assert(descend(w, r, e, d) == c) by {
                    assert(descend(w, r, node_key(w[descend(w, r, k, d)], t), d) == descend(w, r, k, d));
                }
                lemma_bytes_lt_trichotomy(u, e);
            } else if q == g {
                assert(j == (d - 1) as nat);
                let gn = w[g]->Internal_0;
                let pos = internal_position(gn.entries, u);
                lemma_strict_sorted(gn.entries);
                lemma_internal_position(gn.entries, u);
                if t != pos {
                    let t0 = if t < pos { t } else { t - 1 };
                    assert(e == node_key(w[g], t0));
                    assert(descend(w, r, e, (d - 1) as nat) == g) by {
                        assert(descend(w, r, node_key(w[descend(w, r, k, (d - 1) as nat)], t0), (d - 1) as nat)
                            == descend(w, r, k, (d - 1) as nat));
                    }
                }
            } else {
                assert(q == descend(w, r, x, j));
                assert(w2[q] == w[q]);
                assert(descend(w, r, e, j) == q);
            }
        }
    }
    // and every value stays
    assert forall|x: Seq<u8>| #[trigger] tree_value(w2, r, x) == tree_value(w, r, x) by {
        lemma_wf_value(w, r, h, x);
        lemma_wf_value(w2, r, h, x);
        let q = descend(w2, r, x, h);
        if d == h {
            let l = cn->Leaf_0;
            lemma_leaf_split_lookup(l.entries, mid, x);
            lemma_bytes_lt_trichotomy(x, u);
        }
    }
    lemma_split_chain(w, r, h, k, d, m, cl, cr, u, mid, w2);

}

// ── an insertion in progress ──
/// A pair stored under a key that was missing from a full leaf makes the
/// leaf split.
pub open spec fn split_due(l: LeafView, k: Seq<u8>) -> bool {
    leaf_lookup(l.entries, k) is None && l.entries.len() >= super::tree::MAX_LEAF_ENTRIES
}

/// A new root above `r` with the entry `(u, m)`.
pub open spec fn grown_root(r: u32, u: Seq<u8>, m: u32) -> NodeView {
    gained(lone_root(r), u, m)
}

/// An insertion of `(k, v)` into the tree at `root` of height `h` over `s0`
/// that has split a node at level `j` of `k`'s way, the right half at `m`
/// and separated by `u`, stands over pages `s` such that: the pages above
/// level `j - 1` of the way are as they were, and once the parent at level
/// `j - 1` gains `(u, m)` (or, at the top, a new root with that entry is
/// put above the root) the pages form a well-formed tree that holds `v`
/// under `k` and every other key's value as before.
pub open spec fn pending_ok(
    s0: Map<u32, NodeView>,
    root: u32,
    h: nat,
    k: Seq<u8>,
    v: Seq<u8>,
    s: Map<u32, NodeView>,
    j: nat,
    u: Seq<u8>,
    m: u32,
    fix: Option<(u32, u32)>,
) -> bool {
    &&& j <= h
    &&& forall|i: nat| i < j ==> s.contains_key(#[trigger] descend(s0, root, k, i)) && s[descend(s0, root, k, i)]
        == s0[descend(s0, root, k, i)]
    &&& fix matches Some(f) ==> s.contains_key(f.0) && s[f.0] is Leaf && f.1 == m
    &&& j > 0 ==> {
        let g = descend(s0, root, k, (j - 1) as nat);
        let w = s.insert(g, gained(s[g], u, m));
        &&& tree_wf(w, root, h)
        &&& prev_ok_fix(w, root, h, fix)
        &&& holds_inserted(s0, root, w, root, k, v)
    }
    &&& j == 0 ==> forall|r2: u32|
        !s.contains_key(r2) ==> tree_wf(#[trigger] s.insert(r2, grown_root(root, u, m)), r2, h + 1)
            && prev_ok_fix(s.insert(r2, grown_root(root, u, m)), r2, h + 1, fix)
            && holds_inserted(s0, root, s.insert(r2, grown_root(root, u, m)), r2, k, v)
}

/// A leaf's next leaf, if any, is to link back to `m`.
pub open spec fn leaf_fix(l: LeafView, m: u32) -> Option<(u32, u32)> {
    match l.next_page_no {
        Some(n) => Some((n, m)),
        None => None,
    }
}

/// With nothing to put right, `prev_ok_fix` is `prev_ok`.
pub proof fn lemma_prev_fix_none(s: Map<u32, NodeView>, r: u32, h: nat)
    ensures
        prev_ok_fix(s, r, h, None) == prev_ok(s, r, h),
{
    assert forall|x: Seq<u8>| #[trigger] prev_at_with(s, r, h, x, fixed_prev(s, r, h, x, None)) == prev_at(s, r, h, x) by {}
    if prev_ok(s, r, h) {
        assert forall|x: Seq<u8>| #[trigger] prev_at_with(s, r, h, x, fixed_prev(s, r, h, x, None)) by {
            assert(prev_at(s, r, h, x));
        }
    }
    if prev_ok_fix(s, r, h, None) {
        assert forall|x: Seq<u8>| #[trigger] prev_at(s, r, h, x) by {
            assert(prev_at_with(s, r, h, x, fixed_prev(s, r, h, x, None)));
        }
    }
}

/// A leaf that is due to split has room for the new key: one more entry.
pub proof fn lemma_split_due_len(l: LeafView, k: Seq<u8>, v: Seq<u8>)
    requires
        leaf_sorted(l.entries),
        split_due(l, k),
    ensures
        leaf_insert_entries(l.entries, k, v).len() == l.entries.len() + 1,
        leaf_insert_entries(l.entries, k, v).len() >= 5,
{
    lemma_leaf_position(l.entries, k);
    let p = leaf_position(l.entries, k);
    if p < l.entries.len() && l.entries[p].0 == k {
        assert(exists|i: int| 0 <= i < l.entries.len() && l.entries[i].0 == k);
    }
}

/// Storing a pair adds an entry exactly when the key was missing.
pub proof fn lemma_insert_len(es: Seq<(Seq<u8>, Seq<u8>)>, k: Seq<u8>, v: Seq<u8>)
    requires
        leaf_sorted(es),
    ensures
        leaf_insert_entries(es, k, v).len() == es.len() + if leaf_lookup(es, k) is None { 1int } else { 0int },
{
    lemma_leaf_position(es, k);
    let p = leaf_position(es, k);
    if p < es.len() && es[p].0 == k {
        assert(exists|i: int| 0 <= i < es.len() && es[i].0 == k);
    } else {
        if exists|i: int| 0 <= i < es.len() && es[i].0 == k {
            let i = choose|i: int| 0 <= i < es.len() && es[i].0 == k;
            lemma_bytes_lt_irreflexive(k);
            if i < p {
                assert(bytes_lt(es[i].0, k));
            } else if i > p {
                assert(bytes_lt(es[p].0, es[i].0));
                lemma_bytes_lt_trichotomy(es[p].0, k);
            }
        }
    }
}

/// Splitting the leaf at the end of `k`'s way, after storing the pair in
/// it, leaves an insertion whose split is pending at the leaf level.
pub proof fn lemma_leaf_split_pending(
    s0: Map<u32, NodeView>,
    root: u32,
    h: nat,
    k: Seq<u8>,
    v: Seq<u8>,
    m: u32,
)
    requires
        tree_wf(s0, root, h),
        prev_ok(s0, root, h),
        split_due(s0[descend(s0, root, k, h)]->Leaf_0, k),
        !s0.contains_key(m),
    ensures
        ({
            let p = descend(s0, root, k, h);
            let l = s0[p]->Leaf_0;
            let all = leaf_insert_entries(l.entries, k, v);
            let mid = all.len() / 2;
            let left = LeafView { entries: all.subrange(0, mid as int), prev_page_no: l.prev_page_no, next_page_no: Some(m) };
            let right = LeafView {
                entries: all.subrange(mid as int, all.len() as int),
                prev_page_no: Some(p),
                next_page_no: l.next_page_no,
            };
            pending_ok(
                s0,
                root,
                h,
                k,
                v,
                s0.insert(m, NodeView::Leaf(right)).insert(p, NodeView::Leaf(left)),
                h,
                all[mid as int].0,
                m,
                leaf_fix(l, m),
            )
        }),
{
    let p = descend(s0, root, k, h);
    let l = s0[p]->Leaf_0;
    let all = leaf_insert_entries(l.entries, k, v);
    let mid = all.len() / 2;
    let left = LeafView { entries: all.subrange(0, mid as int), prev_page_no: l.prev_page_no, next_page_no: Some(m) };
    let right = LeafView {
        entries: all.subrange(mid as int, all.len() as int),
        prev_page_no: Some(p),
        next_page_no: l.next_page_no,
    };
    let cl = NodeView::Leaf(left);
    let cr = NodeView::Leaf(right);
    let sk = all[mid as int].0;
    let s1 = s0.insert(m, cr).insert(p, cl);
    let fix = leaf_fix(l, m);
    assert(node_fits(s0, p, false));
    lemma_split_due_len(l, k, v);
    lemma_insert_leaf_wf(s0, root, h, k, v);
    let w0 = s0.insert(p, inserted_leaf(l, k, v));
    assert(descend(w0, root, k, h) == p);
    assert(split_halves(w0[p], mid as int, cl, cr, sk, m));
    assert(split_fix(w0[p], m) == fix);
    assert forall|i: nat| i < h implies s1.contains_key(#[trigger] descend(s0, root, k, i)) && s1[descend(s0, root, k, i)]
        == s0[descend(s0, root, k, i)] by {
        assert(node_fits(s0, descend(s0, root, k, i), i < h));
        if descend(s0, root, k, i) == p {
            assert(descend(s0, root, k, i) == descend(s0, root, k, h));
        }
    }
    // the leaf after p, which is to link back to m
    assert(chain_at(s0, root, h, k));
    if l.next_page_no is Some {
        let y = choose|y: Seq<u8>| #[trigger] next_leaf_at(s0, root, h, k, y) && descend(s0, root, y, h) == l.next_page_no->Some_0;
        assert(node_fits(s0, descend(s0, root, y, h), false));
        assert(s1[l.next_page_no->Some_0] == s0[l.next_page_no->Some_0]);
    }
    if h > 0 {
        let g = descend(s0, root, k, (h - 1) as nat);
        lemma_split_wf(w0, root, h, k, h, m, cl, cr, sk, mid as int);
        lemma_split_prev(w0, root, h, k, h, m, cl, cr, sk, mid as int, split_store(w0, root, k, h, m, cl, cr, sk));
        assert(descend(w0, root, k, (h - 1) as nat) == g);
        assert(node_fits(s0, g, true));
        assert(g != p);
        assert(split_store(w0, root, k, h, m, cl, cr, sk) =~= s1.insert(g, gained(s1[g], sk, m)));
    } else {
        assert forall|r2: u32| !s1.contains_key(r2) implies tree_wf(
            #[trigger] s1.insert(r2, grown_root(root, sk, m)),
            r2,
            h + 1,
        ) && prev_ok_fix(s1.insert(r2, grown_root(root, sk, m)), r2, h + 1, fix) && holds_inserted(
            s0,
            root,
            s1.insert(r2, grown_root(root, sk, m)),
            r2,
            k,
            v,
        ) by {
            assert(!w0.contains_key(r2));
            assert(s1.contains_key(m));
            lemma_add_root(w0, root, h, r2);
            let w0p = w0.insert(r2, lone_root(root));
            assert(!w0p.contains_key(m));
            assert(p == root);
            assert(w0p[root] == w0[root]);
            assert(descend(w0p, r2, k, 0 + 1) == descend(w0, root, k, 0));
            assert(descend(w0p, r2, k, 0) == r2);
            lemma_split_wf(w0p, r2, h + 1, k, 1, m, cl, cr, sk, mid as int);
            lemma_split_prev(w0p, r2, h + 1, k, 1, m, cl, cr, sk, mid as int, split_store(w0p, r2, k, 1, m, cl, cr, sk));
            assert(split_store(w0p, r2, k, 1, m, cl, cr, sk) =~= s1.insert(r2, grown_root(root, sk, m)));
            let w = s1.insert(r2, grown_root(root, sk, m));
            assert(tree_wf(w, r2, h + 1));
            assert forall|x: Seq<u8>| #[trigger] tree_value(w, r2, x) == if x == k {
                Some(v)
            } else {
                tree_value(s0, root, x)
            } by {
                assert(tree_value(w, r2, x) == tree_value(w0p, r2, x));
                assert(tree_value(w0p, r2, x) == tree_value(w0, root, x));
                assert(tree_value(w0, root, x) == if x == k { Some(v) } else { tree_value(s0, root, x) });
            }
            assert(holds_inserted(s0, root, w, r2, k, v));
        }
    }
}

/// The internal node at level `j - 1` of `k`'s way after gaining `(u, m)`:
/// the halves it splits into and the key that moves up.
pub open spec fn internal_split_parts(gn: NodeView, u: Seq<u8>, m: u32) -> (NodeView, NodeView, Seq<u8>) {
    let all = gained(gn, u, m)->Internal_0.entries;
    let mid = all.len() / 2;
    (
        NodeView::Internal(InternalView { first_child_page_no: gn->Internal_0.first_child_page_no, entries: all.subrange(0, mid as int) }),
        NodeView::Internal(InternalView { first_child_page_no: all[mid as int].1, entries: all.subrange(mid as int + 1, all.len() as int) }),
        all[mid as int].0,
    )
}

/// When the parent that is to gain the split's entry is full, splitting it
/// as well (the right half at the new page `m2`) leaves the split pending
/// one level higher.
pub proof fn lemma_internal_split_pending(
    s0: Map<u32, NodeView>,
    root: u32,
    h: nat,
    k: Seq<u8>,
    v: Seq<u8>,
    s: Map<u32, NodeView>,
    j: nat,
    u: Seq<u8>,
    m: u32,
    m2: u32,
)
    requires
        tree_wf(s0, root, h),
        pending_ok(s0, root, h, k, v, s, j, u, m, None),
        j >= 1,
        s0[descend(s0, root, k, (j - 1) as nat)]->Internal_0.entries.len() >= super::tree::MAX_INTERNAL_ENTRIES,
        !s.contains_key(m2),
    ensures
        ({
            let g = descend(s0, root, k, (j - 1) as nat);
            let parts = internal_split_parts(s[g], u, m);
            pending_ok(s0, root, h, k, v, s.insert(m2, parts.1).insert(g, parts.0), (j - 1) as nat, parts.2, m2, None)
        }),
{
    let d = (j - 1) as nat;
    let g = descend(s0, root, k, d);
    let w = s.insert(g, gained(s[g], u, m));
    let parts = internal_split_parts(s[g], u, m);
    let (left, right, up) = parts;
    let s2 = s.insert(m2, right).insert(g, left);
    assert(s[g] == s0[g]);
    assert(node_fits(s0, g, true));
    let all = gained(s[g], u, m)->Internal_0.entries;
    let mid = all.len() / 2;
    lemma_strict_sorted(s[g]->Internal_0.entries);
    lemma_internal_position(s[g]->Internal_0.entries, u);
    assert(all.len() == s[g]->Internal_0.entries.len() + 1);
    // the way down for k is unchanged above g
    assert forall|i: nat| i < d implies next_on_path(s0, #[trigger] descend(s0, root, k, i), k) == next_on_path(
        w,
        descend(s0, root, k, i),
        k,
    ) by {
        assert(node_fits(s0, descend(s0, root, k, i), i < h));
        if descend(s0, root, k, i) == g {
            assert(descend(s0, root, k, i) == descend(s0, root, k, d));
        }
    }
    lemma_ways_agree(s0, w, root, k, d);
    assert(descend(w, root, k, d) == g);
    assert(split_halves(w[g], mid as int, left, right, up, m2));
    assert(w.contains_key(g));
    assert(!w.contains_key(m2));
    assert forall|i: nat| i < d implies s2.contains_key(#[trigger] descend(s0, root, k, i)) && s2[descend(s0, root, k, i)]
        == s0[descend(s0, root, k, i)] by {
        assert(s.contains_key(descend(s0, root, k, i)));
        assert(node_fits(s0, descend(s0, root, k, i), i < h));
        if descend(s0, root, k, i) == g {
            assert(descend(s0, root, k, i) == descend(s0, root, k, d));
        }
    }
    if d > 0 {
        let gg = descend(s0, root, k, (d - 1) as nat);
        lemma_split_wf(w, root, h, k, d, m2, left, right, up, mid as int);
        lemma_prev_fix_none(w, root, h);
        lemma_split_prev(w, root, h, k, d, m2, left, right, up, mid as int, split_store(w, root, k, d, m2, left, right, up));
        assert(descend(w, root, k, (d - 1) as nat) == gg);
        assert(s.contains_key(gg));
        assert(node_fits(s0, gg, true));
        assert(gg != g) by {
            if gg == g {
                assert(descend(s0, root, k, (d - 1) as nat) == descend(s0, root, k, d));
            }
        }
        assert(split_store(w, root, k, d, m2, left, right, up) =~= s2.insert(gg, gained(s2[gg], up, m2)));
        let w2 = s2.insert(gg, gained(s2[gg], up, m2));
        assert forall|x: Seq<u8>| #[trigger] tree_value(w2, root, x) == if x == k {
            Some(v)
        } else {
            tree_value(s0, root, x)
        } by {
            assert(tree_value(w2, root, x) == tree_value(w, root, x));
        }
    } else {
        lemma_prev_fix_none(w, root, h);
        assert forall|r2: u32| !s2.contains_key(r2) implies tree_wf(
            #[trigger] s2.insert(r2, grown_root(root, up, m2)),
            r2,
            h + 1,
        ) && prev_ok_fix(s2.insert(r2, grown_root(root, up, m2)), r2, h + 1, None) && holds_inserted(
            s0,
            root,
            s2.insert(r2, grown_root(root, up, m2)),
            r2,
            k,
            v,
        ) by {
            assert(!w.contains_key(r2));
            assert(s2.contains_key(m2));
            lemma_add_root(w, root, h, r2);
            let wp = w.insert(r2, lone_root(root));
            assert(!wp.contains_key(m2));
            assert(g == root);
            assert(wp[root] == w[root]);
            assert(descend(wp, r2, k, 0 + 1) == descend(w, root, k, 0));
            assert(descend(wp, r2, k, 0) == r2);
            lemma_split_wf(wp, r2, h + 1, k, 1, m2, left, right, up, mid as int);
            lemma_split_prev(wp, r2, h + 1, k, 1, m2, left, right, up, mid as int, split_store(wp, r2, k, 1, m2, left, right, up));
            assert(split_store(wp, r2, k, 1, m2, left, right, up) =~= s2.insert(r2, grown_root(root, up, m2)));
            let w2 = s2.insert(r2, grown_root(root, up, m2));
            assert forall|x: Seq<u8>| #[trigger] tree_value(w2, r2, x) == if x == k {
                Some(v)
            } else {
                tree_value(s0, root, x)
            } by {
                assert(tree_value(w2, r2, x) == tree_value(wp, r2, x));
                assert(tree_value(wp, r2, x) == tree_value(w, root, x));
            }
        }
    }
}

/// Relinking a leaf (neighbours only) keeps a pending split pending.
pub proof fn lemma_relink_pending(
    s0: Map<u32, NodeView>,
    root: u32,
    h: nat,
    k: Seq<u8>,
    v: Seq<u8>,
    s: Map<u32, NodeView>,
    j: nat,
    u: Seq<u8>,
    m: u32,
    x: u32,
    l2: LeafView,
)
    requires
        tree_wf(s0, root, h),
        pending_ok(s0, root, h, k, v, s, j, u, m, Some((x, m))),
        l2.entries == s[x]->Leaf_0.entries,
        l2.next_page_no == s[x]->Leaf_0.next_page_no,
        l2.prev_page_no == Some(m),
    ensures
        pending_ok(s0, root, h, k, v, s.insert(x, NodeView::Leaf(l2)), j, u, m, None),
{
    let s2 = s.insert(x, NodeView::Leaf(l2));
    assert forall|i: nat| i < j implies s2.contains_key(#[trigger] descend(s0, root, k, i)) && s2[descend(s0, root, k, i)]
        == s0[descend(s0, root, k, i)] by {
        assert(node_fits(s0, descend(s0, root, k, i), i < h));
        assert(s[descend(s0, root, k, i)] == s0[descend(s0, root, k, i)]);
    }
    if j > 0 {
        let g = descend(s0, root, k, (j - 1) as nat);
        let w = s.insert(g, gained(s[g], u, m));
        assert(node_fits(s0, g, true));
        assert(s[g] == s0[g]);
        assert(x != g);
        assert(w[x] == s[x]);
        lemma_relink_leaf(w, root, h, x, l2);
        lemma_relink_prev(w, root, h, x, m, l2);
        assert(w.insert(x, NodeView::Leaf(l2)) =~= s2.insert(g, gained(s2[g], u, m)));
        lemma_prev_fix_none(s2.insert(g, gained(s2[g], u, m)), root, h);
    } else {
        assert forall|r2: u32| !s2.contains_key(r2) implies tree_wf(
            #[trigger] s2.insert(r2, grown_root(root, u, m)),
            r2,
            h + 1,
        ) && prev_ok_fix(s2.insert(r2, grown_root(root, u, m)), r2, h + 1, None) && holds_inserted(
            s0,
            root,
            s2.insert(r2, grown_root(root, u, m)),
            r2,
            k,
            v,
        ) by {
            let w = s.insert(r2, grown_root(root, u, m));
            assert(!s.contains_key(r2));
            assert(tree_wf(w, r2, h + 1));
            assert(w[x] == s[x]);
            lemma_relink_leaf(w, r2, h + 1, x, l2);
            lemma_relink_prev(w, r2, h + 1, x, m, l2);
            assert(w.insert(x, NodeView::Leaf(l2)) =~= s2.insert(r2, grown_root(root, u, m)));
            lemma_prev_fix_none(s2.insert(r2, grown_root(root, u, m)), r2, h + 1);
        }
    }
}

// ── leaves in key order ──
/// The slot of a key does not decrease as the key grows.
pub proof fn lemma_slot_monotone(es: Seq<(Seq<u8>, u32)>, a: Seq<u8>, b: Seq<u8>)
    requires
        internal_strict(es),
        bytes_le(a, b),
    ensures
        slot(es, a) <= slot(es, b),
{
    lemma_slot_bounds(es, a);
    lemma_slot_bounds(es, b);
    if slot(es, b) < slot(es, a) {
        let i = slot(es, b);
        assert(bytes_le(es[i].0, a) && bytes_lt(b, es[i].0));
        lemma_bytes_lt_le_transitive(b, es[i].0, a);
        lemma_bytes_le_lt_transitive(a, b, a);
        lemma_bytes_lt_irreflexive(a);
    }
}

/// The leaf a key reaches in a tree of height `h`.
pub open spec fn leaf_of(s: Map<u32, NodeView>, r: u32, h: nat, x: Seq<u8>) -> u32 {
    descend(s, r, x, h)
}

/// In a well-formed tree the keys that reach a leaf form an interval: a
/// key between two keys of the same leaf reaches that leaf too.
pub proof fn lemma_leaf_convex(s: Map<u32, NodeView>, r: u32, h: nat, a: Seq<u8>, b: Seq<u8>, c: Seq<u8>)
    requires
        tree_wf(s, r, h),
        bytes_le(a, b),
        bytes_le(b, c),
        leaf_of(s, r, h, a) == leaf_of(s, r, h, c),
    ensures
        leaf_of(s, r, h, b) == leaf_of(s, r, h, a),
        forall|j: nat| j <= h ==> #[trigger] descend(s, r, b, j) == descend(s, r, a, j),
{
    assert(same_way(s, r, a, c, h));
    assert forall|j: nat| j <= h implies #[trigger] descend(s, r, b, j) == descend(s, r, a, j) by {
        lemma_convex_upto(s, r, h, a, b, c, j);
    }
}

/// Level by level, a key between two keys that share their way down goes
/// the same way.
proof fn lemma_convex_upto(s: Map<u32, NodeView>, r: u32, h: nat, a: Seq<u8>, b: Seq<u8>, c: Seq<u8>, j: nat)
    requires
        tree_wf(s, r, h),
        bytes_le(a, b),
        bytes_le(b, c),
        same_way(s, r, a, c, h),
        j <= h,
    ensures
        descend(s, r, b, j) == descend(s, r, a, j),
    decreases j,
{
    if j > 0 {
        let i = (j - 1) as nat;
        lemma_convex_upto(s, r, h, a, b, c, i);
        let q = descend(s, r, a, i);
        assert(node_fits(s, q, i < h));
        assert(descend(s, r, a, j) == descend(s, r, c, j));
        assert(descend(s, r, a, i) == descend(s, r, c, i));
        lemma_descend_last(s, r, a, i);
        lemma_descend_last(s, r, b, i);
        lemma_descend_last(s, r, c, i);
        let n = s[q]->Internal_0;
        lemma_route_slot(n.first_child_page_no, n.entries, a);
        lemma_route_slot(n.first_child_page_no, n.entries, b);
        lemma_route_slot(n.first_child_page_no, n.entries, c);
        lemma_slot_monotone(n.entries, a, b);
        lemma_slot_monotone(n.entries, b, c);
        if slot(n.entries, a) != slot(n.entries, c) {
            assert(child_at(n, slot(n.entries, a)) != child_at(n, slot(n.entries, c)));
        }
    }
}

} // verus!
