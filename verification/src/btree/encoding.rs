//! The byte format of B+Tree nodes, as stored in a page's data area.
//!
//! Leaf:     `2`, prev (u32), next (u32), entry count (u16), then per entry
//!           the key encoding, the value length (u16) and the value bytes.
//! Internal: `1`, first child (u32), entry count (u16), then per entry the
//!           key encoding and the child page number (u32).
//!
//! All integers are big-endian; a missing prev/next page is `u32::MAX`.

use vstd::prelude::*;
use crate::page::codec::{
    append_be_u16, append_be_u32, be_bytes, be_value, lemma_be_bytes_len,
    lemma_be_value_of_bytes, pow256, read_be_u16, read_be_u32,
};
use super::key::{key_encoding, Key};
use super::node::{
    internal_entries_view, leaf_entries_view, BTreeNode, InternalEntry, InternalNode,
    InternalView, LeafEntry, LeafNode, LeafView, NodeView,
};

verus! {

/// Marker byte of an internal node.
pub const NODE_TYPE_INTERNAL: u8 = 1;
/// Marker byte of a leaf node.
pub const NODE_TYPE_LEAF: u8 = 2;
/// Stored in place of a missing prev/next page number.
pub const PAGE_NO_NONE: u32 = 0xFFFF_FFFF;

/// The stored form of an optional page reference.
pub open spec fn page_ref_code(p: Option<u32>) -> u32 {
    match p {
        Some(x) => x,
        None => PAGE_NO_NONE,
    }
}

/// The optional page reference a stored value stands for.
pub open spec fn page_ref_of_code(x: u32) -> Option<u32> {
    if x == PAGE_NO_NONE {
        None
    } else {
        Some(x)
    }
}

/// A leaf entry: key length, key, value length, value.
pub open spec fn leaf_entry_encoding(e: (Seq<u8>, Seq<u8>)) -> Seq<u8> {
    key_encoding(e.0) + be_bytes(e.1.len() % 0x1_0000, 2) + e.1
}

/// An internal entry: key length, key, child page.
pub open spec fn internal_entry_encoding(e: (Seq<u8>, u32)) -> Seq<u8> {
    key_encoding(e.0) + be_bytes(e.1 as nat, 4)
}

/// Leaf entries, one after the other.
pub open spec fn leaf_entries_encoding(es: Seq<(Seq<u8>, Seq<u8>)>) -> Seq<u8>
    decreases es.len(),
{
    if es.len() == 0 {
        Seq::empty()
    } else {
        leaf_entries_encoding(es.drop_last()) + leaf_entry_encoding(es.last())
    }
}

/// Internal entries, one after the other.
pub open spec fn internal_entries_encoding(es: Seq<(Seq<u8>, u32)>) -> Seq<u8>
    decreases es.len(),
{
    if es.len() == 0 {
        Seq::empty()
    } else {
        internal_entries_encoding(es.drop_last()) + internal_entry_encoding(es.last())
    }
}

/// A leaf's header: type, neighbours, entry count.
pub open spec fn leaf_header_encoding(l: LeafView) -> Seq<u8> {
    seq![NODE_TYPE_LEAF] + be_bytes(page_ref_code(l.prev_page_no) as nat, 4) + be_bytes(
        page_ref_code(l.next_page_no) as nat,
        4,
    ) + be_bytes(l.entries.len() % 0x1_0000, 2)
}

/// An internal node's header: type, first child, entry count.
pub open spec fn internal_header_encoding(n: InternalView) -> Seq<u8> {
    seq![NODE_TYPE_INTERNAL] + be_bytes(n.first_child_page_no as nat, 4) + be_bytes(
        n.entries.len() % 0x1_0000,
        2,
    )
}

/// The bytes `serialize` produces for a node.
pub open spec fn node_encoding(n: NodeView) -> Seq<u8> {
    match n {
        NodeView::Leaf(l) => leaf_header_encoding(l) + leaf_entries_encoding(l.entries),
        NodeView::Internal(i) => internal_header_encoding(i) + internal_entries_encoding(i.entries),
    }
}

/// The value of the `n`-byte big-endian number at `off`.
pub open spec fn num_at(data: Seq<u8>, off: int, n: int) -> int {
    be_value(data.subrange(off, off + n)) as int
}

/// Decodes one leaf entry at `off`: the entry and the offset after it.
pub open spec fn parse_leaf_entry(data: Seq<u8>, off: int) -> Option<((Seq<u8>, Seq<u8>), int)> {
    if 0 <= off && off + 2 <= data.len() {
        let kl = num_at(data, off, 2);
        if off + 2 + kl + 2 <= data.len() {
            let vl = num_at(data, off + 2 + kl, 2);
            if off + 4 + kl + vl <= data.len() {
                Some(
                    (
                        (data.subrange(off + 2, off + 2 + kl), data.subrange(
                            off + 4 + kl,
                            off + 4 + kl + vl,
                        )),
                        off + 4 + kl + vl,
                    ),
                )
            } else {
                None
            }
        } else {
            None
        }
    } else {
        None
    }
}

/// Decodes one internal entry at `off`: the entry and the offset after it.
pub open spec fn parse_internal_entry(data: Seq<u8>, off: int) -> Option<((Seq<u8>, u32), int)> {
    if 0 <= off && off + 2 <= data.len() {
        let kl = num_at(data, off, 2);
        if off + 2 + kl + 4 <= data.len() {
            Some(
                (
                    (data.subrange(off + 2, off + 2 + kl), num_at(data, off + 2 + kl, 4) as u32),
                    off + 6 + kl,
                ),
            )
        } else {
            None
        }
    } else {
        None
    }
}

/// Decodes `count` consecutive leaf entries starting at `off`.
pub open spec fn parse_leaf_entries(data: Seq<u8>, off: int, count: nat) -> Option<
    (Seq<(Seq<u8>, Seq<u8>)>, int),
>
    decreases count,
{
    if count == 0 {
        Some((Seq::empty(), off))
    } else {
        match parse_leaf_entries(data, off, (count - 1) as nat) {
            Some((es, o)) => match parse_leaf_entry(data, o) {
                Some((e, o2)) => Some((es.push(e), o2)),
                None => None,
            },
            None => None,
        }
    }
}

/// Decodes `count` consecutive internal entries starting at `off`.
pub open spec fn parse_internal_entries(data: Seq<u8>, off: int, count: nat) -> Option<
    (Seq<(Seq<u8>, u32)>, int),
>
    decreases count,
{
    if count == 0 {
        Some((Seq::empty(), off))
    } else {
        match parse_internal_entries(data, off, (count - 1) as nat) {
            Some((es, o)) => match parse_internal_entry(data, o) {
                Some((e, o2)) => Some((es.push(e), o2)),
                None => None,
            },
            None => None,
        }
    }
}

/// The node that `deserialize` reads from the front of `data`, if the bytes
/// hold one (bytes after the node are ignored).
pub open spec fn parse_node(data: Seq<u8>) -> Option<NodeView> {
    if data.len() < 1 {
        None
    } else if data[0] == NODE_TYPE_LEAF {
        if data.len() < 11 {
            None
        } else {
            match parse_leaf_entries(data, 11, num_at(data, 9, 2) as nat) {
                Some((es, _)) => Some(
                    NodeView::Leaf(
                        LeafView {
                            entries: es,
                            prev_page_no: page_ref_of_code(num_at(data, 1, 4) as u32),
                            next_page_no: page_ref_of_code(num_at(data, 5, 4) as u32),
                        },
                    ),
                ),
                None => None,
            }
        }
    } else if data[0] == NODE_TYPE_INTERNAL {
        if data.len() < 7 {
            None
        } else {
            match parse_internal_entries(data, 7, num_at(data, 5, 2) as nat) {
                Some((es, _)) => Some(
                    NodeView::Internal(
                        InternalView { first_child_page_no: num_at(data, 1, 4) as u32, entries: es },
                    ),
                ),
                None => None,
            }
        }
    } else {
        None
    }
}

/// A node whose encoding can be decoded again: fewer than 2^16 entries,
/// keys and values shorter than 2^16 bytes, and no neighbour page number
/// equal to the "none" marker.
pub open spec fn node_encodable(n: NodeView) -> bool {
    match n {
        NodeView::Leaf(l) => {
            &&& l.entries.len() < 0x1_0000
            &&& forall|i: int|
                0 <= i < l.entries.len() ==> (#[trigger] l.entries[i]).0.len() < 0x1_0000
                    && l.entries[i].1.len() < 0x1_0000
            &&& l.prev_page_no != Some(PAGE_NO_NONE)
            &&& l.next_page_no != Some(PAGE_NO_NONE)
        },
        NodeView::Internal(n) => {
            &&& n.entries.len() < 0x1_0000
            &&& forall|i: int|
                0 <= i < n.entries.len() ==> (#[trigger] n.entries[i]).0.len() < 0x1_0000
        },
    }
}

/// The powers of 256 used by the node format.
proof fn lemma_pow256_small()
    ensures
        pow256(2) == 0x1_0000,
        pow256(4) == 0x1_0000_0000,
{
    reveal_with_fuel(pow256, 5);
}

/// The number at `off` in `data` is `v` when `data` holds `be_bytes(v, n)` there.
proof fn lemma_num_at(data: Seq<u8>, off: int, v: nat, n: nat)
    requires
        0 <= off,
        off + n <= data.len(),
        data.subrange(off, off + n) == be_bytes(v, n),
        v < pow256(n),
    ensures
        num_at(data, off, n as int) == v,
{
    lemma_be_value_of_bytes(v, n);
}

/// The encoding of the first `k` leaf entries is a prefix of the whole.
proof fn lemma_leaf_entries_encoding_prefix(es: Seq<(Seq<u8>, Seq<u8>)>, k: int)
    requires
        0 <= k <= es.len(),
    ensures
        leaf_entries_encoding(es.take(k)).len() <= leaf_entries_encoding(es).len(),
        leaf_entries_encoding(es).subrange(0, leaf_entries_encoding(es.take(k)).len() as int)
            == leaf_entries_encoding(es.take(k)),
    decreases es.len() - k,
{
    if k == es.len() {
        assert(es.take(k) =~= es);
        assert(leaf_entries_encoding(es).subrange(0, leaf_entries_encoding(es).len() as int)
            =~= leaf_entries_encoding(es));
    } else {
        lemma_leaf_entries_encoding_prefix(es, k + 1);
        assert(es.take(k + 1).drop_last() =~= es.take(k));
        let big = leaf_entries_encoding(es.take(k + 1));
        let small = leaf_entries_encoding(es.take(k));
        assert(big == small + leaf_entry_encoding(es.take(k + 1).last()));
        assert(leaf_entries_encoding(es).subrange(0, small.len() as int) =~= big.subrange(
            0,
            small.len() as int,
        ));
        assert(big.subrange(0, small.len() as int) =~= small);
    }
}

/// The encoding of the first `k` internal entries is a prefix of the whole.
proof fn lemma_internal_entries_encoding_prefix(es: Seq<(Seq<u8>, u32)>, k: int)
    requires
        0 <= k <= es.len(),
    ensures
        internal_entries_encoding(es.take(k)).len() <= internal_entries_encoding(es).len(),
        internal_entries_encoding(es).subrange(0, internal_entries_encoding(es.take(k)).len() as int)
            == internal_entries_encoding(es.take(k)),
    decreases es.len() - k,
{
    if k == es.len() {
        assert(es.take(k) =~= es);
        assert(internal_entries_encoding(es).subrange(0, internal_entries_encoding(es).len() as int)
            =~= internal_entries_encoding(es));
    } else {
        lemma_internal_entries_encoding_prefix(es, k + 1);
        assert(es.take(k + 1).drop_last() =~= es.take(k));
        let big = internal_entries_encoding(es.take(k + 1));
        let small = internal_entries_encoding(es.take(k));
        assert(big == small + internal_entry_encoding(es.take(k + 1).last()));
        assert(internal_entries_encoding(es).subrange(0, small.len() as int) =~= big.subrange(
            0,
            small.len() as int,
        ));
        assert(big.subrange(0, small.len() as int) =~= small);
    }
}

/// One encoded leaf entry, followed by anything, decodes to that entry.
proof fn lemma_parse_leaf_entry(data: Seq<u8>, off: int, e: (Seq<u8>, Seq<u8>))
    requires
        0 <= off,
        e.0.len() < 0x1_0000,
        e.1.len() < 0x1_0000,
        off + leaf_entry_encoding(e).len() <= data.len(),
        data.subrange(off, off + leaf_entry_encoding(e).len()) == leaf_entry_encoding(e),
    ensures
        leaf_entry_encoding(e).len() == 4 + e.0.len() + e.1.len(),
        parse_leaf_entry(data, off) == Some((e, off + leaf_entry_encoding(e).len())),
{
    lemma_pow256_small();
    let kl = e.0.len() as int;
    let vl = e.1.len() as int;
    lemma_be_bytes_len(e.0.len() % 0x1_0000, 2);
    lemma_be_bytes_len(e.1.len() % 0x1_0000, 2);
    let enc = leaf_entry_encoding(e);
    assert(enc.len() == 4 + kl + vl);
    let sub = data.subrange(off, off + enc.len());
    assert(data.subrange(off, off + 2) =~= sub.subrange(0, 2));
    assert(sub.subrange(0, 2) =~= be_bytes(e.0.len() % 0x1_0000, 2));
    lemma_num_at(data, off, e.0.len(), 2);
    assert(data.subrange(off + 2 + kl, off + 2 + kl + 2) =~= sub.subrange(2 + kl, 4 + kl));
    assert(sub.subrange(2 + kl, 4 + kl) =~= be_bytes(e.1.len() % 0x1_0000, 2));
    lemma_num_at(data, off + 2 + kl, e.1.len(), 2);
    let ke = key_encoding(e.0);
    assert(ke.len() == 2 + kl);
    assert(enc == ke + be_bytes(e.1.len() % 0x1_0000, 2) + e.1);
    assert(sub.subrange(2, 2 + kl) =~= ke.subrange(2, 2 + kl));
    assert(ke.subrange(2, 2 + kl) =~= e.0);
    assert(data.subrange(off + 2, off + 2 + kl) =~= sub.subrange(2, 2 + kl));
    assert(sub.subrange(4 + kl, 4 + kl + vl) =~= e.1);
    assert(data.subrange(off + 4 + kl, off + 4 + kl + vl) =~= sub.subrange(4 + kl, 4 + kl + vl));
}

/// One encoded internal entry, followed by anything, decodes to that entry.
proof fn lemma_parse_internal_entry(data: Seq<u8>, off: int, e: (Seq<u8>, u32))
    requires
        0 <= off,
        e.0.len() < 0x1_0000,
        off + internal_entry_encoding(e).len() <= data.len(),
        data.subrange(off, off + internal_entry_encoding(e).len()) == internal_entry_encoding(e),
    ensures
        internal_entry_encoding(e).len() == 6 + e.0.len(),
        parse_internal_entry(data, off) == Some((e, off + internal_entry_encoding(e).len())),
{
    lemma_pow256_small();
    let kl = e.0.len() as int;
    lemma_be_bytes_len(e.0.len() % 0x1_0000, 2);
    lemma_be_bytes_len(e.1 as nat, 4);
    let enc = internal_entry_encoding(e);
    assert(enc.len() == 6 + kl);
    let sub = data.subrange(off, off + enc.len());
    assert(data.subrange(off, off + 2) =~= sub.subrange(0, 2));
    assert(sub.subrange(0, 2) =~= be_bytes(e.0.len() % 0x1_0000, 2));
    lemma_num_at(data, off, e.0.len(), 2);
    assert(data.subrange(off + 2 + kl, off + 2 + kl + 4) =~= sub.subrange(2 + kl, 6 + kl));
    assert(sub.subrange(2 + kl, 6 + kl) =~= be_bytes(e.1 as nat, 4));
    lemma_num_at(data, off + 2 + kl, e.1 as nat, 4);
    let ke = key_encoding(e.0);
    assert(ke.len() == 2 + kl);
    assert(enc == ke + be_bytes(e.1 as nat, 4));
    assert(sub.subrange(2, 2 + kl) =~= ke.subrange(2, 2 + kl));
    assert(ke.subrange(2, 2 + kl) =~= e.0);
    assert(data.subrange(off + 2, off + 2 + kl) =~= sub.subrange(2, 2 + kl));
}

/// Encoded leaf entries, placed at `off`, decode entry by entry.
proof fn lemma_parse_leaf_entries(data: Seq<u8>, off: int, es: Seq<(Seq<u8>, Seq<u8>)>, k: nat)
    requires
        0 <= off,
        k <= es.len(),
        forall|i: int| 0 <= i < es.len() ==> (#[trigger] es[i]).0.len() < 0x1_0000 && es[i].1.len() < 0x1_0000,
        off + leaf_entries_encoding(es).len() <= data.len(),
        data.subrange(off, off + leaf_entries_encoding(es).len()) == leaf_entries_encoding(es),
    ensures
        parse_leaf_entries(data, off, k) == Some((es.take(k as int), off + leaf_entries_encoding(es.take(k as int)).len())),
    decreases k,
{
    if k == 0 {
        assert(es.take(0) =~= Seq::<(Seq<u8>, Seq<u8>)>::empty());
    } else {
        lemma_parse_leaf_entries(data, off, es, (k - 1) as nat);
        let prev = es.take(k - 1);
        let cur = es.take(k as int);
        assert(cur.drop_last() =~= prev);
        assert(cur.last() == es[k - 1]);
        lemma_leaf_entries_encoding_prefix(es, k as int);
        let o = off + leaf_entries_encoding(prev).len();
        let e = es[k - 1];
        let full = leaf_entries_encoding(es);
        let elen = leaf_entry_encoding(e).len();
        assert(leaf_entries_encoding(cur) == leaf_entries_encoding(prev) + leaf_entry_encoding(e));
        let cenc = leaf_entries_encoding(cur);
        assert(data.subrange(o, o + elen) =~= full.subrange(o - off, o - off + elen));
        assert(full.subrange(o - off, o - off + elen) =~= cenc.subrange(o - off, o - off + elen));
        assert(cenc.subrange(o - off, o - off + elen) =~= leaf_entry_encoding(e));
        lemma_parse_leaf_entry(data, o, e);
        assert(prev.push(e) =~= cur);
    }
}

/// Encoded internal entries, placed at `off`, decode entry by entry.
proof fn lemma_parse_internal_entries(data: Seq<u8>, off: int, es: Seq<(Seq<u8>, u32)>, k: nat)
    requires
        0 <= off,
        k <= es.len(),
        forall|i: int| 0 <= i < es.len() ==> (#[trigger] es[i]).0.len() < 0x1_0000,
        off + internal_entries_encoding(es).len() <= data.len(),
        data.subrange(off, off + internal_entries_encoding(es).len()) == internal_entries_encoding(es),
    ensures
        parse_internal_entries(data, off, k) == Some((es.take(k as int), off + internal_entries_encoding(es.take(k as int)).len())),
    decreases k,
{
    if k == 0 {
        assert(es.take(0) =~= Seq::<(Seq<u8>, u32)>::empty());
    } else {
        lemma_parse_internal_entries(data, off, es, (k - 1) as nat);
        let prev = es.take(k - 1);
        let cur = es.take(k as int);
        assert(cur.drop_last() =~= prev);
        assert(cur.last() == es[k - 1]);
        lemma_internal_entries_encoding_prefix(es, k as int);
        let o = off + internal_entries_encoding(prev).len();
        let e = es[k - 1];
        let full = internal_entries_encoding(es);
        let elen = internal_entry_encoding(e).len();
        assert(internal_entries_encoding(cur) == internal_entries_encoding(prev) + internal_entry_encoding(e));
        let cenc = internal_entries_encoding(cur);
        assert(data.subrange(o, o + elen) =~= full.subrange(o - off, o - off + elen));
        assert(full.subrange(o - off, o - off + elen) =~= cenc.subrange(o - off, o - off + elen));
        assert(cenc.subrange(o - off, o - off + elen) =~= internal_entry_encoding(e));
        lemma_parse_internal_entry(data, o, e);
        assert(prev.push(e) =~= cur);
    }
}

#[verifier::rlimit(40)]
proof fn lemma_leaf_roundtrip(l: LeafView, rest: Seq<u8>)
    requires
        node_encodable(NodeView::Leaf(l)),
    ensures
        parse_node(node_encoding(NodeView::Leaf(l)) + rest) == Some(NodeView::Leaf(l)),
{
    lemma_pow256_small();
    let data = node_encoding(NodeView::Leaf(l)) + rest;
    let h = leaf_header_encoding(l);
    let enc = leaf_entries_encoding(l.entries);
    let prev = page_ref_code(l.prev_page_no) as nat;
    let next = page_ref_code(l.next_page_no) as nat;
    let cnt = l.entries.len() % 0x1_0000;
    lemma_be_bytes_len(prev, 4);
    lemma_be_bytes_len(next, 4);
    lemma_be_bytes_len(cnt, 2);
    assert(h.len() == 11);
    assert(data == h + enc + rest);
    assert(data[0] == NODE_TYPE_LEAF);
    assert(data.subrange(1, 5) =~= be_bytes(prev, 4));
    assert(data.subrange(5, 9) =~= be_bytes(next, 4));
    assert(data.subrange(9, 11) =~= be_bytes(cnt, 2));
    lemma_num_at(data, 1, prev, 4);
    lemma_num_at(data, 5, next, 4);
    lemma_num_at(data, 9, cnt, 2);
    assert(data.subrange(11, 11 + enc.len() as int) =~= enc);
    lemma_parse_leaf_entries(data, 11, l.entries, l.entries.len());
    assert(l.entries.take(l.entries.len() as int) =~= l.entries);
    assert(num_at(data, 9, 2) == l.entries.len());
    assert(page_ref_of_code(num_at(data, 1, 4) as u32) == l.prev_page_no);
    assert(page_ref_of_code(num_at(data, 5, 4) as u32) == l.next_page_no);
    assert(parse_leaf_entries(data, 11, l.entries.len()) is Some);
}

/// An encoded internal node parses back.
proof fn lemma_internal_roundtrip(n: InternalView, rest: Seq<u8>)
    requires
        node_encodable(NodeView::Internal(n)),
    ensures
        parse_node(node_encoding(NodeView::Internal(n)) + rest) == Some(NodeView::Internal(n)),
{
    lemma_pow256_small();
    let data = node_encoding(NodeView::Internal(n)) + rest;
    let h = internal_header_encoding(n);
    let enc = internal_entries_encoding(n.entries);
    let first = n.first_child_page_no as nat;
    let cnt = n.entries.len() % 0x1_0000;
    lemma_be_bytes_len(first, 4);
    lemma_be_bytes_len(cnt, 2);
    assert(h.len() == 7);
    assert(data == h + enc + rest);
    assert(data[0] == NODE_TYPE_INTERNAL);
    assert(data.subrange(1, 5) =~= be_bytes(first, 4));
    assert(data.subrange(5, 7) =~= be_bytes(cnt, 2));
    lemma_num_at(data, 1, first, 4);
    lemma_num_at(data, 5, cnt, 2);
    assert(data.subrange(7, 7 + enc.len() as int) =~= enc);
    lemma_parse_internal_entries(data, 7, n.entries, n.entries.len());
    assert(n.entries.take(n.entries.len() as int) =~= n.entries);
}

/// Decoding the encoding of a node gives the node back, whatever bytes
/// follow the encoding (provided the node can be encoded faithfully).
pub proof fn lemma_node_encoding_roundtrip(n: NodeView, rest: Seq<u8>)
    requires
        node_encodable(n),
    ensures
        parse_node(node_encoding(n) + rest) == Some(n),
{
    match n {
        NodeView::Leaf(l) => lemma_leaf_roundtrip(l, rest),
        NodeView::Internal(i) => lemma_internal_roundtrip(i, rest),
    }
}

/// Parsing leaf entries fails from the first entry that fails.
proof fn lemma_parse_leaf_entries_stuck(data: Seq<u8>, off: int, i: nat, c: nat)
    requires
        i < c,
        parse_leaf_entries(data, off, i) is Some,
        parse_leaf_entry(data, parse_leaf_entries(data, off, i)->Some_0.1) is None,
    ensures
        parse_leaf_entries(data, off, c) is None,
    decreases c,
{
    if c > i + 1 {
        lemma_parse_leaf_entries_stuck(data, off, i, (c - 1) as nat);
    }
}

/// Parsing internal entries fails from the first entry that fails.
proof fn lemma_parse_internal_entries_stuck(data: Seq<u8>, off: int, i: nat, c: nat)
    requires
        i < c,
        parse_internal_entries(data, off, i) is Some,
        parse_internal_entry(data, parse_internal_entries(data, off, i)->Some_0.1) is None,
    ensures
        parse_internal_entries(data, off, c) is None,
    decreases c,
{
    if c > i + 1 {
        lemma_parse_internal_entries_stuck(data, off, i, (c - 1) as nat);
    }
}

/// Decodes the leaf entry at `off`, as `parse_leaf_entry` describes.
fn parse_leaf_entry_at(data: &[u8], off: usize) -> (r: Option<(LeafEntry, usize)>)
    ensures
        match r {
            Some((e, o)) => parse_leaf_entry(data@, off as int) == Some((e@, o as int)),
            None => parse_leaf_entry(data@, off as int) is None,
        },
{
    let len = data.len();
    if off > len || len - off < 2 {
        return None;
    }
    let kl = read_be_u16(data, off) as usize;
    if len - off - 2 < kl || len - off - 2 - kl < 2 {
        return None;
    }
    let vpos = off + 2 + kl;
    let vl = read_be_u16(data, vpos) as usize;
    if len - vpos - 2 < vl {
        return None;
    }
    let key = Key::from_bytes(&data[off + 2..vpos]);
    let value = vstd::slice::slice_to_vec(&data[vpos + 2..vpos + 2 + vl]);
    Some((LeafEntry { key, value }, vpos + 2 + vl))
}

/// Decodes the internal entry at `off`, as `parse_internal_entry` describes.
fn parse_internal_entry_at(data: &[u8], off: usize) -> (r: Option<(InternalEntry, usize)>)
    ensures
        match r {
            Some((e, o)) => parse_internal_entry(data@, off as int) == Some((e@, o as int)),
            None => parse_internal_entry(data@, off as int) is None,
        },
{
    let len = data.len();
    if off > len || len - off < 2 {
        return None;
    }
    let kl = read_be_u16(data, off) as usize;
    if len - off - 2 < kl || len - off - 2 - kl < 4 {
        return None;
    }
    let cpos = off + 2 + kl;
    let child_page_no = read_be_u32(data, cpos);
    let key = Key::from_bytes(&data[off + 2..cpos]);
    Some((InternalEntry { key, child_page_no }, cpos + 4))
}

impl BTreeNode {
    /// The node's bytes, for the page data area (see `node_encoding`).
    pub fn serialize(&self) -> (r: Vec<u8>)
        ensures
            r@ == node_encoding(self@),
    {
        let mut buf: Vec<u8> = Vec::new();
        match self {
            BTreeNode::Leaf(leaf) => {
                let ghost v = leaf@;
                buf.push(NODE_TYPE_LEAF);
                let prev = match leaf.prev_page_no {
                    Some(p) => p,
                    None => PAGE_NO_NONE,
                };
                let next = match leaf.next_page_no {
                    Some(p) => p,
                    None => PAGE_NO_NONE,
                };
                append_be_u32(&mut buf, prev);
                append_be_u32(&mut buf, next);
                append_be_u16(&mut buf, (leaf.entries.len() % 0x1_0000) as u16);
                assert(buf@ =~= leaf_header_encoding(v));
                assert(v.entries.take(0) =~= Seq::<(Seq<u8>, Seq<u8>)>::empty());
                let mut i: usize = 0;
                while i < leaf.entries.len()
                    invariant
                        0 <= i <= leaf.entries@.len(),
                        v == leaf@,
                        buf@ == leaf_header_encoding(v) + leaf_entries_encoding(
                            v.entries.take(i as int),
                        ),
                    decreases leaf.entries@.len() - i,
                {
                    let e = &leaf.entries[i];
                    let ghost before = buf@;
                    e.key.serialize_into(&mut buf);
                    append_be_u16(&mut buf, (e.value.len() % 0x1_0000) as u16);
                    buf.extend_from_slice(e.value.as_slice());
                    proof {
                        let t = v.entries.take(i + 1);
                        assert(t.drop_last() =~= v.entries.take(i as int));
                        assert(t.last() == e@);
                        assert(buf@ =~= before + leaf_entry_encoding(e@));
                    }
                    i = i + 1;
                }
                assert(v.entries.take(leaf.entries.len() as int) =~= v.entries);
            },
            BTreeNode::Internal(node) => {
                let ghost v = node@;
                buf.push(NODE_TYPE_INTERNAL);
                append_be_u32(&mut buf, node.first_child_page_no);
                append_be_u16(&mut buf, (node.entries.len() % 0x1_0000) as u16);
                assert(buf@ =~= internal_header_encoding(v));
                assert(v.entries.take(0) =~= Seq::<(Seq<u8>, u32)>::empty());
                let mut i: usize = 0;
                while i < node.entries.len()
                    invariant
                        0 <= i <= node.entries@.len(),
                        v == node@,
                        buf@ == internal_header_encoding(v) + internal_entries_encoding(
                            v.entries.take(i as int),
                        ),
                    decreases node.entries@.len() - i,
                {
                    let e = &node.entries[i];
                    let ghost before = buf@;
                    e.key.serialize_into(&mut buf);
                    append_be_u32(&mut buf, e.child_page_no);
                    proof {
                        let t = v.entries.take(i + 1);
                        assert(t.drop_last() =~= v.entries.take(i as int));
                        assert(t.last() == e@);
                        assert(buf@ =~= before + internal_entry_encoding(e@));
                    }
                    i = i + 1;
                }
                assert(v.entries.take(node.entries.len() as int) =~= v.entries);
            },
        }
        buf
    }

    /// Decodes a node from the front of `data`; `None` when the bytes do not
    /// hold one (see `parse_node`).
    pub fn try_deserialize(data: &[u8]) -> (r: Option<BTreeNode>)
        ensures
            match r {
                Some(n) => parse_node(data@) == Some(n@),
                None => parse_node(data@) is None,
            },
    {
        let len = data.len();
        if len < 1 {
            return None;
        }
        let node_type = data[0];
        if node_type == NODE_TYPE_LEAF {
            if len < 11 {
                return None;
            }
            let prev = read_be_u32(data, 1);
            let next = read_be_u32(data, 5);
            let count = read_be_u16(data, 9) as usize;
            let mut entries: Vec<LeafEntry> = Vec::new();
            let mut off: usize = 11;
            let mut i: usize = 0;
            assert(leaf_entries_view(entries@) =~= Seq::<(Seq<u8>, Seq<u8>)>::empty());
            while i < count
                invariant
                    0 <= i <= count,
                    off <= data@.len(),
                    data@.len() >= 11,
                    data@[0] == NODE_TYPE_LEAF,
                    count == num_at(data@, 9, 2),
                    parse_leaf_entries(data@, 11, i as nat) == Some(
                        (leaf_entries_view(entries@), off as int),
                    ),
                decreases count - i,
            {
                match parse_leaf_entry_at(data, off) {
                    Some((e, o)) => {
                        let ghost pe = e@;
                        let ghost before = entries@;
                        entries.push(e);
                        assert(leaf_entries_view(entries@) =~= leaf_entries_view(before).push(pe)) by {
                            assert(leaf_entries_view(entries@).len() == entries@.len());
                        }
                        off = o;
                    },
                    None => {
                        proof {
                            lemma_parse_leaf_entries_stuck(data@, 11, i as nat, count as nat);
                        }
                        return None;
                    },
                }
                i = i + 1;
            }
            let prev_page_no = if prev == PAGE_NO_NONE {
                None
            } else {
                Some(prev)
            };
            let next_page_no = if next == PAGE_NO_NONE {
                None
            } else {
                Some(next)
            };
            Some(BTreeNode::Leaf(LeafNode { entries, prev_page_no, next_page_no }))
        } else if node_type == NODE_TYPE_INTERNAL {
            if len < 7 {
                return None;
            }
            let first_child = read_be_u32(data, 1);
            let count = read_be_u16(data, 5) as usize;
            let mut entries: Vec<InternalEntry> = Vec::new();
            let mut off: usize = 7;
            let mut i: usize = 0;
            assert(internal_entries_view(entries@) =~= Seq::<(Seq<u8>, u32)>::empty());
            while i < count
                invariant
                    0 <= i <= count,
                    off <= data@.len(),
                    data@.len() >= 7,
                    data@[0] == NODE_TYPE_INTERNAL,
                    count == num_at(data@, 5, 2),
                    parse_internal_entries(data@, 7, i as nat) == Some(
                        (internal_entries_view(entries@), off as int),
                    ),
                decreases count - i,
            {
                match parse_internal_entry_at(data, off) {
                    Some((e, o)) => {
                        let ghost pe = e@;
                        let ghost before = entries@;
                        entries.push(e);
                        assert(internal_entries_view(entries@) =~= internal_entries_view(before).push(pe)) by {
                            assert(internal_entries_view(entries@).len() == entries@.len());
                        }
                        off = o;
                    },
                    None => {
                        proof {
                            lemma_parse_internal_entries_stuck(data@, 7, i as nat, count as nat);
                        }
                        return None;
                    },
                }
                i = i + 1;
            }
            Some(BTreeNode::Internal(InternalNode { first_child_page_no: first_child, entries }))
        } else {
            None
        }
    }

    /// Decodes a node from the front of `data` (see `parse_node`).
    pub fn deserialize(data: &[u8]) -> (r: BTreeNode)
        requires
            parse_node(data@) is Some,
        ensures
            parse_node(data@) == Some(r@),
    {
        match Self::try_deserialize(data) {
            Some(n) => n,
            None => {
                proof {
                    assert(false);
                }
                BTreeNode::new_leaf()
            },
        }
    }
}

} // verus!
