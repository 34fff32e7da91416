//! Big-endian integer encoding used by the page header and the node format.

use vstd::prelude::*;
use byteorder::{BigEndian, ByteOrder};

verus! {

/// `256^n`.
pub open spec fn pow256(n: nat) -> nat
    decreases n,
{
    if n == 0 {
        1
    } else {
        256 * pow256((n - 1) as nat)
    }
}

/// The unsigned integer that the bytes `s` denote, most significant byte first.
pub open spec fn be_value(s: Seq<u8>) -> nat
    decreases s.len(),
{
    if s.len() == 0 {
        0
    } else {
        be_value(s.drop_last()) * 256 + (s.last() as nat)
    }
}

/// The `n` low-order base-256 digits of `v`, most significant first.
pub open spec fn be_bytes(v: nat, n: nat) -> Seq<u8>
    decreases n,
{
    if n == 0 {
        Seq::empty()
    } else {
        be_bytes(v / 256, (n - 1) as nat).push((v % 256) as u8)
    }
}

/// `be_bytes(v, n)` has `n` bytes.
pub proof fn lemma_be_bytes_len(v: nat, n: nat)
    ensures
        be_bytes(v, n).len() == n,
    decreases n,
{
    if n > 0 {
        lemma_be_bytes_len(v / 256, (n - 1) as nat);
    }
}

/// The value of `n` bytes is below `256^n`.
pub proof fn lemma_be_value_bound(s: Seq<u8>)
    ensures
        be_value(s) < pow256(s.len()),
    decreases s.len(),
{
    if s.len() > 0 {
        lemma_be_value_bound(s.drop_last());
    }
}

/// Decoding the encoding of a value that fits in `n` bytes gives the value back.
pub proof fn lemma_be_value_of_bytes(v: nat, n: nat)
    requires
        v < pow256(n),
    ensures
        be_value(be_bytes(v, n)) == v,
    decreases n,
{
    lemma_be_bytes_len(v, n);
    if n > 0 {
        let p = pow256((n - 1) as nat);
        assert(v / 256 < p) by {
            assert(v < 256 * p);
        }
        lemma_be_value_of_bytes(v / 256, (n - 1) as nat);
        let s = be_bytes(v, n);
        assert(s.drop_last() =~= be_bytes(v / 256, (n - 1) as nat));
    } else {
        assert(v == 0);
    }
}

/// Encoding the value of `s` in `s.len()` bytes gives `s` back.
pub proof fn lemma_be_bytes_of_value(s: Seq<u8>)
    ensures
        be_bytes(be_value(s), s.len()) =~= s,
    decreases s.len(),
{
    if s.len() > 0 {
        let v = be_value(s);
        let w = be_value(s.drop_last());
        assert(v / 256 == w);
        assert(v % 256 == s.last());
        lemma_be_bytes_of_value(s.drop_last());
        assert(s.drop_last().push(s.last()) =~= s);
    }
}

/// Reads the big-endian `u16` stored at `buf[offset..offset + 2]`.
///
/// Calls `byteorder::BigEndian::read_u16`, which the crate defines as
/// `u16::from_be_bytes` of the first two bytes of its argument; the contract
/// says that the result is the value of those two bytes, most significant first.
#[verifier::external_body]
pub(crate) fn read_be_u16(buf: &[u8], offset: usize) -> (r: u16)
    requires
        offset + 2 <= buf@.len(),
    ensures
        r == be_value(buf@.subrange(offset as int, offset + 2)),
{
    BigEndian::read_u16(&buf[offset..])
}

/// Reads the big-endian `u32` stored at `buf[offset..offset + 4]`.
///
/// Calls `byteorder::BigEndian::read_u32` (`u32::from_be_bytes` of the first
/// four bytes); the contract says the result is the value of those bytes.
#[verifier::external_body]
pub(crate) fn read_be_u32(buf: &[u8], offset: usize) -> (r: u32)
    requires
        offset + 4 <= buf@.len(),
    ensures
        r == be_value(buf@.subrange(offset as int, offset + 4)),
{
    BigEndian::read_u32(&buf[offset..])
}

/// Reads the big-endian `u64` stored at `buf[offset..offset + 8]`.
///
/// Calls `byteorder::BigEndian::read_u64` (`u64::from_be_bytes` of the first
/// eight bytes); the contract says the result is the value of those bytes.
#[verifier::external_body]
pub(crate) fn read_be_u64(buf: &[u8], offset: usize) -> (r: u64)
    requires
        offset + 8 <= buf@.len(),
    ensures
        r == be_value(buf@.subrange(offset as int, offset + 8)),
{
    BigEndian::read_u64(&buf[offset..])
}

/// Writes `n` big-endian into `buf[offset..offset + 2]`, leaving the other bytes.
///
/// Calls `byteorder::BigEndian::write_u16`, which copies `n.to_be_bytes()`
/// into the first two bytes of its argument.
#[verifier::external_body]
pub(crate) fn write_be_u16(buf: &mut [u8], offset: usize, n: u16)
    requires
        offset + 2 <= old(buf)@.len(),
    ensures
        final(buf)@ == old(buf)@.subrange(0, offset as int) + be_bytes(n as nat, 2)
            + old(buf)@.subrange(offset + 2, old(buf)@.len() as int),
{
    BigEndian::write_u16(&mut buf[offset..], n)
}

/// Writes `n` big-endian into `buf[offset..offset + 4]`, leaving the other bytes.
///
/// Calls `byteorder::BigEndian::write_u32`, which copies `n.to_be_bytes()`
/// into the first four bytes of its argument.
#[verifier::external_body]
pub(crate) fn write_be_u32(buf: &mut [u8], offset: usize, n: u32)
    requires
        offset + 4 <= old(buf)@.len(),
    ensures
        final(buf)@ == old(buf)@.subrange(0, offset as int) + be_bytes(n as nat, 4)
            + old(buf)@.subrange(offset + 4, old(buf)@.len() as int),
{
    BigEndian::write_u32(&mut buf[offset..], n)
}

/// Writes `n` big-endian into `buf[offset..offset + 8]`, leaving the other bytes.
///
/// Calls `byteorder::BigEndian::write_u64`, which copies `n.to_be_bytes()`
/// into the first eight bytes of its argument.
#[verifier::external_body]
pub(crate) fn write_be_u64(buf: &mut [u8], offset: usize, n: u64)
    requires
        offset + 8 <= old(buf)@.len(),
    ensures
        final(buf)@ == old(buf)@.subrange(0, offset as int) + be_bytes(n as nat, 8)
            + old(buf)@.subrange(offset + 8, old(buf)@.len() as int),
{
    BigEndian::write_u64(&mut buf[offset..], n)
}

/// Appends `n` to `buf` as two big-endian bytes.
pub fn append_be_u16(buf: &mut Vec<u8>, n: u16)
    ensures
        final(buf)@ == old(buf)@ + be_bytes(n as nat, 2),
{
    let mut tmp = [0u8; 2];
    write_be_u16(&mut tmp, 0, n);
    buf.extend_from_slice(&tmp);
    proof {
        lemma_be_bytes_len(n as nat, 2);
    }
    assert(buf@ =~= old(buf)@ + be_bytes(n as nat, 2));
}

/// Appends `n` to `buf` as four big-endian bytes.
pub fn append_be_u32(buf: &mut Vec<u8>, n: u32)
    ensures
        final(buf)@ == old(buf)@ + be_bytes(n as nat, 4),
{
    let mut tmp = [0u8; 4];
    write_be_u32(&mut tmp, 0, n);
    buf.extend_from_slice(&tmp);
    proof {
        lemma_be_bytes_len(n as nat, 4);
    }
    assert(buf@ =~= old(buf)@ + be_bytes(n as nat, 4));
}

/// Appends `n` to `buf` as eight big-endian bytes.
pub fn append_be_u64(buf: &mut Vec<u8>, n: u64)
    ensures
        final(buf)@ == old(buf)@ + be_bytes(n as nat, 8),
{
    let mut tmp = [0u8; 8];
    write_be_u64(&mut tmp, 0, n);
    buf.extend_from_slice(&tmp);
    proof {
        lemma_be_bytes_len(n as nat, 8);
    }
    assert(buf@ =~= old(buf)@ + be_bytes(n as nat, 8));
}

} // verus!
