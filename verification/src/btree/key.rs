//! B+Tree search keys: byte strings ordered lexicographically.
//!
//! Keys built from integers store them big-endian, so the byte order of
//! such keys is the numeric order of the integers.

use vstd::prelude::*;
use crate::page::codec::{
    append_be_u16, be_bytes, be_value, lemma_be_bytes_len, lemma_be_value_bound,
    lemma_be_value_of_bytes, pow256, read_be_u16, read_be_u64,
};

verus! {

/// Lexicographic order on byte strings: `a` comes strictly before `b`.
pub open spec fn bytes_lt(a: Seq<u8>, b: Seq<u8>) -> bool
    decreases a.len(),
{
    if a.len() == 0 {
        b.len() > 0
    } else if b.len() == 0 {
        false
    } else if a[0] < b[0] {
        true
    } else if a[0] > b[0] {
        false
    } else {
        bytes_lt(a.drop_first(), b.drop_first())
    }
}

/// Lexicographic order, not strict.
pub open spec fn bytes_le(a: Seq<u8>, b: Seq<u8>) -> bool {
    bytes_lt(a, b) || a == b
}

/// The outcome of comparing two keys.
#[derive(Debug, Clone, Copy, PartialEq, Eq, Structural)]
pub enum KeyOrder {
    Less,
    Equal,
    Greater,
}

/// The outcome of comparing two byte strings.
pub open spec fn spec_key_order(a: Seq<u8>, b: Seq<u8>) -> KeyOrder {
    if bytes_lt(a, b) {
        KeyOrder::Less
    } else if a == b {
        KeyOrder::Equal
    } else {
        KeyOrder::Greater
    }
}

/// No byte string comes before itself.
pub proof fn lemma_bytes_lt_irreflexive(a: Seq<u8>)
    ensures
        !bytes_lt(a, a),
    decreases a.len(),
{
    if a.len() > 0 {
        lemma_bytes_lt_irreflexive(a.drop_first());
    }
}

/// Of two distinct byte strings exactly one comes first.
pub proof fn lemma_bytes_lt_trichotomy(a: Seq<u8>, b: Seq<u8>)
    ensures
        a != b ==> (bytes_lt(a, b) <==> !bytes_lt(b, a)),
        a == b ==> !bytes_lt(a, b),
    decreases a.len(),
{
    lemma_bytes_lt_irreflexive(a);
    if a.len() > 0 && b.len() > 0 && a[0] == b[0] {
        lemma_bytes_lt_trichotomy(a.drop_first(), b.drop_first());
        if a.drop_first() == b.drop_first() {
            assert(a =~= b) by {
                assert forall|i: int| 0 <= i < a.len() implies a[i] == b[i] by {
                    if i > 0 {
                        assert(a[i] == a.drop_first()[i - 1]);
                        assert(b[i] == b.drop_first()[i - 1]);
                    }
                }
            }
        }
    }
    if a.len() == 0 && b.len() == 0 {
        assert(a =~= b);
    }
}

/// The lexicographic order is transitive.
pub proof fn lemma_bytes_lt_transitive(a: Seq<u8>, b: Seq<u8>, c: Seq<u8>)
    requires
        bytes_lt(a, b),
        bytes_lt(b, c),
    ensures
        bytes_lt(a, c),
    decreases a.len(),
{
    if a.len() > 0 && b.len() > 0 && c.len() > 0 && a[0] == b[0] && b[0] == c[0] {
        lemma_bytes_lt_transitive(a.drop_first(), b.drop_first(), c.drop_first());
    }
}

/// `a <= b < c` gives `a < c`.
pub proof fn lemma_bytes_le_lt_transitive(a: Seq<u8>, b: Seq<u8>, c: Seq<u8>)
    requires
        bytes_le(a, b),
        bytes_lt(b, c),
    ensures
        bytes_lt(a, c),
{
    if a != b {
        lemma_bytes_lt_transitive(a, b, c);
    }
}

/// `a < b <= c` gives `a < c`.
pub proof fn lemma_bytes_lt_le_transitive(a: Seq<u8>, b: Seq<u8>, c: Seq<u8>)
    requires
        bytes_lt(a, b),
        bytes_le(b, c),
    ensures
        bytes_lt(a, c),
{
    if b != c {
        lemma_bytes_lt_transitive(a, b, c);
    }
}

/// Strings that agree on their first `i` bytes compare like their suffixes.
proof fn lemma_bytes_lt_common_prefix(a: Seq<u8>, b: Seq<u8>, i: int)
    requires
        0 <= i <= a.len(),
        i <= b.len(),
        a.subrange(0, i) == b.subrange(0, i),
    ensures
        bytes_lt(a, b) == bytes_lt(a.skip(i), b.skip(i)),
        a == b <==> a.skip(i) == b.skip(i),
    decreases i,
{
    if i > 0 {
        assert(a[0] == a.subrange(0, i)[0]);
        assert(b[0] == b.subrange(0, i)[0]);
        assert forall|k: int| 0 <= k < i implies a[k] == b[k] by {
            assert(a.subrange(0, i)[k] == a[k]);
            assert(b.subrange(0, i)[k] == b[k]);
        }
        assert(a.drop_first().subrange(0, i - 1) =~= b.drop_first().subrange(0, i - 1)) by {
            assert forall|k: int| 0 <= k < i - 1 implies a.drop_first()[k] == b.drop_first()[k] by {
                assert(a.drop_first()[k] == a[k + 1]);
                assert(b.drop_first()[k] == b[k + 1]);
            }
        }
        lemma_bytes_lt_common_prefix(a.drop_first(), b.drop_first(), i - 1);
        assert(a.drop_first().skip(i - 1) =~= a.skip(i));
        assert(b.drop_first().skip(i - 1) =~= b.skip(i));
        if a.skip(i) == b.skip(i) {
            assert(a =~= b) by {
                assert forall|k: int| 0 <= k < a.len() implies a[k] == b[k] by {
                    if k >= i {
                        assert(a.skip(i)[k - i] == a[k]);
                        assert(b.skip(i)[k - i] == b[k]);
                    }
                }
            }
        }
    } else {
        assert(a.skip(0) =~= a);
        assert(b.skip(0) =~= b);
    }
}

/// Splitting off the most significant byte of a big-endian number.
pub proof fn lemma_be_value_first(s: Seq<u8>)
    requires
        s.len() > 0,
    ensures
        be_value(s) == s[0] * pow256((s.len() - 1) as nat) + be_value(s.drop_first()),
    decreases s.len(),
{
    assert(be_value(s) == be_value(s.drop_last()) * 256 + (s.last() as nat));
    if s.len() == 1 {
        assert(be_value(s.drop_last()) == 0);
        assert(be_value(s.drop_first()) == 0);
        assert(s.last() == s[0]);
        assert(pow256(0) == 1);
        assert(s[0] * pow256(0) == s[0]);
    } else {
        let f = s.drop_first();
        assert(be_value(f) == be_value(f.drop_last()) * 256 + (f.last() as nat));
        let d = s.drop_last();
        lemma_be_value_first(d);
        assert(d[0] == s[0]);
        assert(d.drop_first() =~= f.drop_last());
        assert(f.last() == s.last());
        let p = pow256((s.len() - 2) as nat);
        let x = be_value(d.drop_first());
        let h = s[0] as int;
        let l = s.last() as int;
        assert(be_value(d) == h * p + x);
        assert(be_value(f) == x * 256 + l);
        assert(pow256((s.len() - 1) as nat) == 256 * p);
        assert((h * p + x) * 256 + l == h * (256 * p) + (x * 256 + l)) by (nonlinear_arith);
        assert(be_value(s) == h * (256 * p) + be_value(f));
    }
}

/// One more big-endian digit keeps the order of two values.
proof fn lemma_digit_step(h1: int, r1: int, h2: int, r2: int, p: int)
    requires
        0 <= r1 < p,
        0 <= r2 < p,
        h1 < h2,
    ensures
        h1 * p + r1 < h2 * p + r2,
{
    assert(h1 * p + p <= h2 * p) by (nonlinear_arith)
        requires
            h1 < h2,
            p > 0,
    ;
}

/// For byte strings of equal length the lexicographic order is the order of
/// the big-endian numbers they denote.
pub proof fn lemma_bytes_lt_is_value_lt(s: Seq<u8>, t: Seq<u8>)
    requires
        s.len() == t.len(),
    ensures
        bytes_lt(s, t) <==> be_value(s) < be_value(t),
    decreases s.len(),
{
    if s.len() > 0 {
        lemma_be_value_first(s);
        lemma_be_value_first(t);
        lemma_be_value_bound(s.drop_first());
        lemma_be_value_bound(t.drop_first());
        lemma_bytes_lt_is_value_lt(s.drop_first(), t.drop_first());
        let p = pow256((s.len() - 1) as nat) as int;
        let rs = be_value(s.drop_first()) as int;
        let rt = be_value(t.drop_first()) as int;
        if s[0] < t[0] {
            lemma_digit_step(s[0] as int, rs, t[0] as int, rt, p);
        } else if s[0] > t[0] {
            lemma_digit_step(t[0] as int, rt, s[0] as int, rs, p);
        }
    }
}

/// A B+Tree search key: a byte string.
#[derive(Debug, Clone, PartialEq, Eq, Hash, PartialOrd, Ord)]
pub struct Key(Vec<u8>);

impl View for Key {
    type V = Seq<u8>;

    closed spec fn view(&self) -> Seq<u8> {
        self.0@
    }
}

/// The byte encoding of a key: a two-byte big-endian length (taken modulo
/// 2^16) followed by the key bytes.
pub open spec fn key_encoding(k: Seq<u8>) -> Seq<u8> {
    be_bytes(k.len() % 0x1_0000, 2) + k
}

impl Key {
    pub fn new(data: Vec<u8>) -> (r: Self)
        ensures
            r@ == data@,
    {
        Key(data)
    }

    /// The key of `value`: its eight big-endian bytes.
    pub fn from_u64(value: u64) -> (r: Self)
        ensures
            r@ == be_bytes(value as nat, 8),
            r@.len() == 8,
    {
        let mut buf: Vec<u8> = Vec::new();
        crate::page::codec::append_be_u64(&mut buf, value);
        proof {
            lemma_be_bytes_len(value as nat, 8);
            assert(buf@ =~= be_bytes(value as nat, 8));
        }
        Key(buf)
    }

    /// The number an eight-byte key denotes; `None` for other lengths.
    pub fn as_u64(&self) -> (r: Option<u64>)
        ensures
            self@.len() == 8 ==> r == Some(be_value(self@) as u64),
            self@.len() != 8 ==> r is None,
    {
        if self.0.len() != 8 {
            return None;
        }
        let v = read_be_u64(self.0.as_slice(), 0);
        assert(self@.subrange(0, 8) =~= self@);
        Some(v)
    }

    pub fn as_bytes(&self) -> (r: &[u8])
        ensures
            r@ == self@,
    {
        self.0.as_slice()
    }

    pub fn len(&self) -> (r: usize)
        ensures
            r == self@.len(),
    {
        self.0.len()
    }

    pub fn from_bytes(data: &[u8]) -> (r: Self)
        ensures
            r@ == data@,
    {
        Key(vstd::slice::slice_to_vec(data))
    }

    /// Size of the encoding: two length bytes plus the key bytes.
    pub fn serialized_size(&self) -> (r: usize)
        requires
            self@.len() + 2 <= usize::MAX,
        ensures
            r == self@.len() + 2,
    {
        2 + self.0.len()
    }

    /// Appends the encoding of the key (see `key_encoding`) to `buf`.
    pub fn serialize_into(&self, buf: &mut Vec<u8>)
        ensures
            final(buf)@ == old(buf)@ + key_encoding(self@),
    {
        let n = self.0.len();
        let len16: u16 = (n % 0x1_0000) as u16;
        append_be_u16(buf, len16);
        let ghost mid = buf@;
        buf.extend_from_slice(self.0.as_slice());
        assert(buf@ =~= mid + self@);
        assert(buf@ =~= old(buf)@ + key_encoding(self@));
    }

    /// Decodes a key from the front of `data`; returns it with the number of
    /// bytes it took.
    pub fn deserialize_from(data: &[u8]) -> (r: (Self, usize))
        requires
            data@.len() >= 2,
            2 + be_value(data@.subrange(0, 2)) <= data@.len(),
        ensures
            r.0@ == data@.subrange(2, 2 + be_value(data@.subrange(0, 2)) as int),
            r.1 == 2 + be_value(data@.subrange(0, 2)),
    {
        let len = read_be_u16(data, 0) as usize;
        let key = Key(vstd::slice::slice_to_vec(&data[2..2 + len]));
        (key, 2 + len)
    }

    /// Three-way lexicographic comparison of the key bytes.
    pub fn compare_to(&self, other: &Key) -> (r: KeyOrder)
        ensures
            r == spec_key_order(self@, other@),
    {
        let a = self.0.as_slice();
        let b = other.0.as_slice();
        let n = if a.len() < b.len() {
            a.len()
        } else {
            b.len()
        };
        let mut i: usize = 0;
        while i < n
            invariant
                n <= a@.len(),
                n <= b@.len(),
                n == a@.len() || n == b@.len(),
                0 <= i <= n,
                a@.subrange(0, i as int) == b@.subrange(0, i as int),
                a@ == self@,
                b@ == other@,
            decreases n - i,
        {
            if a[i] != b[i] {
                proof {
                    lemma_bytes_lt_common_prefix(a@, b@, i as int);
                    lemma_bytes_lt_trichotomy(a@, b@);
                    assert(a@.skip(i as int)[0] == a@[i as int]);
                    assert(b@.skip(i as int)[0] == b@[i as int]);
                    assert(a@.skip(i as int) != b@.skip(i as int));
                }
                if a[i] < b[i] {
                    return KeyOrder::Less;
                } else {
                    return KeyOrder::Greater;
                }
            }
            assert(a@.subrange(0, i + 1) =~= a@.subrange(0, i as int).push(a@[i as int]));
            assert(b@.subrange(0, i + 1) =~= b@.subrange(0, i as int).push(b@[i as int]));
            i = i + 1;
        }
        proof {
            lemma_bytes_lt_common_prefix(a@, b@, n as int);
            lemma_bytes_lt_trichotomy(a@, b@);
            assert(a@.skip(n as int).len() == a@.len() - n);
            assert(b@.skip(n as int).len() == b@.len() - n);
            if a@.len() == b@.len() {
                assert(a@.skip(n as int) =~= b@.skip(n as int));
            }
        }
        if a.len() < b.len() {
            KeyOrder::Less
        } else if a.len() == b.len() {
            KeyOrder::Equal
        } else {
            KeyOrder::Greater
        }
    }
}

/// Integer keys compare like the integers: the byte order of the big-endian
/// encodings is the numeric order.
pub proof fn lemma_u64_key_order(a: u64, b: u64)
    ensures
        bytes_lt(be_bytes(a as nat, 8), be_bytes(b as nat, 8)) <==> a < b,
        be_bytes(a as nat, 8) == be_bytes(b as nat, 8) <==> a == b,
{
    lemma_be_bytes_len(a as nat, 8);
    lemma_be_bytes_len(b as nat, 8);
    assert(pow256(8) == 0x1_0000_0000_0000_0000) by {
        reveal_with_fuel(pow256, 9);
    }
    lemma_be_value_of_bytes(a as nat, 8);
    lemma_be_value_of_bytes(b as nat, 8);
    lemma_bytes_lt_is_value_lt(be_bytes(a as nat, 8), be_bytes(b as nat, 8));
}

/// Converting an integer to a key and back gives the integer.
pub proof fn lemma_u64_key_roundtrip(v: u64)
    ensures
        be_bytes(v as nat, 8).len() == 8,
        be_value(be_bytes(v as nat, 8)) == v,
{
    lemma_be_bytes_len(v as nat, 8);
    assert(pow256(8) == 0x1_0000_0000_0000_0000) by {
        reveal_with_fuel(pow256, 9);
    }
    lemma_be_value_of_bytes(v as nat, 8);
}

/// Decoding the encoding of a key shorter than 2^16 bytes gives the key back
/// and takes exactly the encoding's bytes, whatever follows it.
pub proof fn lemma_key_encoding_roundtrip(k: Seq<u8>, rest: Seq<u8>)
    requires
        k.len() < 0x1_0000,
    ensures
        ({
            let data = key_encoding(k) + rest;
            &&& data.len() >= 2
            &&& be_value(data.subrange(0, 2)) == k.len()
            &&& data.subrange(2, 2 + k.len() as int) == k
        }),
{
    let data = key_encoding(k) + rest;
    lemma_be_bytes_len(k.len() % 0x1_0000, 2);
    assert(pow256(2) == 0x1_0000) by {
        reveal_with_fuel(pow256, 3);
    }
    lemma_be_value_of_bytes(k.len() % 0x1_0000, 2);
    assert(data.subrange(0, 2) =~= be_bytes(k.len() % 0x1_0000, 2));
    assert(data.subrange(2, 2 + k.len() as int) =~= k);
}

} // verus!
