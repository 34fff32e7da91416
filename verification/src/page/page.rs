//! Fixed-size disk pages with an InnoDB-style FIL header and trailer.
//!
//! Every page starts with a 38-byte FIL header:
//!
//! | offset | size | field                                   |
//! |--------|------|-----------------------------------------|
//! | 0      | 4    | checksum                                |
//! | 4      | 4    | page number                             |
//! | 8      | 4    | previous page (B+Tree leaf chain)       |
//! | 12     | 4    | next page (B+Tree leaf chain)           |
//! | 16     | 8    | LSN of the last change                  |
//! | 24     | 2    | page type                               |
//! | 26     | 8    | flushed LSN                             |
//! | 34     | 4    | space id                                |
//!
//! and ends with an 8-byte FIL trailer: a copy of the checksum and the low
//! 32 bits of the LSN. All fields are big-endian.

use vstd::prelude::*;
use super::codec::{
    be_bytes, be_value, lemma_be_bytes_len, lemma_be_value_of_bytes, pow256, read_be_u16, read_be_u32,
    read_be_u64, write_be_u16, write_be_u32, write_be_u64,
};
use super::page_id::PageId;
use super::page_type::{page_type_code, page_type_of_code, PageType};

verus! {

/// Size of every page in bytes (16 KiB).
pub const PAGE_SIZE: usize = 16384;

/// Header offset of the checksum.
pub const FIL_CHECKSUM: usize = 0;
/// Header offset of the page number.
pub const FIL_PAGE_NO: usize = 4;
/// Header offset of the previous page in the leaf chain.
pub const FIL_PREV: usize = 8;
/// Header offset of the next page in the leaf chain.
pub const FIL_NEXT: usize = 12;
/// Header offset of the LSN.
pub const FIL_LSN: usize = 16;
/// Header offset of the page type.
pub const FIL_PAGE_TYPE: usize = 24;
/// Header offset of the flushed LSN.
pub const FIL_FLUSH_LSN: usize = 26;
/// Header offset of the space id.
pub const FIL_SPACE_ID: usize = 34;
/// Size of the FIL header.
pub const FIL_HEADER_SIZE: usize = 38;
/// Trailer offset of the checksum copy.
pub const FIL_TRAILER_CHECKSUM: usize = PAGE_SIZE - 8;
/// Trailer offset of the low 32 bits of the LSN.
pub const FIL_TRAILER_LSN_LOW: usize = PAGE_SIZE - 4;

/// The number of whole pages in a tablespace file of `len` bytes, as a page
/// number: the first page number past the file's end, which is the number
/// of the next page allocated at the end. Like the page numbers it stands
/// for, it is kept to 32 bits.
pub fn pages_in_len(len: u64) -> (r: u32)
    ensures
        r == (len / (PAGE_SIZE as u64)) as u32,
{
    #[verifier::truncate]
    ((len / (PAGE_SIZE as u64)) as u32)
}

/// The byte offset of page `page_no` in its tablespace file: pages stand one
/// after another from the start of the file.
pub fn page_offset(page_no: u32) -> (r: u64)
    ensures
        r == page_no * PAGE_SIZE,
{
    assert(page_no * PAGE_SIZE <= u64::MAX) by (nonlinear_arith)
        requires
            page_no <= u32::MAX,
    ;
    (page_no as u64) * (PAGE_SIZE as u64)
}

/// The value of the `n`-byte big-endian field at `off` in `b`.
pub open spec fn field_at(b: Seq<u8>, off: int, n: int) -> nat {
    be_value(b.subrange(off, off + n))
}

/// `b` with the bytes `f` written at `off`.
pub open spec fn write_at(b: Seq<u8>, off: int, f: Seq<u8>) -> Seq<u8> {
    b.subrange(0, off) + f + b.subrange(off + f.len(), b.len() as int)
}

/// The stored checksum field.
pub open spec fn spec_checksum(b: Seq<u8>) -> nat {
    field_at(b, FIL_CHECKSUM as int, 4)
}

/// The checksum copy in the trailer.
pub open spec fn spec_trailer_checksum(b: Seq<u8>) -> nat {
    field_at(b, FIL_TRAILER_CHECKSUM as int, 4)
}

/// The page number field.
pub open spec fn spec_page_no(b: Seq<u8>) -> nat {
    field_at(b, FIL_PAGE_NO as int, 4)
}

/// The previous-page field.
pub open spec fn spec_prev_page(b: Seq<u8>) -> nat {
    field_at(b, FIL_PREV as int, 4)
}

/// The next-page field.
pub open spec fn spec_next_page(b: Seq<u8>) -> nat {
    field_at(b, FIL_NEXT as int, 4)
}

/// The LSN field.
pub open spec fn spec_lsn(b: Seq<u8>) -> nat {
    field_at(b, FIL_LSN as int, 8)
}

/// The low 32 bits of the LSN kept in the trailer.
pub open spec fn spec_trailer_lsn_low(b: Seq<u8>) -> nat {
    field_at(b, FIL_TRAILER_LSN_LOW as int, 4)
}

/// The page type field.
pub open spec fn spec_page_type_code(b: Seq<u8>) -> nat {
    field_at(b, FIL_PAGE_TYPE as int, 2)
}

/// The tablespace id field.
pub open spec fn spec_space_id(b: Seq<u8>) -> nat {
    field_at(b, FIL_SPACE_ID as int, 4)
}

/// The bytes the checksum covers: everything but the two checksum fields.
pub open spec fn checksum_region(b: Seq<u8>) -> Seq<u8> {
    b.subrange(FIL_PAGE_NO as int, FIL_TRAILER_CHECKSUM as int) + b.subrange(
        FIL_TRAILER_LSN_LOW as int,
        PAGE_SIZE as int,
    )
}

/// The page image with the checksum of its contents stored in the header and
/// in the trailer.
pub open spec fn page_with_checksum(b: Seq<u8>) -> Seq<u8> {
    write_at(
        write_at(b, FIL_CHECKSUM as int, be_bytes(crc32(checksum_region(b)) as nat, 4)),
        FIL_TRAILER_CHECKSUM as int,
        be_bytes(crc32(checksum_region(b)) as nat, 4),
    )
}

/// A page image whose stored header checksum matches its contents.
pub open spec fn checksum_matches(b: Seq<u8>) -> bool {
    spec_checksum(b) == crc32(checksum_region(b)) as nat
}

/// The image of a freshly created page: all zero except the page number,
/// space id and page type fields.
pub open spec fn new_page_image(page_id: PageId, page_type: PageType) -> Seq<u8> {
    write_at(
        write_at(
            write_at(
                Seq::new(PAGE_SIZE as nat, |i: int| 0u8),
                FIL_PAGE_NO as int,
                be_bytes(page_id.page_no as nat, 4),
            ),
            FIL_SPACE_ID as int,
            be_bytes(page_id.space_id as nat, 4),
        ),
        FIL_PAGE_TYPE as int,
        be_bytes(page_type_code(page_type) as nat, 2),
    )
}

/// The CRC-32 (IEEE) checksum of `bytes`, as `crc32fast` computes it.
pub uninterp spec fn crc32(bytes: Seq<u8>) -> u32;

/// Calls `crc32fast::hash`, the CRC-32 (IEEE 802.3 polynomial) of a byte slice.
/// Its value is named by `crc32`; nothing more about it is stated.
#[verifier::external_body]
fn crc32_of(bytes: &[u8]) -> (r: u32)
    ensures
        r == crc32(bytes@),
{
    crc32fast::hash(bytes)
}

/// Errors of page data access.
#[derive(Debug, Clone, Copy, PartialEq, Eq, Structural)]
pub enum PageError {
    /// The access `[offset, offset + len)` (absolute page offsets) does not
    /// lie inside the user data area.
    OutOfBounds { offset: usize, len: usize },
}

/// A 16 KiB disk page.
pub struct Page {
    data: [u8; PAGE_SIZE],
}

impl View for Page {
    type V = Seq<u8>;

    closed spec fn view(&self) -> Seq<u8> {
        self.data@
    }
}

/// Reading a field just written gives the written value; a field that does
/// not overlap the write keeps its value.
pub proof fn lemma_field_after_write(b: Seq<u8>, off: int, n: nat, v: nat, off2: int, n2: int)
    requires
        0 <= off,
        off + n <= b.len(),
        v < pow256(n),
        0 <= off2,
        0 <= n2,
        off2 + n2 <= b.len(),
    ensures
        write_at(b, off, be_bytes(v, n)).len() == b.len(),
        field_at(write_at(b, off, be_bytes(v, n)), off, n as int) == v,
        off2 + n2 <= off || off + n <= off2 ==> field_at(write_at(b, off, be_bytes(v, n)), off2, n2)
            == field_at(b, off2, n2),
{
    lemma_be_bytes_len(v, n);
    lemma_be_value_of_bytes(v, n);
    let w = write_at(b, off, be_bytes(v, n));
    assert(w.subrange(off, off + n) =~= be_bytes(v, n));
    if off2 + n2 <= off || off + n <= off2 {
        assert(w.subrange(off2, off2 + n2) =~= b.subrange(off2, off2 + n2));
    }
}

/// Storing the checksum leaves the checksummed bytes alone, so the stored
/// checksum then matches the contents, in the header and in the trailer.
pub proof fn lemma_page_with_checksum(b: Seq<u8>)
    requires
        b.len() == PAGE_SIZE,
    ensures
        page_with_checksum(b).len() == PAGE_SIZE,
        checksum_region(page_with_checksum(b)) == checksum_region(b),
        checksum_matches(page_with_checksum(b)),
        spec_trailer_checksum(page_with_checksum(b)) == spec_checksum(page_with_checksum(b)),
{
    let c = crc32(checksum_region(b)) as nat;
    let b1 = write_at(b, FIL_CHECKSUM as int, be_bytes(c, 4));
    lemma_pow256_facts();
    lemma_field_after_write(b, FIL_CHECKSUM as int, 4, c, 0, 0);
    lemma_field_after_write(b1, FIL_TRAILER_CHECKSUM as int, 4, c, FIL_CHECKSUM as int, 4);
    lemma_be_bytes_len(c, 4);
    assert(checksum_region(page_with_checksum(b)) =~= checksum_region(b));
}

/// Each header setter stores exactly its value: reading the field back gives
/// the value (the page type decodes to the type), and `set_lsn` also puts the
/// low 32 bits of the LSN in the trailer.
pub proof fn lemma_header_set_get(b: Seq<u8>, v: u32, lsn: u64, t: PageType)
    requires
        b.len() == PAGE_SIZE,
    ensures
        spec_page_no(write_at(b, FIL_PAGE_NO as int, be_bytes(v as nat, 4))) == v,
        spec_prev_page(write_at(b, FIL_PREV as int, be_bytes(v as nat, 4))) == v,
        spec_next_page(write_at(b, FIL_NEXT as int, be_bytes(v as nat, 4))) == v,
        spec_space_id(write_at(b, FIL_SPACE_ID as int, be_bytes(v as nat, 4))) == v,
        ({
            let after = write_at(
                write_at(b, FIL_LSN as int, be_bytes(lsn as nat, 8)),
                FIL_TRAILER_LSN_LOW as int,
                be_bytes((lsn % 0x1_0000_0000) as nat, 4),
            );
            &&& spec_lsn(after) == lsn
            &&& spec_trailer_lsn_low(after) == lsn % 0x1_0000_0000
        }),
        page_type_of_code(
            spec_page_type_code(
                write_at(b, FIL_PAGE_TYPE as int, be_bytes(page_type_code(t) as nat, 2)),
            ) as u16,
        ) == Some(t),
{
    lemma_pow256_facts();
    lemma_field_after_write(b, FIL_PAGE_NO as int, 4, v as nat, 0, 0);
    lemma_field_after_write(b, FIL_PREV as int, 4, v as nat, 0, 0);
    lemma_field_after_write(b, FIL_NEXT as int, 4, v as nat, 0, 0);
    lemma_field_after_write(b, FIL_SPACE_ID as int, 4, v as nat, 0, 0);
    let b1 = write_at(b, FIL_LSN as int, be_bytes(lsn as nat, 8));
    lemma_field_after_write(b, FIL_LSN as int, 8, lsn as nat, 0, 0);
    lemma_field_after_write(
        b1,
        FIL_TRAILER_LSN_LOW as int,
        4,
        (lsn % 0x1_0000_0000) as nat,
        FIL_LSN as int,
        8,
    );
    lemma_field_after_write(b, FIL_PAGE_TYPE as int, 2, page_type_code(t) as nat, 0, 0);
}

/// Reading the user data area where bytes were written gives those bytes;
/// the rest of the page keeps its contents.
pub proof fn lemma_data_write_read(b: Seq<u8>, offset: int, data: Seq<u8>)
    requires
        0 <= offset,
        Page::DATA_START + offset + data.len() <= Page::DATA_END,
        b.len() == PAGE_SIZE,
    ensures
        ({
            let w = write_at(b, Page::DATA_START + offset, data);
            &&& w.len() == PAGE_SIZE
            &&& w.subrange(Page::DATA_START + offset, Page::DATA_START + offset + data.len()) == data
            &&& forall|i: int|
                0 <= i < PAGE_SIZE && !(Page::DATA_START + offset <= i < Page::DATA_START + offset
                    + data.len()) ==> #[trigger] w[i] == b[i]
        }),
{
    let w = write_at(b, Page::DATA_START + offset, data);
    assert(w.subrange(Page::DATA_START + offset, Page::DATA_START + offset + data.len()) =~= data);
}

/// The powers of 256 used by the header fields.
proof fn lemma_pow256_facts()
    ensures
        pow256(2) == 0x1_0000,
        pow256(4) == 0x1_0000_0000,
        pow256(8) == 0x1_0000_0000_0000_0000,
{
    reveal_with_fuel(pow256, 9);
}

impl Page {
    /// Offset where the user data area starts (right after the FIL header).
    pub const DATA_START: usize = 38;
    /// Offset where the user data area ends, exclusive (the FIL trailer).
    pub const DATA_END: usize = 16376;

    /// A new page: all zero except the page number, space id and type fields.
    pub fn new(page_id: PageId, page_type: PageType) -> (r: Self)
        ensures
            r@ == new_page_image(page_id, page_type),
            spec_page_no(r@) == page_id.page_no,
            spec_space_id(r@) == page_id.space_id,
            spec_page_type_code(r@) == page_type_code(page_type),
    {
        let mut page = Page { data: [0u8; PAGE_SIZE] };
        assert(page@ =~= Seq::new(PAGE_SIZE as nat, |i: int| 0u8));
        page.set_page_no(page_id.page_no);
        page.set_space_id(page_id.space_id);
        page.set_page_type(page_type);
        proof {
            let b0 = Seq::new(PAGE_SIZE as nat, |i: int| 0u8);
            let b1 = write_at(b0, FIL_PAGE_NO as int, be_bytes(page_id.page_no as nat, 4));
            let b2 = write_at(b1, FIL_SPACE_ID as int, be_bytes(page_id.space_id as nat, 4));
            lemma_pow256_facts();
            lemma_field_after_write(b0, FIL_PAGE_NO as int, 4, page_id.page_no as nat, 0, 0);
            lemma_field_after_write(
                b1,
                FIL_SPACE_ID as int,
                4,
                page_id.space_id as nat,
                FIL_PAGE_NO as int,
                4,
            );
            lemma_field_after_write(
                b2,
                FIL_PAGE_TYPE as int,
                2,
                page_type_code(page_type) as nat,
                FIL_PAGE_NO as int,
                4,
            );
            lemma_field_after_write(
                b2,
                FIL_PAGE_TYPE as int,
                2,
                page_type_code(page_type) as nat,
                FIL_SPACE_ID as int,
                4,
            );
        }
        page
    }

    /// A page holding exactly the given bytes.
    pub fn from_bytes(bytes: [u8; PAGE_SIZE]) -> (r: Self)
        ensures
            r@ == bytes@,
    {
        Page { data: bytes }
    }

    /// The raw bytes of the page.
    pub fn as_bytes(&self) -> (r: &[u8; PAGE_SIZE])
        ensures
            r@ == self@,
    {
        &self.data
    }

    /// The raw bytes of the page, for modification.
    pub fn as_bytes_mut(&mut self) -> (r: &mut [u8; PAGE_SIZE])
        ensures
            r@ == old(self)@,
            final(self)@ == final(r)@,
    {
        &mut self.data
    }

    // ── FIL header reads ──
    pub fn checksum(&self) -> (r: u32)
        ensures
            r == spec_checksum(self@),
    {
        read_be_u32(self.data.as_slice(), FIL_CHECKSUM)
    }

    pub fn page_no(&self) -> (r: u32)
        ensures
            r == spec_page_no(self@),
    {
        read_be_u32(self.data.as_slice(), FIL_PAGE_NO)
    }

    pub fn prev_page(&self) -> (r: u32)
        ensures
            r == spec_prev_page(self@),
    {
        read_be_u32(self.data.as_slice(), FIL_PREV)
    }

    pub fn next_page(&self) -> (r: u32)
        ensures
            r == spec_next_page(self@),
    {
        read_be_u32(self.data.as_slice(), FIL_NEXT)
    }

    pub fn lsn(&self) -> (r: u64)
        ensures
            r == spec_lsn(self@),
    {
        read_be_u64(self.data.as_slice(), FIL_LSN)
    }

    /// The page type, or `None` when the stored code is not a known type.
    pub fn page_type(&self) -> (r: Option<PageType>)
        ensures
            r == page_type_of_code(spec_page_type_code(self@) as u16),
    {
        let raw = read_be_u16(self.data.as_slice(), FIL_PAGE_TYPE);
        PageType::from_u16(raw)
    }

    pub fn space_id(&self) -> (r: u32)
        ensures
            r == spec_space_id(self@),
    {
        read_be_u32(self.data.as_slice(), FIL_SPACE_ID)
    }

    pub fn page_id(&self) -> (r: PageId)
        ensures
            r.space_id == spec_space_id(self@),
            r.page_no == spec_page_no(self@),
    {
        PageId::new(self.space_id(), self.page_no())
    }

    // ── FIL header writes ──
    pub fn set_page_no(&mut self, page_no: u32)
        ensures
            final(self)@ == write_at(old(self)@, FIL_PAGE_NO as int, be_bytes(page_no as nat, 4)),
    {
        write_be_u32(&mut self.data, FIL_PAGE_NO, page_no);
    }

    pub fn set_prev_page(&mut self, prev: u32)
        ensures
            final(self)@ == write_at(old(self)@, FIL_PREV as int, be_bytes(prev as nat, 4)),
    {
        write_be_u32(&mut self.data, FIL_PREV, prev);
    }

    pub fn set_next_page(&mut self, next: u32)
        ensures
            final(self)@ == write_at(old(self)@, FIL_NEXT as int, be_bytes(next as nat, 4)),
    {
        write_be_u32(&mut self.data, FIL_NEXT, next);
    }

    /// Stores the LSN in the header and its low 32 bits in the trailer.
    pub fn set_lsn(&mut self, lsn: u64)
        ensures
            final(self)@ == write_at(
                write_at(old(self)@, FIL_LSN as int, be_bytes(lsn as nat, 8)),
                FIL_TRAILER_LSN_LOW as int,
                be_bytes((lsn % 0x1_0000_0000) as nat, 4),
            ),
    {
        write_be_u64(&mut self.data, FIL_LSN, lsn);
        let low = (lsn % 0x1_0000_0000) as u32;
        write_be_u32(&mut self.data, FIL_TRAILER_LSN_LOW, low);
    }

    pub fn set_page_type(&mut self, page_type: PageType)
        ensures
            final(self)@ == write_at(
                old(self)@,
                FIL_PAGE_TYPE as int,
                be_bytes(page_type_code(page_type) as nat, 2),
            ),
    {
        write_be_u16(&mut self.data, FIL_PAGE_TYPE, page_type.as_u16());
    }

    pub fn set_space_id(&mut self, space_id: u32)
        ensures
            final(self)@ == write_at(old(self)@, FIL_SPACE_ID as int, be_bytes(space_id as nat, 4)),
    {
        write_be_u32(&mut self.data, FIL_SPACE_ID, space_id);
    }

    /// Every page image is `PAGE_SIZE` bytes long.
    pub proof fn lemma_view_len(&self)
        ensures
            self@.len() == PAGE_SIZE,
    {
    }

    // ── checksum ──
    /// CRC-32 over the page, leaving out the header checksum (first four
    /// bytes) and the trailer checksum (the four bytes at `PAGE_SIZE - 8`).
    pub fn compute_checksum(&self) -> (r: u32)
        ensures
            r == crc32(checksum_region(self@)),
    {
        let mut region: Vec<u8> = Vec::new();
        region.extend_from_slice(&self.data[FIL_PAGE_NO..FIL_TRAILER_CHECKSUM]);
        region.extend_from_slice(&self.data[FIL_TRAILER_LSN_LOW..PAGE_SIZE]);
        assert(region@ =~= checksum_region(self@));
        crc32_of(region.as_slice())
    }

    /// Computes the checksum and stores it in the header and in the trailer.
    pub fn update_checksum(&mut self)
        ensures
            final(self)@ == page_with_checksum(old(self)@),
            checksum_region(final(self)@) == checksum_region(old(self)@),
            checksum_matches(final(self)@),
            spec_trailer_checksum(final(self)@) == spec_checksum(final(self)@),
    {
        let checksum = self.compute_checksum();
        write_be_u32(&mut self.data, FIL_CHECKSUM, checksum);
        write_be_u32(&mut self.data, FIL_TRAILER_CHECKSUM, checksum);
        proof {
            lemma_page_with_checksum(old(self)@);
        }
    }

    /// Whether the stored header checksum equals the checksum of the contents.
    pub fn verify_checksum(&self) -> (r: bool)
        ensures
            r == checksum_matches(self@),
    {
        let stored = self.checksum();
        let computed = self.compute_checksum();
        stored == computed
    }

    // ── user data area ──
    /// Copies `data` into the user data area at `offset` (relative to
    /// `DATA_START`); fails when it would reach into the FIL trailer.
    pub fn write_data(&mut self, offset: usize, data: &[u8]) -> (r: Result<(), PageError>)
        requires
            Self::DATA_START + offset + data@.len() <= usize::MAX,
        ensures
            Self::DATA_START + offset + data@.len() <= Self::DATA_END ==> r is Ok && final(self)@
                == write_at(old(self)@, Self::DATA_START + offset, data@),
            Self::DATA_START + offset + data@.len() > Self::DATA_END ==> r == Err::<(), PageError>(
                PageError::OutOfBounds { offset: (Self::DATA_START + offset) as usize, len: data@.len() as usize },
            ) && final(self)@ == old(self)@,
    {
        let abs_offset = Self::DATA_START + offset;
        if abs_offset + data.len() > Self::DATA_END {
            return Err(PageError::OutOfBounds { offset: abs_offset, len: data.len() });
        }
        let ghost b0 = self@;
        let mut i: usize = 0;
        while i < data.len()
            invariant
                0 <= i <= data@.len(),
                abs_offset == Self::DATA_START + offset,
                abs_offset + data@.len() <= Self::DATA_END,
                self@.len() == PAGE_SIZE,
                b0.len() == PAGE_SIZE,
                forall|k: int| 0 <= k < abs_offset ==> self@[k] == b0[k],
                forall|k: int| abs_offset + data@.len() <= k < PAGE_SIZE ==> self@[k] == b0[k],
                forall|k: int| abs_offset <= k < abs_offset + i ==> self@[k] == data@[k - abs_offset],
                forall|k: int| abs_offset + i <= k < abs_offset + data@.len() ==> self@[k] == b0[k],
            decreases data@.len() - i,
        {
            self.data[abs_offset + i] = data[i];
            i = i + 1;
        }
        assert(self@ =~= write_at(b0, abs_offset as int, data@));
        Ok(())
    }

    /// The `len` bytes of the user data area at `offset` (relative to
    /// `DATA_START`); fails when the range reaches into the FIL trailer.
    pub fn read_data(&self, offset: usize, len: usize) -> (r: Result<&[u8], PageError>)
        requires
            Self::DATA_START + offset + len <= usize::MAX,
        ensures
            Self::DATA_START + offset + len <= Self::DATA_END ==> r is Ok && r->Ok_0@
                == self@.subrange(Self::DATA_START + offset, Self::DATA_START + offset + len),
            Self::DATA_START + offset + len > Self::DATA_END ==> r == Err::<&[u8], PageError>(
                PageError::OutOfBounds { offset: (Self::DATA_START + offset) as usize, len },
            ),
    {
        let abs_offset = Self::DATA_START + offset;
        if abs_offset + len > Self::DATA_END {
            return Err(PageError::OutOfBounds { offset: abs_offset, len });
        }
        Ok(&self.data[abs_offset..abs_offset + len])
    }
}

} // verus!
