use mini_innodb::page::{page_offset, pages_in_len, Page, PageError, PageId, PageType, PAGE_SIZE};

#[test]
fn test_new_page_has_correct_id() {
    let id = PageId::new(1, 42);
    let page = Page::new(id, PageType::Index);

    assert_eq!(page.page_no(), 42);
    assert_eq!(page.space_id(), 1);
    assert_eq!(page.page_id(), id);
    assert_eq!(page.page_type(), Some(PageType::Index));
}

#[test]
fn test_checksum_roundtrip() {
    let mut page = Page::new(PageId::new(0, 0), PageType::Index);
    page.write_data(0, b"hello innodb").unwrap();
    page.update_checksum();

    assert!(page.verify_checksum());
}

#[test]
fn test_checksum_detects_corruption() {
    let mut page = Page::new(PageId::new(0, 0), PageType::Index);
    page.write_data(0, b"hello innodb").unwrap();
    page.update_checksum();

    page.as_bytes_mut()[100] ^= 0xFF;
    assert!(!page.verify_checksum());
}

#[test]
fn test_lsn_roundtrip() {
    let mut page = Page::new(PageId::new(0, 0), PageType::Index);
    page.set_lsn(123456789);
    assert_eq!(page.lsn(), 123456789);
}

#[test]
fn test_prev_next_page() {
    let mut page = Page::new(PageId::new(0, 5), PageType::Index);
    page.set_prev_page(4);
    page.set_next_page(6);
    assert_eq!(page.prev_page(), 4);
    assert_eq!(page.next_page(), 6);
}

#[test]
fn test_data_write_read() {
    let mut page = Page::new(PageId::new(0, 0), PageType::Index);
    let data = b"test data for innodb page";
    page.write_data(0, data).unwrap();

    let read = page.read_data(0, data.len()).unwrap();
    assert_eq!(read, data);
}

#[test]
fn test_data_out_of_bounds() {
    let mut page = Page::new(PageId::new(0, 0), PageType::Index);
    let huge = vec![0u8; PAGE_SIZE];
    assert!(page.write_data(0, &huge).is_err());
}

// ── further checks ──

#[test]
fn test_new_page_is_zero_outside_header_fields() {
    let page = Page::new(PageId::new(7, 9), PageType::UndoLog);
    let bytes = page.as_bytes();
    // page number 9 big-endian at offset 4
    assert_eq!(&bytes[4..8], &[0, 0, 0, 9]);
    // space id 7 big-endian at offset 34
    assert_eq!(&bytes[34..38], &[0, 0, 0, 7]);
    // page type code 2 at offset 24
    assert_eq!(&bytes[24..26], &[0, 2]);
    assert!(bytes[38..].iter().all(|b| *b == 0));
    assert_eq!(page.page_type(), Some(PageType::UndoLog));
}

#[test]
fn test_lsn_trailer_low_bits() {
    let mut page = Page::new(PageId::new(0, 0), PageType::Index);
    page.set_lsn(0x0102_0304_0506_0708);
    let bytes = page.as_bytes();
    assert_eq!(&bytes[16..24], &[1, 2, 3, 4, 5, 6, 7, 8]);
    assert_eq!(&bytes[PAGE_SIZE - 4..], &[5, 6, 7, 8]);
    assert_eq!(page.lsn(), 0x0102_0304_0506_0708);
}

#[test]
fn test_checksum_stored_in_header_and_trailer() {
    let mut page = Page::new(PageId::new(3, 4), PageType::Index);
    page.update_checksum();
    let c = page.compute_checksum();
    assert_eq!(page.checksum(), c);
    let bytes = page.as_bytes();
    assert_eq!(&bytes[0..4], &bytes[PAGE_SIZE - 8..PAGE_SIZE - 4]);
    assert_eq!(u32::from_be_bytes([bytes[0], bytes[1], bytes[2], bytes[3]]), c);
    // the checksum covers bytes 4..PAGE_SIZE-8 and the last four bytes
    let mut region = bytes[4..PAGE_SIZE - 8].to_vec();
    region.extend_from_slice(&bytes[PAGE_SIZE - 4..]);
    assert_eq!(crc32fast::hash(&region), c);
}

#[test]
fn test_fresh_page_checksum_does_not_verify() {
    let page = Page::new(PageId::new(0, 1), PageType::Index);
    assert!(!page.verify_checksum());
}

#[test]
fn test_write_data_error_reports_absolute_offset() {
    let mut page = Page::new(PageId::new(0, 0), PageType::Index);
    let data = [1u8; 10];
    let r = page.write_data(Page::DATA_END - Page::DATA_START - 5, &data);
    assert_eq!(r, Err(PageError::OutOfBounds { offset: Page::DATA_END - 5, len: 10 }));
    // the page is unchanged
    assert!(page.as_bytes()[38..].iter().all(|b| *b == 0));
    // exactly filling the data area is allowed
    let full = vec![7u8; Page::DATA_END - Page::DATA_START];
    assert!(page.write_data(0, &full).is_ok());
    assert_eq!(page.read_data(0, full.len()).unwrap(), &full[..]);
    assert!(page.read_data(1, full.len()).is_err());
}

#[test]
fn test_page_type_codes() {
    let all = [
        (PageType::Allocated, 0u16),
        (PageType::UndoLog, 2),
        (PageType::Inode, 3),
        (PageType::IbufFreeList, 4),
        (PageType::IbufBitmap, 5),
        (PageType::System, 6),
        (PageType::TrxSystem, 7),
        (PageType::FspHeader, 8),
        (PageType::ExtentDescriptor, 9),
        (PageType::Blob, 10),
        (PageType::Index, 17855),
    ];
    for (t, code) in all {
        assert_eq!(t.as_u16(), code);
        assert_eq!(PageType::from_u16(code), Some(t));
    }
    assert_eq!(PageType::from_u16(1), None);
    assert_eq!(PageType::from_u16(11), None);
}

#[test]
fn test_from_bytes_keeps_bytes() {
    let mut raw = [0u8; PAGE_SIZE];
    raw[4..8].copy_from_slice(&77u32.to_be_bytes());
    raw[8..12].copy_from_slice(&76u32.to_be_bytes());
    raw[12..16].copy_from_slice(&78u32.to_be_bytes());
    let page = Page::from_bytes(raw);
    assert_eq!(page.page_no(), 77);
    assert_eq!(page.prev_page(), 76);
    assert_eq!(page.next_page(), 78);
    assert_eq!(page.as_bytes()[..], raw[..]);
}

#[test]
fn test_pages_in_len_counts_whole_pages() {
    assert_eq!(pages_in_len(0), 0);
    assert_eq!(pages_in_len(PAGE_SIZE as u64 - 1), 0);
    assert_eq!(pages_in_len(PAGE_SIZE as u64), 1);
    assert_eq!(pages_in_len(3 * PAGE_SIZE as u64 + 5), 3);
}

#[test]
fn test_pages_in_len_keeps_32_bits() {
    assert_eq!(pages_in_len((1u64 << 32) * PAGE_SIZE as u64 + 2 * PAGE_SIZE as u64), 2);
}

#[test]
fn test_page_offset() {
    assert_eq!(page_offset(0), 0);
    assert_eq!(page_offset(1), 16384);
    assert_eq!(page_offset(7), 7 * 16384);
    assert_eq!(page_offset(u32::MAX), u32::MAX as u64 * 16384);
}
