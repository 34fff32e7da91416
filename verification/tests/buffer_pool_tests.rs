use mini_innodb::buffer::buffer_pool::{FetchStep, FreeFrame};
use mini_innodb::buffer::{BufferPool, BufferPoolError};
use mini_innodb::page::{Page, PageId, PageType, PAGE_SIZE};

/// An in-memory stand-in for a tablespace file.
struct MemDisk {
    pages: Vec<[u8; PAGE_SIZE]>,
}

impl MemDisk {
    fn with_pages(num_pages: u32) -> Self {
        let mut pages = Vec::new();
        for i in 0..num_pages {
            let mut page = Page::new(PageId::new(0, i), PageType::Index);
            let msg = format!("page-{}", i);
            page.write_data(0, msg.as_bytes()).unwrap();
            page.update_checksum();
            pages.push(*page.as_bytes());
        }
        MemDisk { pages }
    }

    fn read(&self, page_no: u32) -> Page {
        Page::from_bytes(self.pages[page_no as usize])
    }

    fn write(&mut self, page: &Page) {
        let no = page.page_no() as usize;
        while self.pages.len() <= no {
            self.pages.push([0u8; PAGE_SIZE]);
        }
        self.pages[no] = *page.as_bytes();
    }

    fn allocate(&mut self, page_type: PageType) -> Page {
        let no = self.pages.len() as u32;
        let mut page = Page::new(PageId::new(0, no), page_type);
        page.update_checksum();
        self.write(&page);
        page
    }
}

fn finish_miss(pool: &mut BufferPool, disk: &mut MemDisk, ff: FreeFrame) {
    if ff.write_back {
        let page = pool.frame_page(ff.frame_idx);
        disk.write(page);
    }
    if ff.evicted {
        pool.evict_frame(ff.frame_idx);
    }
}

fn fetch(pool: &mut BufferPool, disk: &mut MemDisk, id: PageId) -> Result<usize, BufferPoolError> {
    assert!(pool.can_fetch(id));
    match pool.fetch_page(id)? {
        FetchStep::Hit(idx) => Ok(idx),
        FetchStep::Miss(ff) => {
            finish_miss(pool, disk, ff);
            let page = disk.read(id.page_no);
            pool.load_frame(ff.frame_idx, id, page);
            Ok(ff.frame_idx)
        }
    }
}

fn new_page(pool: &mut BufferPool, disk: &mut MemDisk, t: PageType) -> Result<usize, BufferPoolError> {
    let ff = pool.get_free_frame()?;
    finish_miss(pool, disk, ff);
    let page = disk.allocate(t);
    let id = page.page_id();
    pool.load_frame(ff.frame_idx, id, page);
    Ok(ff.frame_idx)
}

fn flush(pool: &mut BufferPool, disk: &mut MemDisk, id: PageId) {
    if let Some(idx) = pool.begin_flush(id) {
        disk.write(pool.frame_page(idx));
        pool.end_flush(idx);
    }
}

fn data6(pool: &BufferPool, idx: usize) -> Vec<u8> {
    pool.frame_page(idx).read_data(0, 6).unwrap().to_vec()
}

#[test]
fn test_fetch_page_from_disk() {
    let mut disk = MemDisk::with_pages(3);
    let mut pool = BufferPool::new(4);

    let idx = fetch(&mut pool, &mut disk, PageId::new(0, 1)).unwrap();
    assert_eq!(&data6(&pool, idx), b"page-1");
}

#[test]
fn test_cache_hit() {
    let mut disk = MemDisk::with_pages(3);
    let mut pool = BufferPool::new(4);

    let idx1 = fetch(&mut pool, &mut disk, PageId::new(0, 0)).unwrap();
    pool.unpin(idx1);

    let idx2 = fetch(&mut pool, &mut disk, PageId::new(0, 0)).unwrap();
    assert_eq!(idx1, idx2);
    assert_eq!(&data6(&pool, idx2), b"page-0");
}

#[test]
fn test_write_and_flush() {
    let mut disk = MemDisk::with_pages(1);
    let mut pool = BufferPool::new(4);
    let page_id = PageId::new(0, 0);

    let idx = fetch(&mut pool, &mut disk, page_id).unwrap();
    pool.frame_page_mut(idx).write_data(0, b"modified!").unwrap();
    pool.unpin(idx);

    flush(&mut pool, &mut disk, page_id);

    let page = disk.read(0);
    assert_eq!(page.read_data(0, 9).unwrap(), b"modified!");
    assert!(page.verify_checksum());
}

#[test]
fn test_eviction() {
    let mut disk = MemDisk::with_pages(3);
    let mut pool = BufferPool::new(2);

    let g0 = fetch(&mut pool, &mut disk, PageId::new(0, 0)).unwrap();
    pool.unpin(g0);
    let g1 = fetch(&mut pool, &mut disk, PageId::new(0, 1)).unwrap();
    pool.unpin(g1);

    let g2 = fetch(&mut pool, &mut disk, PageId::new(0, 2)).unwrap();
    assert_eq!(&data6(&pool, g2), b"page-2");
    // page 0 was the least recently used: its frame was reused
    assert_eq!(g2, g0);
    assert_eq!(pool.lookup(PageId::new(0, 0)), None);
}

#[test]
fn test_eviction_skips_pinned() {
    let mut disk = MemDisk::with_pages(3);
    let mut pool = BufferPool::new(2);

    let g0 = fetch(&mut pool, &mut disk, PageId::new(0, 0)).unwrap();

    let g1 = fetch(&mut pool, &mut disk, PageId::new(0, 1)).unwrap();
    pool.unpin(g1);

    let g2 = fetch(&mut pool, &mut disk, PageId::new(0, 2)).unwrap();
    assert_eq!(&data6(&pool, g2), b"page-2");

    assert_eq!(&data6(&pool, g0), b"page-0");
}

#[test]
fn test_all_pinned_returns_error() {
    let mut disk = MemDisk::with_pages(3);
    let mut pool = BufferPool::new(2);

    let _g0 = fetch(&mut pool, &mut disk, PageId::new(0, 0)).unwrap();
    let _g1 = fetch(&mut pool, &mut disk, PageId::new(0, 1)).unwrap();

    let result = fetch(&mut pool, &mut disk, PageId::new(0, 2));
    assert!(matches!(result, Err(BufferPoolError::NoFreeFrames)));
}

#[test]
fn test_new_page() {
    let mut disk = MemDisk { pages: Vec::new() };
    let mut pool = BufferPool::new(4);

    let g = new_page(&mut pool, &mut disk, PageType::Index).unwrap();
    assert_eq!(pool.frame_page(g).page_no(), 0);

    let g2 = new_page(&mut pool, &mut disk, PageType::Index).unwrap();
    assert_eq!(pool.frame_page(g2).page_no(), 1);
}

#[test]
fn test_dirty_eviction_persists() {
    let mut disk = MemDisk::with_pages(2);
    let mut pool = BufferPool::new(1);

    let g = fetch(&mut pool, &mut disk, PageId::new(0, 0)).unwrap();
    pool.frame_page_mut(g).write_data(0, b"dirty!").unwrap();
    pool.unpin(g);

    let g = fetch(&mut pool, &mut disk, PageId::new(0, 1)).unwrap();
    pool.unpin(g);

    let page = disk.read(0);
    assert_eq!(page.read_data(0, 6).unwrap(), b"dirty!");
    assert!(page.verify_checksum());
}

// ── further checks ──

#[test]
fn test_free_frames_are_used_from_zero() {
    let mut pool = BufferPool::new(3);
    let a = pool.get_free_frame().unwrap();
    let b = pool.get_free_frame().unwrap();
    assert_eq!(a, FreeFrame { frame_idx: 0, evicted: false, write_back: false });
    assert_eq!(b, FreeFrame { frame_idx: 1, evicted: false, write_back: false });
}

#[test]
fn test_clean_victim_needs_no_write_back() {
    let mut disk = MemDisk::with_pages(2);
    let mut pool = BufferPool::new(1);
    let g = fetch(&mut pool, &mut disk, PageId::new(0, 0)).unwrap();
    pool.unpin(g);
    match pool.fetch_page(PageId::new(0, 1)).unwrap() {
        FetchStep::Miss(ff) => {
            assert_eq!(ff, FreeFrame { frame_idx: 0, evicted: true, write_back: false });
        }
        FetchStep::Hit(_) => panic!("expected a miss"),
    }
}

#[test]
fn test_pinned_frames_return_to_head() {
    let mut disk = MemDisk::with_pages(4);
    let mut pool = BufferPool::new(3);
    let a = fetch(&mut pool, &mut disk, PageId::new(0, 0)).unwrap(); // pinned
    let b = fetch(&mut pool, &mut disk, PageId::new(0, 1)).unwrap();
    pool.unpin(b);
    let c = fetch(&mut pool, &mut disk, PageId::new(0, 2)).unwrap(); // pinned
    // page 3: the least recently used unpinned frame is b's
    let d = fetch(&mut pool, &mut disk, PageId::new(0, 3)).unwrap();
    assert_eq!(d, b);
    assert_eq!(pool.pin_count(a), 1);
    assert_eq!(pool.pin_count(c), 1);
    assert_eq!(pool.pin_count(d), 1);
    // everything is pinned now
    assert!(matches!(pool.get_free_frame(), Err(BufferPoolError::NoFreeFrames)));
}

#[test]
fn test_flush_of_clean_or_absent_page_does_nothing() {
    let mut disk = MemDisk::with_pages(1);
    let mut pool = BufferPool::new(2);
    assert_eq!(pool.begin_flush(PageId::new(0, 0)), None);
    let g = fetch(&mut pool, &mut disk, PageId::new(0, 0)).unwrap();
    assert_eq!(pool.begin_flush(PageId::new(0, 0)), None);
    pool.frame_page_mut(g).set_lsn(5);
    assert_eq!(pool.begin_flush(PageId::new(0, 0)), Some(g));
    pool.end_flush(g);
    assert_eq!(pool.begin_flush(PageId::new(0, 0)), None);
}

#[test]
fn test_page_ids_lists_cached_pages() {
    let mut disk = MemDisk::with_pages(3);
    let mut pool = BufferPool::new(4);
    for i in 0..3 {
        let g = fetch(&mut pool, &mut disk, PageId::new(0, i)).unwrap();
        pool.unpin(g);
    }
    let mut ids: Vec<u32> = pool.page_ids().iter().map(|id| id.page_no).collect();
    ids.sort();
    assert_eq!(ids, vec![0, 1, 2]);
    assert!(pool.page_ids().iter().all(|id| id.space_id == 0));
}
