//! Buffer pool bookkeeping: which page sits in which frame, pin counts,
//! dirty flags, the free list and the LRU order.
//!
//! Reading and writing pages on disk is left to the caller: a miss hands
//! out a frame (after choosing a victim when no frame is free), the caller
//! writes the victim back when asked to, reads the requested page and then
//! loads it into the frame.

use vstd::prelude::*;
use std::collections::HashMap;
use crate::page::page::{checksum_matches, page_with_checksum, Page};
use crate::page::page::{spec_page_no, spec_space_id};
use crate::page::PageId;
use super::lru::{seq_without, LruList};

verus! {

broadcast use vstd::std_specs::hash::group_hash_axioms;

/// I/O errors reported by the storage layer.
#[verifier::external_type_specification]
#[verifier::external_body]
pub struct ExIoError(std::io::Error);

/// A frame of the buffer pool: a page in memory, whether it changed since it
/// was last written to disk, and how many users hold it.
pub struct BufferFrame {
    page: Page,
    is_dirty: bool,
    pin_count: u32,
}

/// The abstract state of a frame.
pub struct FrameView {
    pub page: Seq<u8>,
    pub is_dirty: bool,
    pub pin_count: u32,
}

impl View for BufferFrame {
    type V = FrameView;

    closed spec fn view(&self) -> FrameView {
        FrameView { page: self.page@, is_dirty: self.is_dirty, pin_count: self.pin_count }
    }
}

impl BufferFrame {
    /// A clean, unpinned frame holding `page`.
    fn new(page: Page) -> (r: Self)
        ensures
            r@ == (FrameView { page: page@, is_dirty: false, pin_count: 0 }),
    {
        BufferFrame { page, is_dirty: false, pin_count: 0 }
    }
}

/// Errors of the buffer pool.
#[derive(Debug)]
pub enum BufferPoolError {
    /// Every frame is pinned, so none can be reused.
    NoFreeFrames,
    /// Reading or writing a page failed.
    Io(std::io::Error),
}

/// A frame handed out for a page that is not cached.
#[derive(Debug, Clone, Copy, PartialEq, Eq, Structural)]
pub struct FreeFrame {
    pub frame_idx: usize,
    /// The frame was taken from another page, which must be dropped from the
    /// pool with `evict_frame` (after writing it back, see `write_back`).
    pub evicted: bool,
    /// The evicted page is dirty: its checksum has been updated and it must
    /// be written to disk before `evict_frame`.
    pub write_back: bool,
}

/// The first step of fetching a page.
#[derive(Debug, Clone, Copy, PartialEq, Eq, Structural)]
pub enum FetchStep {
    /// The page is cached in this frame, which is now pinned once more.
    Hit(usize),
    /// The page must be read into this frame and loaded with `load_frame`.
    Miss(FreeFrame),
}

/// The key under which a page id is stored in the page table.
pub open spec fn page_key(id: PageId) -> u64 {
    (id.space_id as int * 0x1_0000_0000 + id.page_no as int) as u64
}

/// The page id of a page-table key.
pub open spec fn page_id_of_key(k: u64) -> PageId {
    PageId { space_id: (k / 0x1_0000_0000) as u32, page_no: (k % 0x1_0000_0000) as u32 }
}

/// Distinct page ids have distinct keys, and a key gives its page id back.
pub proof fn lemma_page_key(id: PageId, other: PageId)
    ensures
        page_id_of_key(page_key(id)) == id,
        page_key(id) == page_key(other) <==> id == other,
{
    let k = id.space_id as int * 0x1_0000_0000 + id.page_no as int;
    assert(0 <= k < 0x1_0000_0000_0000_0000) by (nonlinear_arith)
        requires
            k == id.space_id as int * 0x1_0000_0000 + id.page_no as int,
            0 <= id.space_id < 0x1_0000_0000,
            0 <= id.page_no < 0x1_0000_0000,
    ;
    assert(k / 0x1_0000_0000 == id.space_id && k % 0x1_0000_0000 == id.page_no) by (nonlinear_arith)
        requires
            k == id.space_id as int * 0x1_0000_0000 + id.page_no as int,
            0 <= id.page_no < 0x1_0000_0000,
    ;
    let k2 = other.space_id as int * 0x1_0000_0000 + other.page_no as int;
    assert(k2 / 0x1_0000_0000 == other.space_id && k2 % 0x1_0000_0000 == other.page_no)
        by (nonlinear_arith)
        requires
            k2 == other.space_id as int * 0x1_0000_0000 + other.page_no as int,
            0 <= other.page_no < 0x1_0000_0000,
    ;
    assert(0 <= k2 < 0x1_0000_0000_0000_0000) by (nonlinear_arith)
        requires
            k2 == other.space_id as int * 0x1_0000_0000 + other.page_no as int,
            0 <= other.space_id < 0x1_0000_0000,
            0 <= other.page_no < 0x1_0000_0000,
    ;
}

/// Every key is the key of the page id it decodes to.
pub proof fn lemma_key_page_id(k: u64)
    ensures
        page_key(page_id_of_key(k)) == k,
{
    let s = k / 0x1_0000_0000;
    let p = k % 0x1_0000_0000;
    assert(s < 0x1_0000_0000);
    assert(s * 0x1_0000_0000 + p == k);
}

/// The page id a page-table key stands for.
fn page_id_of_key_exec(k: u64) -> (r: PageId)
    ensures
        r == page_id_of_key(k),
{
    PageId::new((k / 0x1_0000_0000) as u32, (k % 0x1_0000_0000) as u32)
}

/// The page-table key of a page id.
fn page_key_of(id: PageId) -> (r: u64)
    ensures
        r == page_key(id),
{
    proof {
        lemma_page_key(id, id);
    }
    (id.space_id as u64) * 0x1_0000_0000 + (id.page_no as u64)
}

/// A frame that eviction may take: loaded and not pinned.
pub open spec fn unpinned(f: Option<FrameView>) -> bool {
    f is Some && f->Some_0.pin_count == 0
}

/// The position of the least recently used unpinned frame in the LRU order
/// `s` (most recent first), if any.
pub open spec fn last_unpinned(frames: Seq<Option<FrameView>>, s: Seq<usize>) -> Option<int>
    decreases s.len(),
{
    if s.len() == 0 {
        None
    } else if unpinned(frames[s.last() as int]) {
        Some(s.len() - 1)
    } else {
        last_unpinned(frames, s.drop_last())
    }
}

/// `last_unpinned` names an unpinned frame of the order, after which every
/// frame of the order is pinned; when it names none, no frame of the order
/// is unpinned.
pub proof fn lemma_last_unpinned(frames: Seq<Option<FrameView>>, s: Seq<usize>)
    ensures
        last_unpinned(frames, s) matches Some(j) ==> 0 <= j < s.len() && unpinned(frames[s[j] as int]),
        last_unpinned(frames, s) matches Some(j) ==> forall|i: int|
            j < i < s.len() ==> !unpinned(#[trigger] frames[s[i] as int]),
        last_unpinned(frames, s) is None ==> forall|i: int|
            0 <= i < s.len() ==> !unpinned(#[trigger] frames[s[i] as int]),
    decreases s.len(),
{
    if s.len() > 0 && !unpinned(frames[s.last() as int]) {
        lemma_last_unpinned(frames, s.drop_last());
        let t = s.drop_last();
        assert forall|i: int| 0 <= i < t.len() implies t[i] == s[i] by {}
    }
}

pub struct BufferPool {
    capacity: usize,
    page_table: HashMap<u64, usize>,
    frames: Vec<Option<BufferFrame>>,
    lru: LruList,
    free_list: Vec<usize>,
}

impl BufferPool {
    /// The number of frames.
    pub closed spec fn spec_capacity(&self) -> nat {
        self.capacity as nat
    }

    /// The page table: page key → frame index.
    pub closed spec fn table(&self) -> Map<u64, usize> {
        self.page_table@
    }

    /// The frames, each empty or holding a page.
    pub closed spec fn frames(&self) -> Seq<Option<FrameView>> {
        self.frames@.map_values(|f: Option<BufferFrame>| match f {
            Some(b) => Some(b@),
            None => None,
        })
    }

    /// The LRU order of the frames, most recently used first.
    pub closed spec fn lru_order(&self) -> Seq<usize> {
        self.lru@
    }

    /// The free list; frames are taken from its end.
    pub closed spec fn free_frames(&self) -> Seq<usize> {
        self.free_list@
    }

    /// The pool's internal invariant.
    pub closed spec fn wf(&self) -> bool {
        &&& self.frames@.len() == self.capacity
        &&& self.lru.wf()
        &&& forall|i: int| 0 <= i < self.lru@.len() ==> {
            let f = #[trigger] self.lru@[i];
            &&& f < self.capacity
            &&& self.frames@[f as int] is Some
        }
        &&& forall|i: int| 0 <= i < self.free_list@.len() ==> #[trigger] self.free_list@[i] < self.capacity
        &&& forall|k: u64| #[trigger] self.page_table@.contains_key(k) ==> self.page_table@[k] < self.capacity
    }

    /// Every index in the LRU order names a loaded frame.
    pub proof fn lemma_wf(&self)
        requires
            self.wf(),
        ensures
            self.frames().len() == self.spec_capacity(),
            self.lru_order().no_duplicates(),
            forall|i: int|
                0 <= i < self.lru_order().len() ==> #[trigger] self.lru_order()[i] < self.spec_capacity()
                    && self.frames()[self.lru_order()[i] as int] is Some,
            forall|k: u64| #[trigger] self.table().contains_key(k) ==> self.table()[k] < self.spec_capacity(),
            forall|i: int|
                0 <= i < self.free_frames().len() ==> #[trigger] self.free_frames()[i] < self.spec_capacity(),
    {
        self.lru.lemma_no_duplicates();
    }

    /// A pool of `capacity` empty frames; all of them are free and the
    /// first taken is frame 0.
    pub fn new(capacity: usize) -> (r: Self)
        ensures
            r.wf(),
            r.spec_capacity() == capacity,
            r.table() == Map::<u64, usize>::empty(),
            r.frames() == Seq::new(capacity as nat, |i: int| None::<FrameView>),
            r.lru_order() == Seq::<usize>::empty(),
            r.free_frames() == Seq::new(capacity as nat, |i: int| (capacity - 1 - i) as usize),
    {
        let mut frames: Vec<Option<BufferFrame>> = Vec::new();
        let mut i: usize = 0;
        while i < capacity
            invariant
                i <= capacity,
                frames@.len() == i,
                forall|j: int| 0 <= j < i ==> frames@[j] is None,
            decreases capacity - i,
        {
            frames.push(None);
            i = i + 1;
        }
        let mut free_list: Vec<usize> = Vec::new();
        let mut j: usize = capacity;
        while j > 0
            invariant
                j <= capacity,
                free_list@.len() == capacity - j,
                forall|k: int| 0 <= k < free_list@.len() ==> free_list@[k] == capacity - 1 - k,
            decreases j,
        {
            j = j - 1;
            free_list.push(j);
        }
        let r = BufferPool {
            capacity,
            page_table: HashMap::new(),
            frames,
            lru: LruList::new(),
            free_list,
        };
        assert(r.frames() =~= Seq::new(capacity as nat, |i: int| None::<FrameView>));
        assert(r.free_frames() =~= Seq::new(capacity as nat, |i: int| (capacity - 1 - i) as usize));
        r
    }

    /// The frame the page table gives for `page_id`, if any.
    pub fn lookup(&self, page_id: PageId) -> (r: Option<usize>)
        ensures
            r == (if self.table().contains_key(page_key(page_id)) {
                Some(self.table()[page_key(page_id)])
            } else {
                None
            }),
    {
        let key = page_key_of(page_id);
        match self.page_table.get(&key) {
            Some(idx) => Some(*idx),
            None => None,
        }
    }

    /// Whether frame `frame_idx` exists and holds a page.
    pub fn is_loaded(&self, frame_idx: usize) -> (r: bool)
        requires
            self.wf(),
        ensures
            r == (frame_idx < self.spec_capacity() && self.frames()[frame_idx as int] is Some),
    {
        frame_idx < self.frames.len() && self.frames[frame_idx].is_some()
    }

    /// The pin count of frame `frame_idx`.
    pub fn pin_count(&self, frame_idx: usize) -> (r: u32)
        requires
            self.wf(),
            frame_idx < self.spec_capacity(),
            self.frames()[frame_idx as int] is Some,
        ensures
            r == self.frames()[frame_idx as int]->Some_0.pin_count,
    {
        match &self.frames[frame_idx] {
            Some(f) => f.pin_count,
            None => 0,
        }
    }

    /// Whether `fetch_page(page_id)` may be called: a cached entry for the
    /// page must name a loaded frame whose pin count can still grow.
    pub open spec fn can_fetch_spec(&self, page_id: PageId) -> bool {
        self.table().contains_key(page_key(page_id)) ==> {
            let f = self.frames()[self.table()[page_key(page_id)] as int];
            &&& f is Some
            &&& f->Some_0.pin_count < u32::MAX
        }
    }

    pub fn can_fetch(&self, page_id: PageId) -> (r: bool)
        requires
            self.wf(),
        ensures
            r == self.can_fetch_spec(page_id),
    {
        match self.lookup(page_id) {
            Some(idx) => self.is_loaded(idx) && self.pin_count(idx) < u32::MAX,
            None => true,
        }
    }

    /// Marks the frames of `candidates` as most recently used, in order, so
    /// that the last one ends up at the head.
    fn retouch(&mut self, candidates: &Vec<usize>)
        requires
            old(self).wf(),
            candidates@.no_duplicates(),
            forall|i: int|
                0 <= i < candidates@.len() ==> !old(self).lru@.contains(#[trigger] candidates@[i])
                    && candidates@[i] < old(self).capacity && old(self).frames@[candidates@[i] as int] is Some,
        ensures
            final(self).wf(),
            final(self).lru@ == candidates@.reverse() + old(self).lru@,
            final(self).frames == old(self).frames,
            final(self).page_table == old(self).page_table,
            final(self).free_list == old(self).free_list,
            final(self).capacity == old(self).capacity,
    {
        let ghost base = self.lru@;
        let mut t: usize = 0;
        assert(candidates@.take(0).reverse() + base =~= base);
        while t < candidates.len()
            invariant
                0 <= t <= candidates@.len(),
                self.wf(),
                self.frames == old(self).frames,
                self.page_table == old(self).page_table,
                self.free_list == old(self).free_list,
                self.capacity == old(self).capacity,
                base == old(self).lru@,
                candidates@.no_duplicates(),
                forall|i: int|
                    0 <= i < candidates@.len() ==> !base.contains(#[trigger] candidates@[i])
                        && candidates@[i] < self.capacity && self.frames@[candidates@[i] as int] is Some,
                self.lru@ == candidates@.take(t as int).reverse() + base,
            decreases candidates@.len() - t,
        {
            let c = candidates[t];
            let ghost cur = self.lru@;
            assert(!cur.contains(c)) by {
                if cur.contains(c) {
                    let k = cur.index_of(c);
                    let pre = candidates@.take(t as int).reverse();
                    if k < pre.len() {
                        assert(pre[k] == candidates@[t - 1 - k]);
                    } else {
                        assert(cur[k] == base[k - pre.len()]);
                    }
                }
            }
            self.lru.touch(c);
            proof {
                assert(candidates@.take(t + 1).reverse() =~= seq![c] + candidates@.take(t as int).reverse());
                assert(self.lru@ =~= candidates@.take(t + 1).reverse() + base);
                assert forall|i: int| 0 <= i < self.lru@.len() implies {
                    let f = #[trigger] self.lru@[i];
                    &&& f < self.capacity
                    &&& self.frames@[f as int] is Some
                } by {
                    let pre = candidates@.take(t + 1).reverse();
                    if i < pre.len() {
                        assert(pre[i] == candidates@[t - i]);
                    } else {
                        assert(self.lru@[i] == base[i - pre.len()]);
                        assert(old(self).lru@[i - pre.len()] == base[i - pre.len()]);
                    }
                }
            }
            t = t + 1;
        }
        assert(candidates@.take(candidates@.len() as int) =~= candidates@);
    }

    /// Takes the least recently used unpinned frame out of the LRU order.
    /// Pinned frames passed over go back to the head, keeping their order.
    fn evict_one(&mut self) -> (r: Result<usize, BufferPoolError>)
        requires
            old(self).wf(),
        ensures
            final(self).wf(),
            final(self).frames == old(self).frames,
            final(self).page_table == old(self).page_table,
            final(self).free_list == old(self).free_list,
            final(self).capacity == old(self).capacity,
            match last_unpinned(old(self).frames(), old(self).lru@) {
                Some(j) => r == Ok::<usize, BufferPoolError>(old(self).lru@[j]) && final(self).lru@
                    == old(self).lru@.skip(j + 1) + old(self).lru@.take(j),
                None => r matches Err(BufferPoolError::NoFreeFrames) && final(self).lru@
                    == old(self).lru@,
            },
    {
        let ghost s = self.lru@;
        let ghost fr = self.frames();
        proof {
            self.lru.lemma_no_duplicates();
        }
        let mut candidates: Vec<usize> = Vec::new();
        assert(s.take(s.len() as int) =~= s);
        assert(s.skip(s.len() as int).reverse() =~= candidates@);
        loop
            invariant
                self.wf(),
                self.frames == old(self).frames,
                self.page_table == old(self).page_table,
                self.free_list == old(self).free_list,
                self.capacity == old(self).capacity,
                s == old(self).lru@,
                fr == old(self).frames(),
                fr == self.frames(),
                s.no_duplicates(),
                self.lru@.len() <= s.len(),
                self.lru@ == s.take(self.lru@.len() as int),
                candidates@ == s.skip(self.lru@.len() as int).reverse(),
                forall|i: int| 0 <= i < s.len() ==> #[trigger] s[i] < self.capacity && self.frames@[s[i] as int] is Some,
                last_unpinned(fr, s) == last_unpinned(fr, self.lru@),
            decreases self.lru@.len(),
        {
            let ghost k = self.lru@.len();
            match self.lru.evict() {
                Some(frame_idx) => {
                    let ghost pre = s.take(k as int);
                    assert(frame_idx == s[k - 1]);
                    assert(self.lru@ =~= s.take(k - 1));
                    assert(fr[frame_idx as int] == match self.frames@[frame_idx as int] {
                        Some(b) => Some(b@),
                        None => None::<FrameView>,
                    });
                    let unpinned_now = match &self.frames[frame_idx] {
                        Some(frame) => frame.pin_count == 0,
                        None => false,
                    };
                    if unpinned_now {
                        proof {
                            assert(pre.last() == frame_idx);
                            assert(last_unpinned(fr, pre) == Some(k - 1));
                            assert forall|i: int| 0 <= i < candidates@.len() implies !self.lru@.contains(
                                #[trigger] candidates@[i],
                            ) && candidates@[i] < self.capacity && self.frames@[candidates@[i] as int] is Some by {
                                let a = candidates@.len() - 1 - i;
                                assert(candidates@[i] == s.skip(k as int)[a]);
                                assert(s.skip(k as int)[a] == s[k + a]);
                                if self.lru@.contains(candidates@[i]) {
                                    let b = self.lru@.index_of(candidates@[i]);
                                    assert(self.lru@[b] == s[b]);
                                }
                            }
                            assert(candidates@.no_duplicates()) by {
                                assert forall|x: int, y: int| 0 <= x < y < candidates@.len() implies candidates@[x]
                                    != candidates@[y] by {
                                    let ax = candidates@.len() - 1 - x;
                                    let ay = candidates@.len() - 1 - y;
                                    assert(candidates@[x] == s.skip(k as int)[ax]);
                                    assert(candidates@[y] == s.skip(k as int)[ay]);
                                }
                            }
                        }
                        self.retouch(&candidates);
                        proof {
                            assert(s.skip(k as int).reverse().reverse() =~= s.skip(k as int));
                            assert(s.skip(k as int) =~= s.skip(k as int));
                            assert(self.lru@ =~= s.skip(k as int) + s.take(k - 1));
                        }
                        return Ok(frame_idx);
                    } else {
                        proof {
                            assert(pre.last() == frame_idx);
                            assert(pre.drop_last() =~= s.take(k - 1));
                            assert(!unpinned(fr[frame_idx as int]));
                        }
                        let ghost before = candidates@;
                        candidates.push(frame_idx);
                        assert(candidates@ =~= s.skip(k - 1).reverse()) by {
                            assert(s.skip(k - 1) =~= seq![frame_idx] + s.skip(k as int));
                            assert forall|i: int| 0 <= i < candidates@.len() implies candidates@[i]
                                == s.skip(k - 1).reverse()[i] by {
                                if i < before.len() {
                                    assert(before[i] == s.skip(k as int).reverse()[i]);
                                }
                            }
                        }
                    }
                },
                None => {
                    proof {
                        assert(s.skip(0) =~= s);
                        assert(s.skip(0).reverse().reverse() =~= s);
                        assert(last_unpinned(fr, self.lru@) is None);
                        assert forall|i: int| 0 <= i < candidates@.len() implies !self.lru@.contains(
                            #[trigger] candidates@[i],
                        ) && candidates@[i] < self.capacity && self.frames@[candidates@[i] as int] is Some by {
                            let a = candidates@.len() - 1 - i;
                            assert(candidates@[i] == s.skip(0)[a]);
                        }
                        assert(candidates@.no_duplicates()) by {
                            assert forall|x: int, y: int| 0 <= x < y < candidates@.len() implies candidates@[x]
                                != candidates@[y] by {
                                let ax = candidates@.len() - 1 - x;
                                let ay = candidates@.len() - 1 - y;
                                assert(candidates@[x] == s.skip(0)[ax]);
                                assert(candidates@[y] == s.skip(0)[ay]);
                            }
                        }
                    }
                    self.retouch(&candidates);
                    proof {
                        assert(self.lru@ =~= s);
                    }
                    return Err(BufferPoolError::NoFreeFrames);
                },
            }
        }
    }

    /// What `get_free_frame` does: take the last free frame; when none is
    /// free, take the least recently used unpinned frame, storing the page
    /// checksum first when that frame is dirty.
    pub open spec fn free_frame_post(
        pre: &Self,
        post: &Self,
        r: Result<FreeFrame, BufferPoolError>,
    ) -> bool {
        &&& post.spec_capacity() == pre.spec_capacity()
        &&& post.table() == pre.table()
        &&& if pre.free_frames().len() > 0 {
            &&& r == Ok::<FreeFrame, BufferPoolError>(
                FreeFrame { frame_idx: pre.free_frames().last(), evicted: false, write_back: false },
            )
            &&& post.free_frames() == pre.free_frames().drop_last()
            &&& post.frames() == pre.frames()
            &&& post.lru_order() == pre.lru_order()
        } else {
            &&& post.free_frames() == pre.free_frames()
            &&& match last_unpinned(pre.frames(), pre.lru_order()) {
                Some(j) => {
                    let v = pre.lru_order()[j];
                    let f = pre.frames()[v as int]->Some_0;
                    &&& r == Ok::<FreeFrame, BufferPoolError>(
                        FreeFrame { frame_idx: v, evicted: true, write_back: f.is_dirty },
                    )
                    &&& post.lru_order() == pre.lru_order().skip(j + 1) + pre.lru_order().take(j)
                    &&& post.frames() == (if f.is_dirty {
                        pre.frames().update(
                            v as int,
                            Some(FrameView { page: page_with_checksum(f.page), ..f }),
                        )
                    } else {
                        pre.frames()
                    })
                },
                None => {
                    &&& r matches Err(BufferPoolError::NoFreeFrames)
                    &&& post.lru_order() == pre.lru_order()
                    &&& post.frames() == pre.frames()
                },
            }
        }
    }

    /// Finds a frame for a page that is not cached (see `free_frame_post`).
    pub fn get_free_frame(&mut self) -> (r: Result<FreeFrame, BufferPoolError>)
        requires
            old(self).wf(),
        ensures
            final(self).wf(),
            Self::free_frame_post(old(self), final(self), r),
    {
        if let Some(frame_idx) = self.free_list.pop() {
            return Ok(FreeFrame { frame_idx, evicted: false, write_back: false });
        }
        let victim = self.evict_one()?;
        proof {
            lemma_last_unpinned(old(self).frames(), old(self).lru@);
            let j = last_unpinned(old(self).frames(), old(self).lru@)->Some_0;
            assert(victim == old(self).lru@[j]);
            assert(old(self).lru@[j] < old(self).capacity);
        }
        let ghost fr = self.frames();
        let mut write_back = false;
        if let Some(frame) = self.frames[victim].as_mut() {
            if frame.is_dirty {
                frame.page.update_checksum();
                write_back = true;
            }
        }
        proof {
            let j = last_unpinned(old(self).frames(), old(self).lru@)->Some_0;
            lemma_last_unpinned(old(self).frames(), old(self).lru@);
            assert(victim == old(self).lru@[j]);
            if write_back {
                let f = fr[victim as int]->Some_0;
                assert(self.frames() =~= fr.update(
                    victim as int,
                    Some(FrameView { page: page_with_checksum(f.page), ..f }),
                ));
            } else {
                assert(self.frames() =~= fr);
            }
            assert forall|i: int| 0 <= i < self.lru@.len() implies {
                let f = #[trigger] self.lru@[i];
                &&& f < self.capacity
                &&& self.frames@[f as int] is Some
            } by {
                assert(self.frames@[self.lru@[i] as int] is Some || old(self).frames@[self.lru@[i] as int] is None);
            }
        }
        Ok(FreeFrame { frame_idx: victim, evicted: true, write_back })
    }

    /// First step of fetching `page_id`: a hit pins the cached frame and marks
    /// it most recently used; a miss hands out a frame as `get_free_frame`
    /// does.
    pub fn fetch_page(&mut self, page_id: PageId) -> (r: Result<FetchStep, BufferPoolError>)
        requires
            old(self).wf(),
            old(self).can_fetch_spec(page_id),
        ensures
            final(self).wf(),
            old(self).table().contains_key(page_key(page_id)) ==> {
                let idx = old(self).table()[page_key(page_id)];
                let f = old(self).frames()[idx as int]->Some_0;
                &&& r == Ok::<FetchStep, BufferPoolError>(FetchStep::Hit(idx))
                &&& final(self).frames() == old(self).frames().update(
                    idx as int,
                    Some(FrameView { pin_count: (f.pin_count + 1) as u32, ..f }),
                )
                &&& final(self).lru_order() == seq![idx] + seq_without(old(self).lru_order(), idx)
                &&& final(self).table() == old(self).table()
                &&& final(self).free_frames() == old(self).free_frames()
                &&& final(self).spec_capacity() == old(self).spec_capacity()
            },
            !old(self).table().contains_key(page_key(page_id)) ==> match r {
                Ok(FetchStep::Miss(ff)) => Self::free_frame_post(
                    old(self),
                    final(self),
                    Ok::<FreeFrame, BufferPoolError>(ff),
                ),
                Ok(FetchStep::Hit(_)) => false,
                Err(e) => Self::free_frame_post(old(self), final(self), Err::<FreeFrame, BufferPoolError>(e)),
            },
    {
        if let Some(frame_idx) = self.lookup(page_id) {
            let ghost fr = self.frames();
            if let Some(frame) = self.frames[frame_idx].as_mut() {
                frame.pin_count = frame.pin_count + 1;
            }
            self.lru.touch(frame_idx);
            proof {
                let f = fr[frame_idx as int]->Some_0;
                assert(self.frames() =~= fr.update(
                    frame_idx as int,
                    Some(FrameView { pin_count: (f.pin_count + 1) as u32, ..f }),
                ));
                assert forall|i: int| 0 <= i < self.lru@.len() implies {
                    let f = #[trigger] self.lru@[i];
                    &&& f < self.capacity
                    &&& self.frames@[f as int] is Some
                } by {
                    if i > 0 {
                        let o = old(self).lru@;
                        let k = o.index_of(frame_idx);
                        if o.contains(frame_idx) {
                            let i2 = if i - 1 < k {
                                i - 1
                            } else {
                                i
                            };
                            assert(self.lru@[i] == o[i2]);
                        } else {
                            assert(self.lru@[i] == o[i - 1]);
                        }
                    }
                }
            }
            return Ok(FetchStep::Hit(frame_idx));
        }
        match self.get_free_frame() {
            Ok(ff) => Ok(FetchStep::Miss(ff)),
            Err(e) => Err(e),
        }
    }

    /// Drops the page in frame `frame_idx` from the pool: removes the page
    /// table entry for the page id in its header and empties the frame.
    pub fn evict_frame(&mut self, frame_idx: usize)
        requires
            old(self).wf(),
            frame_idx < old(self).spec_capacity(),
            !old(self).lru_order().contains(frame_idx),
        ensures
            final(self).wf(),
            final(self).frames() == old(self).frames().update(frame_idx as int, None),
            final(self).table() == (match old(self).frames()[frame_idx as int] {
                Some(f) => old(self).table().remove(
                    page_key(
                        PageId {
                            space_id: spec_space_id(f.page) as u32,
                            page_no: spec_page_no(f.page) as u32,
                        },
                    ),
                ),
                None => old(self).table(),
            }),
            final(self).lru_order() == old(self).lru_order(),
            final(self).free_frames() == old(self).free_frames(),
            final(self).spec_capacity() == old(self).spec_capacity(),
    {
        let ghost fr = self.frames();
        if let Some(frame) = &self.frames[frame_idx] {
            let page_id = frame.page.page_id();
            let key = page_key_of(page_id);
            self.page_table.remove(&key);
        }
        self.frames[frame_idx] = None;
        proof {
            assert(self.frames() =~= fr.update(frame_idx as int, None));
            assert forall|i: int| 0 <= i < self.lru@.len() implies {
                let f = #[trigger] self.lru@[i];
                &&& f < self.capacity
                &&& self.frames@[f as int] is Some
            } by {
                assert(self.lru@[i] != frame_idx);
            }
        }
    }

    /// Puts `page`, read for `page_id`, into frame `frame_idx`: clean, pinned
    /// once, registered under `page_id` and most recently used.
    pub fn load_frame(&mut self, frame_idx: usize, page_id: PageId, page: Page)
        requires
            old(self).wf(),
            frame_idx < old(self).spec_capacity(),
        ensures
            final(self).wf(),
            final(self).frames() == old(self).frames().update(
                frame_idx as int,
                Some(FrameView { page: page@, is_dirty: false, pin_count: 1 }),
            ),
            final(self).table() == old(self).table().insert(page_key(page_id), frame_idx),
            final(self).lru_order() == seq![frame_idx] + seq_without(old(self).lru_order(), frame_idx),
            final(self).free_frames() == old(self).free_frames(),
            final(self).spec_capacity() == old(self).spec_capacity(),
    {
        let ghost fr = self.frames();
        let mut frame = BufferFrame::new(page);
        frame.pin_count = 1;
        self.frames[frame_idx] = Some(frame);
        let key = page_key_of(page_id);
        self.page_table.insert(key, frame_idx);
        self.lru.touch(frame_idx);
        proof {
            assert(self.frames() =~= fr.update(
                frame_idx as int,
                Some(FrameView { page: page@, is_dirty: false, pin_count: 1 }),
            ));
            assert forall|i: int| 0 <= i < self.lru@.len() implies {
                let f = #[trigger] self.lru@[i];
                &&& f < self.capacity
                &&& self.frames@[f as int] is Some
            } by {
                if i > 0 {
                    let o = old(self).lru@;
                    let k = o.index_of(frame_idx);
                    if o.contains(frame_idx) {
                        let i2 = if i - 1 < k {
                            i - 1
                        } else {
                            i
                        };
                        assert(self.lru@[i] == o[i2]);
                    } else {
                        assert(self.lru@[i] == o[i - 1]);
                    }
                }
            }
        }
    }

    /// The page in frame `frame_idx`.
    pub fn frame_page(&self, frame_idx: usize) -> (r: &Page)
        requires
            self.wf(),
            frame_idx < self.spec_capacity(),
            self.frames()[frame_idx as int] is Some,
        ensures
            r@ == self.frames()[frame_idx as int]->Some_0.page,
    {
        &self.frames[frame_idx].as_ref().unwrap().page
    }

    /// The page in frame `frame_idx`, for modification; the frame becomes
    /// dirty.
    pub fn frame_page_mut(&mut self, frame_idx: usize) -> (r: &mut Page)
        requires
            old(self).wf(),
            frame_idx < old(self).spec_capacity(),
            old(self).frames()[frame_idx as int] is Some,
        ensures
            r@ == old(self).frames()[frame_idx as int]->Some_0.page,
            final(self).wf(),
            final(self).frames() == old(self).frames().update(
                frame_idx as int,
                Some(
                    FrameView {
                        page: final(r)@,
                        is_dirty: true,
                        ..old(self).frames()[frame_idx as int]->Some_0
                    },
                ),
            ),
            final(self).table() == old(self).table(),
            final(self).lru_order() == old(self).lru_order(),
            final(self).free_frames() == old(self).free_frames(),
            final(self).spec_capacity() == old(self).spec_capacity(),
    {
        let frame = self.frames[frame_idx].as_mut().unwrap();
        frame.is_dirty = true;
        &mut frame.page
    }

    /// Releases one pin of frame `frame_idx` (no effect on an empty frame).
    pub fn unpin(&mut self, frame_idx: usize)
        requires
            old(self).wf(),
            frame_idx < old(self).spec_capacity(),
            old(self).frames()[frame_idx as int] matches Some(f) ==> f.pin_count > 0,
        ensures
            final(self).wf(),
            final(self).frames() == (match old(self).frames()[frame_idx as int] {
                Some(f) => old(self).frames().update(
                    frame_idx as int,
                    Some(FrameView { pin_count: (f.pin_count - 1) as u32, ..f }),
                ),
                None => old(self).frames(),
            }),
            final(self).table() == old(self).table(),
            final(self).lru_order() == old(self).lru_order(),
            final(self).free_frames() == old(self).free_frames(),
            final(self).spec_capacity() == old(self).spec_capacity(),
    {
        let ghost fr = self.frames();
        if let Some(frame) = self.frames[frame_idx].as_mut() {
            frame.pin_count = frame.pin_count - 1;
        }
        proof {
            match fr[frame_idx as int] {
                Some(f) => {
                    assert(self.frames() =~= fr.update(
                        frame_idx as int,
                        Some(FrameView { pin_count: (f.pin_count - 1) as u32, ..f }),
                    ));
                },
                None => {
                    assert(self.frames() =~= fr);
                },
            }
        }
    }

    /// First step of flushing `page_id`: when it is cached in a loaded, dirty
    /// frame, stores its checksum and returns the frame, whose page must then
    /// be written to disk and the frame marked clean with `end_flush`.
    pub fn begin_flush(&mut self, page_id: PageId) -> (r: Option<usize>)
        requires
            old(self).wf(),
        ensures
            final(self).wf(),
            ({
                let key = page_key(page_id);
                let due = old(self).table().contains_key(key) && (old(
                    self,
                ).frames()[old(self).table()[key] as int] matches Some(f) && f.is_dirty);
                &&& due ==> {
                    let idx = old(self).table()[key];
                    let f = old(self).frames()[idx as int]->Some_0;
                    &&& r == Some(idx)
                    &&& final(self).frames() == old(self).frames().update(
                        idx as int,
                        Some(FrameView { page: page_with_checksum(f.page), ..f }),
                    )
                }
                &&& !due ==> r is None && final(self).frames() == old(self).frames()
            }),
            final(self).table() == old(self).table(),
            final(self).lru_order() == old(self).lru_order(),
            final(self).free_frames() == old(self).free_frames(),
            final(self).spec_capacity() == old(self).spec_capacity(),
    {
        let frame_idx = match self.lookup(page_id) {
            Some(idx) => idx,
            None => {
                return None;
            },
        };
        let ghost fr = self.frames();
        let mut due = false;
        if let Some(frame) = self.frames[frame_idx].as_mut() {
            if frame.is_dirty {
                frame.page.update_checksum();
                due = true;
            }
        }
        proof {
            if due {
                let f = fr[frame_idx as int]->Some_0;
                assert(self.frames() =~= fr.update(
                    frame_idx as int,
                    Some(FrameView { page: page_with_checksum(f.page), ..f }),
                ));
            } else {
                assert(self.frames() =~= fr);
            }
        }
        if due {
            Some(frame_idx)
        } else {
            None
        }
    }

    /// Marks frame `frame_idx` clean after its page was written to disk.
    pub fn end_flush(&mut self, frame_idx: usize)
        requires
            old(self).wf(),
            frame_idx < old(self).spec_capacity(),
        ensures
            final(self).wf(),
            final(self).frames() == (match old(self).frames()[frame_idx as int] {
                Some(f) => old(self).frames().update(
                    frame_idx as int,
                    Some(FrameView { is_dirty: false, ..f }),
                ),
                None => old(self).frames(),
            }),
            final(self).table() == old(self).table(),
            final(self).lru_order() == old(self).lru_order(),
            final(self).free_frames() == old(self).free_frames(),
            final(self).spec_capacity() == old(self).spec_capacity(),
    {
        let ghost fr = self.frames();
        if let Some(frame) = self.frames[frame_idx].as_mut() {
            frame.is_dirty = false;
        }
        proof {
            match fr[frame_idx as int] {
                Some(f) => {
                    assert(self.frames() =~= fr.update(
                        frame_idx as int,
                        Some(FrameView { is_dirty: false, ..f }),
                    ));
                },
                None => {
                    assert(self.frames() =~= fr);
                },
            }
        }
    }

    /// The page ids the page table holds, each once, in the table's
    /// iteration order (which the table's hashing decides).
    pub fn page_ids(&self) -> (r: Vec<PageId>)
        requires
            self.wf(),
        ensures
            r@.len() == self.table().dom().len(),
            forall|i: int| 0 <= i < r@.len() ==> self.table().contains_key(page_key(#[trigger] r@[i])),
            forall|k: u64|
                #[trigger] self.table().contains_key(k) ==> exists|i: int|
                    0 <= i < r@.len() && page_key(#[trigger] r@[i]) == k,
    {
        let mut ids: Vec<PageId> = Vec::new();
        let ghost ks = vstd::std_specs::iter::IteratorSpec::remaining(&vstd::std_specs::hash::spec_keys_iter(&self.page_table)).unref();
        proof {
            broadcast use vstd::std_specs::hash::axiom_spec_keys_iter;
        }
        for k in it: self.page_table.keys()
            invariant
                ids@.len() == it.index(),
                it.seq().unref() == ks,
                forall|i: int| 0 <= i < it.index() ==> #[trigger] ids@[i] == page_id_of_key(ks[i]),
        {
            ids.push(page_id_of_key_exec(*k));
        }
        proof {
            assert(ks.to_set() == self.page_table@.dom());
            assert(ks.len() == self.page_table@.dom().len());
            assert forall|i: int| 0 <= i < ids@.len() implies self.table().contains_key(
                page_key(#[trigger] ids@[i]),
            ) by {
                lemma_key_page_id(ks[i]);
                assert(ks.to_set().contains(ks[i]));
            }
            assert forall|k: u64| #[trigger] self.table().contains_key(k) implies exists|i: int|
                0 <= i < ids@.len() && page_key(#[trigger] ids@[i]) == k by {
                assert(ks.to_set().contains(k));
                assert(ks.contains(k));
                let i = ks.index_of(k);
                lemma_key_page_id(k);
                assert(page_key(ids@[i]) == k);
            }
        }
        ids
    }
}

/// A frame handed out by eviction was unpinned, and it is written back
/// exactly when it was dirty: pinned frames are never reused and no change
/// is lost.
pub proof fn lemma_evicted_frame_was_unpinned(
    pre: &BufferPool,
    post: &BufferPool,
    r: Result<FreeFrame, BufferPoolError>,
)
    requires
        pre.wf(),
        BufferPool::free_frame_post(pre, post, r),
        r matches Ok(ff) && ff.evicted,
    ensures
        ({
            let ff = r->Ok_0;
            &&& ff.frame_idx < pre.spec_capacity()
            &&& unpinned(pre.frames()[ff.frame_idx as int])
            &&& ff.write_back == pre.frames()[ff.frame_idx as int]->Some_0.is_dirty
            &&& !post.lru_order().contains(ff.frame_idx)
        }),
{
    pre.lemma_wf();
    lemma_last_unpinned(pre.frames(), pre.lru_order());
    let s = pre.lru_order();
    let j = last_unpinned(pre.frames(), s)->Some_0;
    let v = s[j];
    let t = s.skip(j + 1) + s.take(j);
    if t.contains(v) {
        let k = t.index_of(v);
        if k < s.len() - j - 1 {
            assert(t[k] == s[k + j + 1]);
        } else {
            assert(t[k] == s[k - (s.len() - j - 1)]);
        }
    }
}

/// When no frame is free, a miss takes the least recently used unpinned
/// frame: it succeeds exactly when some frame of the LRU order is unpinned,
/// and then the frame it hands out for eviction is unpinned while every
/// frame after it in the LRU order (every less recently used frame) is
/// pinned.
pub proof fn lemma_victim_is_least_recently_used_unpinned(
    pre: &BufferPool,
    post: &BufferPool,
    r: Result<FreeFrame, BufferPoolError>,
)
    requires
        pre.wf(),
        BufferPool::free_frame_post(pre, post, r),
        pre.free_frames().len() == 0,
    ensures
        r is Ok <==> exists|i: int|
            0 <= i < pre.lru_order().len() && (#[trigger] pre.frames()[pre.lru_order()[i] as int] matches Some(
                f,
            ) && f.pin_count == 0),
        r matches Ok(ff) ==> ff.evicted && exists|j: int|
            {
                &&& 0 <= j < pre.lru_order().len()
                &&& #[trigger] pre.lru_order()[j] == ff.frame_idx
                &&& pre.frames()[ff.frame_idx as int] matches Some(f) && f.pin_count == 0
                &&& forall|i: int|
                    j < i < pre.lru_order().len() ==> (#[trigger] pre.frames()[pre.lru_order()[i] as int] matches Some(
                        g,
                    ) && g.pin_count > 0)
            },
{
    pre.lemma_wf();
    let s = pre.lru_order();
    let fr = pre.frames();
    lemma_last_unpinned(fr, s);
    match last_unpinned(fr, s) {
        Some(j) => {
            assert(fr[s[j] as int] matches Some(f) && f.pin_count == 0);
            assert forall|i: int| j < i < s.len() implies (#[trigger] fr[s[i] as int] matches Some(g)
                && g.pin_count > 0) by {
                assert(!unpinned(fr[s[i] as int]));
                assert(fr[s[i] as int] is Some);
            }
        },
        None => {
            assert forall|i: int| 0 <= i < s.len() implies !(#[trigger] fr[s[i] as int] matches Some(f)
                && f.pin_count == 0) by {
                assert(!unpinned(fr[s[i] as int]));
            }
        },
    }
}

/// The same for `fetch_page`: a miss on a pool with no free frame takes the
/// least recently used unpinned frame, and fails exactly when every frame of
/// the LRU order is pinned.
pub proof fn lemma_fetch_miss_evicts_least_recently_used(
    pre: &BufferPool,
    post: &BufferPool,
    page_id: PageId,
    r: Result<FetchStep, BufferPoolError>,
)
    requires
        pre.wf(),
        !pre.table().contains_key(page_key(page_id)),
        pre.free_frames().len() == 0,
        match r {
            Ok(FetchStep::Miss(ff)) => BufferPool::free_frame_post(pre, post, Ok::<FreeFrame, BufferPoolError>(ff)),
            Ok(FetchStep::Hit(_)) => false,
            Err(e) => BufferPool::free_frame_post(pre, post, Err::<FreeFrame, BufferPoolError>(e)),
        },
    ensures
        r is Ok <==> exists|i: int|
            0 <= i < pre.lru_order().len() && (#[trigger] pre.frames()[pre.lru_order()[i] as int] matches Some(
                f,
            ) && f.pin_count == 0),
        r matches Ok(FetchStep::Miss(ff)) ==> ff.evicted && exists|j: int|
            {
                &&& 0 <= j < pre.lru_order().len()
                &&& #[trigger] pre.lru_order()[j] == ff.frame_idx
                &&& pre.frames()[ff.frame_idx as int] matches Some(f) && f.pin_count == 0
                &&& forall|i: int|
                    j < i < pre.lru_order().len() ==> (#[trigger] pre.frames()[pre.lru_order()[i] as int] matches Some(
                        g,
                    ) && g.pin_count > 0)
            },
{
    match r {
        Ok(FetchStep::Miss(ff)) => {
            lemma_victim_is_least_recently_used_unpinned(pre, post, Ok::<FreeFrame, BufferPoolError>(ff));
        },
        Ok(FetchStep::Hit(_)) => {},
        Err(e) => {
            lemma_victim_is_least_recently_used_unpinned(pre, post, Err::<FreeFrame, BufferPoolError>(e));
        },
    }
}

} // verus!
