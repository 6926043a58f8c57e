//! Pages of a database file, and the pager's bookkeeping: the file size, the
//! page count, and a cache of pages keyed by page number.
//!
//! The file itself is read and written by the caller; `PagerState` decides
//! where a page lies in the file, keeps the sizes up to date after a write,
//! and serves pages that were read or written before from its cache.

use std::collections::hash_map::Entry;
use std::collections::HashMap;
use vstd::prelude::*;

verus! {

broadcast use vstd::std_specs::hash::group_hash_axioms;

pub const PAGE_SIZE: usize = 4096;

pub const CACHE_SIZE: usize = 16;

pub struct PageHdr {
    pub pgno: u64,
    pub flags: u64,
    pub data: [u8; PAGE_SIZE],
    pub is_dirty: bool,
}

impl PageHdr {
    /// A clean, zero-filled page with number `pgno`.
    pub fn new(pgno: u64) -> (p: Self)
        ensures
            p.pgno == pgno,
            p.flags == 0,
            p.data@ == Seq::new(PAGE_SIZE as nat, |i: int| 0u8),
            !p.is_dirty,
    {
        let p = PageHdr { pgno, flags: 0, data: [0u8; PAGE_SIZE], is_dirty: false };
        assert(p.data@ =~= Seq::new(PAGE_SIZE as nat, |i: int| 0u8));
        p
    }

    /// The page's bytes, for writing; the page is marked dirty.
    pub fn data_mut(&mut self) -> (d: &mut [u8; PAGE_SIZE])
        ensures
            *d == old(self).data,
            final(self).data == *final(d),
            final(self).is_dirty,
            final(self).pgno == old(self).pgno,
            final(self).flags == old(self).flags,
    {
        self.is_dirty = true;
        &mut self.data
    }
}

/// Pages by page number.
pub struct PageCache {
    slots: HashMap<u64, PageHdr>,
    capacity: usize,
}

impl View for PageCache {
    type V = Map<u64, PageHdr>;

    closed spec fn view(&self) -> Map<u64, PageHdr> {
        self.slots@
    }
}

impl PageCache {
    /// The capacity the cache was made with.
    pub closed spec fn spec_capacity(self) -> nat {
        self.capacity as nat
    }

    /// An empty cache.
    pub fn new(capacity: usize) -> (c: Self)
        ensures
            c@ == Map::<u64, PageHdr>::empty(),
            c.spec_capacity() == capacity,
    {
        PageCache { slots: HashMap::with_capacity(capacity), capacity }
    }

    /// The page numbered `pgno`, if cached.
    pub fn get(&self, pgno: u64) -> (r: Option<&PageHdr>)
        ensures
            match r {
                Some(p) => self@.contains_key(pgno) && *p == self@[pgno],
                None => !self@.contains_key(pgno),
            },
    {
        self.slots.get(&pgno)
    }

    /// The page numbered `pgno`, if cached, for changing in place.
    pub fn get_mut(&mut self, pgno: u64) -> (r: Option<&mut PageHdr>)
        ensures
            match r {
                Some(p) => old(self)@.contains_key(pgno) && *p == old(self)@[pgno] && final(self)@ == old(
                    self,
                )@.insert(pgno, *final(p)) && final(self).spec_capacity() == old(self).spec_capacity(),
                None => !old(self)@.contains_key(pgno) && final(self)@ == old(self)@
                    && final(self).spec_capacity() == old(self).spec_capacity(),
            },
    {
        match self.slots.entry(pgno) {
            Entry::Occupied(o) => Some(o.into_mut()),
            Entry::Vacant(_) => None,
        }
    }

    /// Caches `page` under its page number, replacing any page cached there.
    pub fn insert(&mut self, page: PageHdr)
        ensures
            final(self)@ == old(self)@.insert(page.pgno, page),
            final(self).spec_capacity() == old(self).spec_capacity(),
    {
        self.slots.insert(page.pgno, page);
    }

    /// Whether the page numbered `pgno` is cached.
    pub fn contains(&self, pgno: u64) -> (r: bool)
        ensures
            r == self@.contains_key(pgno),
    {
        self.slots.contains_key(&pgno)
    }
}

/// Where page `pgno` starts in the file.
pub open spec fn spec_page_offset(pgno: u64) -> int {
    pgno * PAGE_SIZE
}

/// The page numbers whose pages fit in the file (pages at their offsets).
pub open spec fn max_page_number() -> int {
    (u64::MAX / (PAGE_SIZE as u64)) - 1
}

/// The pager's state besides the file: its size, its number of whole
/// pages, and the cached pages.
pub struct PagerState {
    file_size: u64,
    page_count: u64,
    cache: PageCache,
}

impl PagerState {
    pub closed spec fn spec_file_size(self) -> u64 {
        self.file_size
    }

    pub closed spec fn spec_page_count(self) -> u64 {
        self.page_count
    }

    /// The cached pages.
    pub closed spec fn pages(self) -> Map<u64, PageHdr> {
        self.cache@
    }

    /// The page count is the number of whole pages in the file.
    pub closed spec fn wf(self) -> bool {
        self.page_count == self.file_size / (PAGE_SIZE as u64)
    }

    /// The state of a file of `file_size` bytes, with nothing cached.
    pub fn new(file_size: u64) -> (s: Self)
        ensures
            s.wf(),
            s.spec_file_size() == file_size,
            s.spec_page_count() == file_size / (PAGE_SIZE as u64),
            s.pages() == Map::<u64, PageHdr>::empty(),
    {
        PagerState { file_size, page_count: file_size / (PAGE_SIZE as u64), cache: PageCache::new(CACHE_SIZE) }
    }

    pub fn file_size(&self) -> (n: u64)
        ensures
            n == self.spec_file_size(),
    {
        self.file_size
    }

    pub fn page_count(&self) -> (n: u64)
        ensures
            n == self.spec_page_count(),
    {
        self.page_count
    }

    /// Where page `pgno` starts in the file.
    pub fn page_offset(pgno: u64) -> (off: u64)
        requires
            pgno <= max_page_number(),
        ensures
            off == spec_page_offset(pgno),
            off + PAGE_SIZE <= u64::MAX,
    {
        assert(pgno * (PAGE_SIZE as u64) + PAGE_SIZE <= u64::MAX) by (nonlinear_arith)
            requires
                pgno <= (u64::MAX / (PAGE_SIZE as u64)) - 1,
        ;
        pgno * (PAGE_SIZE as u64)
    }

    /// The bytes of page `pgno`, if it was read or written before.
    pub fn cached_page(&self, pgno: u64) -> (r: Option<[u8; PAGE_SIZE]>)
        ensures
            match r {
                Some(d) => self.pages().contains_key(pgno) && d == self.pages()[pgno].data,
                None => !self.pages().contains_key(pgno),
            },
    {
        match self.cache.get(pgno) {
            Some(page) => Some(page.data),
            None => None,
        }
    }

    /// Records that `data` was written to page `pgno`: the file grows to
    /// cover the page if it did not, and the page is cached, clean.
    pub fn record_write(&mut self, pgno: u64, data: [u8; PAGE_SIZE])
        requires
            pgno <= max_page_number(),
        ensures
            ({
                let end = spec_page_offset(pgno) + PAGE_SIZE;
                &&& end > old(self).spec_file_size() ==> final(self).spec_file_size() == end
                    && final(self).spec_page_count() == end / (PAGE_SIZE as int)
                &&& end <= old(self).spec_file_size() ==> final(self).spec_file_size() == old(self).spec_file_size()
                    && final(self).spec_page_count() == old(self).spec_page_count()
            }),
            final(self).pages() == old(self).pages().insert(
                pgno,
                PageHdr { pgno, flags: 0, data, is_dirty: false },
            ),
            old(self).wf() ==> final(self).wf(),
    {
        let offset = Self::page_offset(pgno);
        let end = offset + (PAGE_SIZE as u64);
        if end > self.file_size {
            self.file_size = end;
            self.page_count = self.file_size / (PAGE_SIZE as u64);
        }
        let mut page = PageHdr::new(pgno);
        let d = page.data_mut();
        *d = data;
        page.is_dirty = false;
        self.cache.insert(page);
    }

    /// Records that page `pgno` was read from the file as `data`; the page
    /// is cached, clean.
    pub fn record_read(&mut self, pgno: u64, data: [u8; PAGE_SIZE])
        ensures
            final(self).spec_file_size() == old(self).spec_file_size(),
            final(self).spec_page_count() == old(self).spec_page_count(),
            final(self).pages() == old(self).pages().insert(
                pgno,
                PageHdr { pgno, flags: 0, data, is_dirty: false },
            ),
            old(self).wf() ==> final(self).wf(),
    {
        let mut page = PageHdr::new(pgno);
        let d = page.data_mut();
        *d = data;
        page.is_dirty = false;
        self.cache.insert(page);
    }
}

/// What a read of a page gives after a write of it: the bytes written.
/// Pages not written keep what they held.
pub proof fn lemma_read_after_write(before: PagerState, after: PagerState, pgno: u64, data: [u8; PAGE_SIZE])
    requires
        after.pages() == before.pages().insert(pgno, PageHdr { pgno, flags: 0, data, is_dirty: false }),
    ensures
        after.pages().contains_key(pgno),
        after.pages()[pgno].data == data,
        forall|q: u64| q != pgno ==> (after.pages().contains_key(q) <==> before.pages().contains_key(q)),
        forall|q: u64| q != pgno && before.pages().contains_key(q) ==> after.pages()[q] == before.pages()[q],
{
}

} // verus!
