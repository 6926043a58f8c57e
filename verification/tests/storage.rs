use mindb::storage::cache::PageCache;
use mindb::storage::checksum::{ChecksumError, ChecksumPage};
use mindb::storage::lock::{held_after, is_locked, is_would_block, matches_would_block, plan_lock, plan_switch, LockStep, LockType};
use mindb::storage::pager::{PageCache as PagerCache, PageHdr, PagerState, CACHE_SIZE, PAGE_SIZE};

fn page(id: u64, byte: u8) -> PageHdr {
    let mut p = PageHdr::new(id);
    p.data_mut()[0] = byte;
    p
}

#[test]
fn page_hdr_new_and_data_mut() {
    let mut p = PageHdr::new(9);
    assert_eq!(p.pgno, 9);
    assert!(!p.is_dirty);
    assert!(p.data.iter().all(|&b| b == 0));
    p.data_mut()[10] = 7;
    assert!(p.is_dirty);
    assert_eq!(p.data[10], 7);
}

#[test]
fn lru_cache_put_get_and_evict() {
    let mut c = PageCache::new();
    assert_eq!(c.capacity(), CACHE_SIZE);
    assert!(c.is_empty());
    for id in 0..CACHE_SIZE as u64 {
        assert!(c.put(id, page(id, id as u8)).is_none());
    }
    assert!(c.is_full());
    assert_eq!(c.len(), CACHE_SIZE);
    // touch page 0 so that page 1 becomes the least recently used
    assert_eq!(c.get(0).unwrap().data[0], 0);
    let evicted = c.put(100, page(100, 1));
    assert_eq!(evicted.map(|(id, _)| id), Some(1));
    assert!(!c.contains(1));
    assert!(c.contains(0));
    assert!(c.contains(100));
    assert_eq!(c.len(), CACHE_SIZE);
}

#[test]
fn lru_cache_replace_remove_clear() {
    let mut c = PageCache::default();
    c.put(5, page(5, 1));
    assert!(c.put(5, page(5, 2)).is_none());
    assert_eq!(c.len(), 1);
    assert_eq!(c.get(5).unwrap().data[0], 2);
    assert_eq!(c.remove(5).unwrap().data[0], 2);
    assert!(c.remove(5).is_none());
    assert!(c.get(5).is_none());
    c.put(1, page(1, 0));
    c.clear();
    assert!(c.is_empty());
    assert!(c.lru_evict().is_none());
}

#[test]
fn lru_cache_dirty_pages_in_use_order() {
    let mut c = PageCache::new();
    let mut clean = PageHdr::new(1);
    clean.is_dirty = false;
    c.put(1, clean);
    c.put(2, page(2, 0));
    c.put(3, page(3, 0));
    assert_eq!(dirty_ids(&c), vec![2, 3]);
    c.get(2);
    assert_eq!(dirty_ids(&c), vec![3, 2]);
    c.page_mut(3).unwrap().is_dirty = false;
    assert_eq!(dirty_ids(&c), vec![2]);
    let d = c.dirty_pages();
    assert_eq!(d[0].1.pgno, 2);
    assert!(d[0].1.is_dirty);
    assert_eq!(c.lru_evict().map(|(id, _)| id), Some(1));
}

fn dirty_ids(c: &PageCache) -> Vec<u64> {
    c.dirty_pages().into_iter().map(|(id, _)| id).collect()
}

#[test]
fn lru_cache_flush_dirty_hands_over_each_dirty_page() {
    let mut c = PageCache::new();
    let mut clean = PageHdr::new(1);
    clean.is_dirty = false;
    c.put(1, clean);
    c.put(2, page(2, 0));
    c.put(3, page(3, 0));
    let mut seen: Vec<u64> = Vec::new();
    let r: Result<usize, String> = c.flush_dirty(|id, mut p: PageHdr| {
        seen.push(id);
        p.is_dirty = false;
        (p, Ok(()))
    });
    assert_eq!(r, Ok(2));
    assert_eq!(seen, vec![2, 3]);
    assert!(dirty_ids(&c).is_empty());
    assert!(c.contains(1) && c.contains(2) && c.contains(3));
}

#[test]
fn lru_cache_flush_dirty_stops_at_first_error() {
    let mut c = PageCache::new();
    c.put(2, page(2, 0));
    c.put(3, page(3, 0));
    c.put(4, page(4, 0));
    let mut calls = 0;
    let r: Result<usize, String> = c.flush_dirty(|id, mut p: PageHdr| {
        calls += 1;
        if id == 3 {
            return (p, Err("disk full".to_string()));
        }
        p.is_dirty = false;
        (p, Ok(()))
    });
    assert_eq!(r, Err("disk full".to_string()));
    assert_eq!(calls, 2);
    assert_eq!(dirty_ids(&c), vec![3, 4]);
    assert_eq!(c.get(3).unwrap().pgno, 3);
}

#[test]
fn pager_cache_insert_get() {
    let mut c = PagerCache::new(4);
    assert!(!c.contains(3));
    c.insert(page(3, 9));
    assert!(c.contains(3));
    assert_eq!(c.get(3).unwrap().data[0], 9);
    c.get_mut(3).unwrap().data[0] = 10;
    assert_eq!(c.get(3).unwrap().data[0], 10);
    assert!(c.get_mut(4).is_none());
}

#[test]
fn pager_state_read_after_write() {
    let mut s = PagerState::new(0);
    assert_eq!(s.page_count(), 0);
    assert!(s.cached_page(2).is_none());
    let mut data = [0u8; PAGE_SIZE];
    data[1] = 42;
    s.record_write(2, data);
    assert_eq!(s.file_size(), 3 * PAGE_SIZE as u64);
    assert_eq!(s.page_count(), 3);
    assert_eq!(s.cached_page(2).unwrap()[1], 42);
    s.record_write(0, [1u8; PAGE_SIZE]);
    assert_eq!(s.page_count(), 3);
    assert_eq!(PagerState::page_offset(2), 2 * PAGE_SIZE as u64);
    s.record_read(5, [7u8; PAGE_SIZE]);
    assert_eq!(s.page_count(), 3);
    assert_eq!(s.cached_page(5).unwrap()[0], 7);
}

#[test]
fn pager_state_counts_whole_pages() {
    let s = PagerState::new(2 * PAGE_SIZE as u64 + 5);
    assert_eq!(s.page_count(), 2);
}

#[test]
fn lock_plans() {
    assert_eq!(plan_lock(LockType::Unlocked, LockType::Shared), LockStep::Acquire);
    assert_eq!(plan_lock(LockType::Shared, LockType::Shared), LockStep::Keep);
    assert_eq!(plan_lock(LockType::Exclusive, LockType::Shared), LockStep::ReleaseThenAcquire);
    assert_eq!(plan_lock(LockType::Shared, LockType::Exclusive), LockStep::ReleaseThenAcquire);
    assert_eq!(plan_switch(LockType::Unlocked, LockType::Exclusive), LockStep::ReleaseThenAcquire);
    assert_eq!(plan_switch(LockType::Exclusive, LockType::Exclusive), LockStep::Keep);
    assert_eq!(held_after(LockType::Shared, LockStep::Keep, LockType::Shared), LockType::Shared);
    assert_eq!(held_after(LockType::Unlocked, LockStep::Acquire, LockType::Exclusive), LockType::Exclusive);
    assert!(!is_locked(LockType::Unlocked));
    assert!(is_locked(LockType::Shared));
}

#[test]
fn would_block_errors() {
    assert!(matches_would_block(Some(11), (11, 35)));
    assert!(matches_would_block(Some(35), (11, 35)));
    assert!(!matches_would_block(Some(2), (11, 35)));
    assert!(!matches_would_block(None, (11, 35)));
    assert!(is_would_block(Some(libc::EWOULDBLOCK)));
    assert!(is_would_block(Some(libc::EAGAIN)));
    assert!(!is_would_block(Some(libc::ENOENT)));
    assert!(!is_would_block(None));
}

#[test]
fn checksum_error_message() {
    let e = ChecksumError { page_number: 7, expected: 0xdeadbeef, actual: 0x1a };
    assert_eq!(e.message(), "Checksum mismatch on page 7: expected 0xDEADBEEF, got 0x0000001A");
    let mut data = vec![0u8; 64];
    ChecksumPage::write_page_number(&mut data, 7);
    let err = ChecksumPage::verify_checksum(&data, 7).unwrap_err();
    assert_eq!(err.page_number, 7);
    assert_eq!(err.expected, 0);
    assert_eq!(err.actual, ChecksumPage::calculate_checksum(&data));
}
