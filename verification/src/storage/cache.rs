//! A page cache of at most `CACHE_SIZE` pages that evicts the least
//! recently used page when a new page arrives while it is full.
//!
//! Its abstract state is the map of cached pages (`pages`) and the order in
//! which they were last used (`order`, least recent first). Every cached
//! page occurs exactly once in the order.

use std::collections::hash_map::Entry;
use std::collections::{HashMap, VecDeque};
use vstd::prelude::*;

use crate::storage::pager::{PageHdr, CACHE_SIZE};

verus! {

broadcast use vstd::std_specs::hash::group_hash_axioms;

pub struct PageCache {
    hash: HashMap<u64, PageHdr>,
    num_pages: usize,
    max_pages: usize,
    lru_queue: VecDeque<u64>,
}

/// The ids of the dirty pages of `pages`, in the order of `order`.
pub open spec fn dirty_ids(order: Seq<u64>, pages: Map<u64, PageHdr>) -> Seq<u64> {
    order.filter(|id: u64| pages[id].is_dirty)
}

/// The pages of the ids after position `m` of `ds` are the same in `after`
/// as in `before`.
pub open spec fn untouched_after(ds: Seq<u64>, before: Map<u64, PageHdr>, after: Map<u64, PageHdr>, m: int) -> bool {
    forall|j: int| m < j < ds.len() ==> after[#[trigger] ds[j]] == before[ds[j]]
}

/// `flush_fn`, handed page `id` holding `before`, gave back `after` and
/// reported success.
pub open spec fn flushed_ok<E, F: FnMut(u64, PageHdr) -> (PageHdr, Result<(), E>)>(
    flush_fn: F,
    id: u64,
    before: PageHdr,
    after: PageHdr,
) -> bool {
    exists|out: Result<(), E>| out is Ok && #[trigger] call_ensures(flush_fn, (id, before), (after, out))
}

/// The pages `ds[0]`, ..., `ds[m - 1]` were handed to `flush_fn` in turn,
/// each call reporting success, and hold what it gave back.
pub open spec fn all_flushed<E, F: FnMut(u64, PageHdr) -> (PageHdr, Result<(), E>)>(
    flush_fn: F,
    ds: Seq<u64>,
    before: Map<u64, PageHdr>,
    after: Map<u64, PageHdr>,
    m: int,
) -> bool {
    forall|j: int| 0 <= j < m ==> flushed_ok(flush_fn, #[trigger] ds[j], before[ds[j]], after[ds[j]])
}

/// The pages before `ds[m]` were flushed with success, the call on `ds[m]`
/// reported `Err(e)`, and the later pages were not touched.
pub open spec fn failed_at<E, F: FnMut(u64, PageHdr) -> (PageHdr, Result<(), E>)>(
    flush_fn: F,
    ds: Seq<u64>,
    before: Map<u64, PageHdr>,
    after: Map<u64, PageHdr>,
    m: int,
    e: E,
) -> bool {
    &&& all_flushed(flush_fn, ds, before, after, m)
    &&& call_ensures(flush_fn, (ds[m], before[ds[m]]), (after[ds[m]], Err::<(), E>(e)))
    &&& untouched_after(ds, before, after, m)
}

/// Filtering keeps a sequence free of repeats.
proof fn lemma_filter_distinct(s: Seq<u64>, f: spec_fn(u64) -> bool)
    requires
        s.no_duplicates(),
    ensures
        s.filter(f).no_duplicates(),
    decreases s.len(),
{
    reveal(Seq::filter);
    if s.len() > 0 {
        let d = s.drop_last();
        assert(d.no_duplicates()) by {
            assert forall|a: int, b: int| 0 <= a < d.len() && 0 <= b < d.len() && a != b implies d[a] != d[b] by {
                assert(d[a] == s[a] && d[b] == s[b]);
            }
        }
        lemma_filter_distinct(d, f);
        if f(s.last()) {
            assert(!d.filter(f).contains(s.last())) by {
                if d.filter(f).contains(s.last()) {
                    d.lemma_filter_contains_rev(f, s.last());
                    let q = choose|q: int| 0 <= q < d.len() && d[q] == s.last();
                    assert(s[q] == s[s.len() - 1]);
                }
            }
            assert(s.filter(f) == d.filter(f).push(s.last()));
            let g = s.filter(f);
            assert forall|a: int, b: int| 0 <= a < g.len() && 0 <= b < g.len() && a != b implies g[a] != g[b] by {
                if a == g.len() - 1 {
                    assert(d.filter(f)[b] == g[b]);
                } else if b == g.len() - 1 {
                    assert(d.filter(f)[a] == g[a]);
                }
            }
        } else {
            assert(s.filter(f) == d.filter(f));
        }
    }
}

/// `order` with `id` moved to the back (most recent), when `id` is in it.
pub open spec fn moved_to_back(before: Seq<u64>, after: Seq<u64>, id: u64) -> bool {
    exists|pos: int|
        0 <= pos < before.len() && before[pos] == id && after == before.remove(pos).push(id)
}

/// `order` without `id`, when `id` is in it.
pub open spec fn dropped(before: Seq<u64>, after: Seq<u64>, id: u64) -> bool {
    exists|pos: int| 0 <= pos < before.len() && before[pos] == id && after == before.remove(pos)
}

impl PageCache {
    /// The cached pages by page id.
    pub closed spec fn pages(self) -> Map<u64, PageHdr> {
        self.hash@
    }

    /// The cached page ids, least recently used first.
    pub closed spec fn order(self) -> Seq<u64> {
        self.lru_queue@
    }

    /// The most pages the cache holds.
    pub closed spec fn spec_capacity(self) -> nat {
        self.max_pages as nat
    }

    /// The order lists every cached page exactly once, the count is its
    /// length, and it never exceeds the capacity.
    pub closed spec fn wf(self) -> bool {
        &&& self.lru_queue@.no_duplicates()
        &&& self.hash@.dom() == self.lru_queue@.to_set()
        &&& self.num_pages == self.lru_queue@.len()
        &&& self.num_pages <= self.max_pages
        &&& self.max_pages == CACHE_SIZE
    }

    proof fn lemma_wf_facts(self)
        requires
            self.wf(),
        ensures
            self.pages().len() == self.order().len(),
            self.pages().dom().finite(),
            forall|id: u64| self.pages().contains_key(id) <==> self.order().contains(id),
    {
        self.lru_queue@.unique_seq_to_set();
        assert forall|id: u64| self.pages().contains_key(id) <==> self.order().contains(id) by {
            assert(self.hash@.dom().contains(id) <==> self.lru_queue@.to_set().contains(id));
        }
    }

    proof fn lemma_wf_facts_loose(self)
        requires
            self.hash@.dom() == self.lru_queue@.to_set(),
        ensures
            forall|id: u64| self.hash@.contains_key(id) <==> self.lru_queue@.contains(id),
    {
        assert forall|id: u64| self.hash@.contains_key(id) <==> self.lru_queue@.contains(id) by {
            assert(self.hash@.dom().contains(id) <==> self.lru_queue@.to_set().contains(id));
        }
    }

    /// An empty cache of capacity `CACHE_SIZE`.
    pub fn new() -> (c: Self)
        ensures
            c.wf(),
            c.pages() == Map::<u64, PageHdr>::empty(),
            c.order() == Seq::<u64>::empty(),
            c.spec_capacity() == CACHE_SIZE,
    {
        let max_pages = CACHE_SIZE;
        let c = PageCache {
            hash: HashMap::with_capacity(max_pages),
            lru_queue: VecDeque::with_capacity(max_pages),
            num_pages: 0,
            max_pages,
        };
        assert(c.lru_queue@.to_set() =~= Set::<u64>::empty());
        assert(c.hash@.dom() =~= Set::<u64>::empty());
        c
    }

    /// Removes and returns the least recently used page, if any.
    pub fn lru_evict(&mut self) -> (r: Option<(u64, PageHdr)>)
        requires
            old(self).wf(),
        ensures
            final(self).wf(),
            final(self).spec_capacity() == old(self).spec_capacity(),
            old(self).order().len() == 0 ==> r is None && final(self).pages() == old(self).pages()
                && final(self).order() == old(self).order(),
            old(self).order().len() > 0 ==> {
                let id = old(self).order()[0];
                &&& r == Some((id, old(self).pages()[id]))
                &&& final(self).pages() == old(self).pages().remove(id)
                &&& final(self).order() == old(self).order().drop_first()
            },
    {
        proof {
            self.lemma_wf_facts();
        }
        let ghost q = self.lru_queue@;
        if let Some(page_id) = self.lru_queue.pop_front() {
            proof {
                assert(q.contains(page_id)) by {
                    assert(q[0] == page_id);
                }
            }
            if let Some(page) = self.hash.remove(&page_id) {
                self.num_pages -= 1;
                proof {
                    assert(self.lru_queue@ =~= q.drop_first());
                    assert(self.lru_queue@.to_set() =~= q.to_set().remove(page_id)) by {
                        assert forall|x: u64| self.lru_queue@.contains(x) <==> q.to_set().remove(page_id).contains(x) by {
                            if self.lru_queue@.contains(x) {
                                let k = choose|k: int| 0 <= k < self.lru_queue@.len() && self.lru_queue@[k] == x;
                                assert(q[k + 1] == x);
                            }
                            if q.contains(x) && x != page_id {
                                let k = choose|k: int| 0 <= k < q.len() && q[k] == x;
                                assert(k != 0);
                                assert(self.lru_queue@[k - 1] == x);
                            }
                        }
                    }
                }
                return Some((page_id, page));
            }
        }
        None
    }

    /// Finds the position of `page_id` in the order, if it is there.
    fn position(&self, page_id: u64) -> (r: Option<usize>)
        ensures
            match r {
                Some(pos) => pos < self.order().len() && self.order()[pos as int] == page_id,
                None => !self.order().contains(page_id),
            },
    {
        let n = self.lru_queue.len();
        let mut i: usize = 0;
        while i < n
            invariant
                n == self.lru_queue@.len(),
                0 <= i <= n,
                forall|j: int| 0 <= j < i ==> self.lru_queue@[j] != page_id,
            decreases n - i,
        {
            if self.lru_queue[i] == page_id {
                return Some(i);
            }
            i += 1;
        }
        None
    }

    /// Removes `page_id` from the order.
    fn remove_from_lru(&mut self, page_id: u64)
        ensures
            final(self).hash@ == old(self).hash@,
            final(self).num_pages == old(self).num_pages,
            final(self).max_pages == old(self).max_pages,
            old(self).order().contains(page_id) ==> dropped(old(self).order(), final(self).order(), page_id),
            !old(self).order().contains(page_id) ==> final(self).order() == old(self).order(),
    {
        if let Some(pos) = self.position(page_id) {
            let _ = self.lru_queue.remove(pos);
            assert(self.lru_queue@ == old(self).lru_queue@.remove(pos as int));
        }
    }

    /// Marks `page_id`, which is cached, as the most recently used.
    fn touch(&mut self, page_id: u64)
        requires
            old(self).wf(),
            old(self).pages().contains_key(page_id),
        ensures
            final(self).wf(),
            final(self).pages() == old(self).pages(),
            final(self).spec_capacity() == old(self).spec_capacity(),
            moved_to_back(old(self).order(), final(self).order(), page_id),
    {
        proof {
            self.lemma_wf_facts();
        }
        let ghost q = self.lru_queue@;
        self.remove_from_lru(page_id);
        let ghost q1 = self.lru_queue@;
        self.lru_queue.push_back(page_id);
        proof {
            let pos = choose|pos: int| 0 <= pos < q.len() && q[pos] == page_id && q1 == q.remove(pos);
            lemma_move_to_back(q, pos);
            assert(self.lru_queue@ == q.remove(pos).push(page_id));
        }
    }

    /// The page `page_id`, if cached; it becomes the most recently used.
    pub fn get(&mut self, page_id: u64) -> (r: Option<&PageHdr>)
        requires
            old(self).wf(),
        ensures
            final(self).wf(),
            final(self).pages() == old(self).pages(),
            final(self).spec_capacity() == old(self).spec_capacity(),
            match r {
                Some(p) => old(self).pages().contains_key(page_id) && *p == old(self).pages()[page_id]
                    && moved_to_back(old(self).order(), final(self).order(), page_id),
                None => !old(self).pages().contains_key(page_id) && final(self).order() == old(self).order(),
            },
    {
        if self.hash.contains_key(&page_id) {
            self.touch(page_id);
            return self.hash.get(&page_id);
        }
        None
    }

    /// Caches `page` under `page_id` as the most recently used page. A page
    /// already cached under that id is replaced; otherwise, when the cache is
    /// full, the least recently used page is evicted and returned.
    pub fn put(&mut self, page_id: u64, page: PageHdr) -> (evicted: Option<(u64, PageHdr)>)
        requires
            old(self).wf(),
        ensures
            final(self).wf(),
            final(self).spec_capacity() == old(self).spec_capacity(),
            old(self).pages().contains_key(page_id) ==> {
                &&& evicted is None
                &&& final(self).pages() == old(self).pages().insert(page_id, page)
                &&& moved_to_back(old(self).order(), final(self).order(), page_id)
            },
            !old(self).pages().contains_key(page_id) && old(self).order().len() < old(self).spec_capacity() ==> {
                &&& evicted is None
                &&& final(self).pages() == old(self).pages().insert(page_id, page)
                &&& final(self).order() == old(self).order().push(page_id)
            },
            !old(self).pages().contains_key(page_id) && old(self).order().len() >= old(self).spec_capacity() ==> {
                let lru = old(self).order()[0];
                &&& evicted == Some((lru, old(self).pages()[lru]))
                &&& final(self).pages() == old(self).pages().remove(lru).insert(page_id, page)
                &&& final(self).order() == old(self).order().drop_first().push(page_id)
            },
    {
        proof {
            self.lemma_wf_facts();
        }
        let ghost q0 = self.lru_queue@;
        let mut evicted = None;
        if self.hash.contains_key(&page_id) {
            self.remove_from_lru(page_id);
            proof {
                let pos = choose|pos: int| 0 <= pos < q0.len() && q0[pos] == page_id && self.lru_queue@ == q0.remove(pos);
                lemma_move_to_back(q0, pos);
                lemma_removed_set(q0, pos);
                assert(self.hash@.dom().insert(page_id) =~= self.lru_queue@.to_set().insert(page_id));
            }
        } else {
            if self.num_pages >= self.max_pages {
                evicted = self.lru_evict();
                proof {
                    assert(q0.len() > 0);
                    assert(!self.lru_queue@.contains(page_id)) by {
                        if self.lru_queue@.contains(page_id) {
                            let k = choose|k: int| 0 <= k < self.lru_queue@.len() && self.lru_queue@[k] == page_id;
                            assert(q0[k + 1] == page_id);
                            assert(q0.contains(page_id));
                        }
                    }
                }
            }
            self.num_pages += 1;
            proof {
                self.lemma_wf_facts_loose();
                assert(self.hash@.dom().insert(page_id) =~= self.lru_queue@.to_set().insert(page_id));
            }
        }
        let ghost q1 = self.lru_queue@;
        proof {
            assert(!q1.contains(page_id));
            assert(q1.no_duplicates());
        }
        self.hash.insert(page_id, page);
        self.lru_queue.push_back(page_id);
        proof {
            assert(self.lru_queue@ == q1.push(page_id));
            assert(self.lru_queue@.no_duplicates()) by {
                assert forall|i: int, j: int| 0 <= i < j < self.lru_queue@.len() implies self.lru_queue@[i] != self.lru_queue@[j] by {
                    if j == q1.len() {
                        assert(q1.contains(q1[i]));
                    }
                }
            }
            assert(self.lru_queue@.to_set() =~= q1.to_set().insert(page_id)) by {
                assert forall|x: u64| self.lru_queue@.contains(x) <==> q1.to_set().insert(page_id).contains(x) by {
                    if self.lru_queue@.contains(x) && x != page_id {
                        let k = choose|k: int| 0 <= k < self.lru_queue@.len() && self.lru_queue@[k] == x;
                        assert(q1[k] == x);
                    }
                    if q1.contains(x) {
                        let k = choose|k: int| 0 <= k < q1.len() && q1[k] == x;
                        assert(self.lru_queue@[k] == x);
                    }
                    if x == page_id {
                        assert(self.lru_queue@[q1.len() as int] == x);
                    }
                }
            }
        }
        evicted
    }

    /// Removes the page `page_id` and returns it, if cached.
    pub fn remove(&mut self, page_id: u64) -> (r: Option<PageHdr>)
        requires
            old(self).wf(),
        ensures
            final(self).wf(),
            final(self).spec_capacity() == old(self).spec_capacity(),
            match r {
                Some(p) => old(self).pages().contains_key(page_id) && p == old(self).pages()[page_id]
                    && final(self).pages() == old(self).pages().remove(page_id)
                    && dropped(old(self).order(), final(self).order(), page_id),
                None => !old(self).pages().contains_key(page_id) && final(self).pages() == old(self).pages()
                    && final(self).order() == old(self).order(),
            },
    {
        proof {
            self.lemma_wf_facts();
        }
        let ghost q0 = self.lru_queue@;
        if let Some(page) = self.hash.remove(&page_id) {
            self.remove_from_lru(page_id);
            self.num_pages -= 1;
            proof {
                let pos = choose|pos: int| 0 <= pos < q0.len() && q0[pos] == page_id && self.lru_queue@ == q0.remove(pos);
                lemma_removed_set(q0, pos);
            }
            return Some(page);
        }
        assert(self.hash@ =~= old(self).hash@);
        None
    }

    /// Whether the page `page_id` is cached.
    pub fn contains(&self, page_id: u64) -> (r: bool)
        ensures
            r == self.pages().contains_key(page_id),
    {
        self.hash.contains_key(&page_id)
    }

    /// Drops every page.
    pub fn clear(&mut self)
        requires
            old(self).wf(),
        ensures
            final(self).wf(),
            final(self).spec_capacity() == old(self).spec_capacity(),
            final(self).pages() == Map::<u64, PageHdr>::empty(),
            final(self).order() == Seq::<u64>::empty(),
    {
        self.hash.clear();
        self.lru_queue.clear();
        self.num_pages = 0;
        assert(self.lru_queue@.to_set() =~= Set::<u64>::empty());
        assert(self.hash@.dom() =~= Set::<u64>::empty());
    }

    /// The number of cached pages.
    pub fn len(&self) -> (n: usize)
        requires
            self.wf(),
        ensures
            n == self.pages().len(),
            n == self.order().len(),
    {
        proof {
            self.lemma_wf_facts();
        }
        self.num_pages
    }

    /// Whether no page is cached.
    pub fn is_empty(&self) -> (r: bool)
        requires
            self.wf(),
        ensures
            r == (self.pages().len() == 0),
    {
        proof {
            self.lemma_wf_facts();
        }
        self.num_pages == 0
    }

    /// Whether the cache holds as many pages as it can.
    pub fn is_full(&self) -> (r: bool)
        requires
            self.wf(),
        ensures
            r == (self.pages().len() >= self.spec_capacity()),
    {
        proof {
            self.lemma_wf_facts();
        }
        self.num_pages >= self.max_pages
    }

    /// The most pages the cache holds.
    pub fn capacity(&self) -> (n: usize)
        ensures
            n == self.spec_capacity(),
    {
        self.max_pages
    }

    /// The dirty pages with their ids, least recently used first.
    pub fn dirty_pages(&self) -> (dirty: Vec<(u64, &PageHdr)>)
        requires
            self.wf(),
        ensures
            dirty@.map_values(|e: (u64, &PageHdr)| e.0) == self.order().filter(|id: u64| self.pages()[id].is_dirty),
            forall|i: int| 0 <= i < dirty@.len() ==> *(#[trigger] dirty@[i]).1 == self.pages()[dirty@[i].0],
    {
        proof {
            self.lemma_wf_facts();
        }
        let ghost f = |id: u64| self.pages()[id].is_dirty;
        let ghost fst = |e: (u64, &PageHdr)| e.0;
        let n = self.lru_queue.len();
        let mut dirty: Vec<(u64, &PageHdr)> = Vec::new();
        let mut i: usize = 0;
        while i < n
            invariant
                self.wf(),
                n == self.lru_queue@.len(),
                0 <= i <= n,
                f == (|id: u64| self.pages()[id].is_dirty),
                fst == (|e: (u64, &PageHdr)| e.0),
                dirty@.map_values(fst) == self.lru_queue@.subrange(0, i as int).filter(f),
                forall|j: int| 0 <= j < dirty@.len() ==> *(#[trigger] dirty@[j]).1 == self.pages()[dirty@[j].0],
                forall|id: u64| self.pages().contains_key(id) <==> self.order().contains(id),
            decreases n - i,
        {
            let id = self.lru_queue[i];
            proof {
                assert(self.order().contains(id)) by {
                    assert(self.lru_queue@[i as int] == id);
                }
                let s = self.lru_queue@.subrange(0, i + 1);
                assert(s.drop_last() =~= self.lru_queue@.subrange(0, i as int));
                assert(s.last() == id);
                reveal(Seq::filter);
            }
            match self.hash.get(&id) {
                Some(page) => {
                    if page.is_dirty {
                        let ghost before = dirty@;
                        dirty.push((id, page));
                        proof {
                            assert(dirty@.map_values(fst) =~= before.map_values(fst).push(id));
                        }
                    }
                },
                None => {},
            }
            i += 1;
        }
        assert(self.lru_queue@.subrange(0, n as int) =~= self.lru_queue@);
        dirty
    }

    /// Hands each dirty page, least recently used first, to `flush_fn`,
    /// which gives back the page to keep; stops at its first error and
    /// returns how many pages it handed over. Clean pages are not handed
    /// over, and after an error the pages not yet handed over are as they
    /// were.
    pub fn flush_dirty<E, F>(&mut self, flush_fn: F) -> (r: Result<usize, E>)
        where
            F: FnMut(u64, PageHdr) -> (PageHdr, Result<(), E>),
        requires
            old(self).wf(),
            forall|id: u64, p: PageHdr| #[trigger] call_requires(flush_fn, (id, p)),
        ensures
            final(self).wf(),
            final(self).spec_capacity() == old(self).spec_capacity(),
            final(self).order() == old(self).order(),
            final(self).pages().dom() == old(self).pages().dom(),
            forall|id: u64|
                old(self).pages().contains_key(id) && !old(self).pages()[id].is_dirty
                    ==> #[trigger] final(self).pages()[id] == old(self).pages()[id],
            ({
                let ds = dirty_ids(old(self).order(), old(self).pages());
                let before = old(self).pages();
                let after = final(self).pages();
                &&& r matches Ok(n) ==> n == ds.len() && all_flushed(flush_fn, ds, before, after, ds.len() as int)
                &&& r is Err ==> exists|m: int|
                    0 <= m < ds.len() && #[trigger] failed_at(flush_fn, ds, before, after, m, r->Err_0)
            }),
    {
        let mut f = flush_fn;
        let ghost o0 = self.order();
        let ghost p0 = self.pages();
        let ghost ds = dirty_ids(o0, p0);
        let ghost fst = |e: (u64, &PageHdr)| e.0;
        let ghost pred = |id: u64| p0[id].is_dirty;
        proof {
            self.lemma_wf_facts();
            assert(ds == o0.filter(pred));
            lemma_filter_distinct(o0, pred);
            assert forall|i: int| 0 <= i < ds.len() implies o0.contains(#[trigger] ds[i]) && p0[ds[i]].is_dirty by {
                o0.lemma_filter_pred(pred, i);
                assert(ds.contains(ds[i]));
                o0.lemma_filter_contains_rev(pred, ds[i]);
            }
        }
        let dirty = self.dirty_pages();
        let mut todo: Vec<u64> = Vec::new();
        let mut k: usize = 0;
        let n = dirty.len();
        while k < n
            invariant
                k <= n,
                n == dirty@.len(),
                fst == (|e: (u64, &PageHdr)| e.0),
                dirty@.map_values(fst) == ds,
                todo@ == ds.subrange(0, k as int),
            decreases n - k,
        {
            todo.push(dirty[k].0);
            k += 1;
            assert(todo@ =~= ds.subrange(0, k as int));
        }
        assert(todo@ =~= ds);
        let m = todo.len();
        let mut flushed: usize = 0;
        let mut j: usize = 0;
        while j < m
            invariant
                self.wf(),
                self.spec_capacity() == CACHE_SIZE,
                old(self).spec_capacity() == CACHE_SIZE,
                o0 == old(self).order(),
                p0 == old(self).pages(),
                j <= m,
                m == todo@.len(),
                todo@ == ds,
                ds == dirty_ids(o0, p0),
                ds.no_duplicates(),
                forall|i: int| 0 <= i < ds.len() ==> o0.contains(#[trigger] ds[i]) && p0[ds[i]].is_dirty,
                forall|id: u64| p0.contains_key(id) <==> o0.contains(id),
                flushed == j,
                self.order() == o0,
                self.pages().dom() == p0.dom(),
                forall|id: u64| p0.contains_key(id) && !p0[id].is_dirty ==> #[trigger] self.pages()[id] == p0[id],
                forall|jj: int| j <= jj < ds.len() ==> self.pages()[#[trigger] ds[jj]] == p0[ds[jj]],
                all_flushed(flush_fn, ds, p0, self.pages(), j as int),
                f == flush_fn,
                forall|id: u64, p: PageHdr| #[trigger] call_requires(f, (id, p)),
            decreases m - j,
        {
            let id = todo[j];
            proof {
                assert(ds[j as int] == id);
                assert(p0.contains_key(id));
                assert forall|jj: int| j < jj < ds.len() implies ds[jj] != id by {
                    assert(ds[jj] != ds[j as int]);
                }
            }
            let ghost before_pages = self.pages();
            let ghost mut given = p0[id];
            let res = match self.page_mut(id) {
                Some(page) => {
                    let mut taken = PageHdr::new(id);
                    std::mem::swap(&mut taken, page);
                    let (kept, res) = f(id, taken);
                    proof {
                        given = kept;
                    }
                    *page = kept;
                    res
                },
                None => {
                    proof {
                        assert(!p0.contains_key(id));
                    }
                    Ok(())
                },
            };
            proof {
                assert(self.pages()[id] == given);
                assert(call_ensures(f, (id, p0[id]), (given, res)));
                assert forall|jj: int| 0 <= jj < j implies self.pages()[#[trigger] ds[jj]] == before_pages[ds[jj]] by {
                    assert(ds[jj] != ds[j as int]);
                }
            }
            let ghost res0 = res;
            match res {
                Ok(()) => {},
                Err(e) => {
                    proof {
                        assert(res0 == Err::<(), E>(e));
                        assert(untouched_after(ds, p0, self.pages(), j as int));
                        assert(failed_at(flush_fn, ds, p0, self.pages(), j as int, e));
                    }
                    let r = Err(e);
                    proof {
                        assert(r->Err_0 == e);
                    }
                    return r;
                },
            }
            proof {
                assert(res0 is Ok);
                assert(flushed_ok(flush_fn, ds[j as int], p0[ds[j as int]], self.pages()[ds[j as int]]));
                assert forall|jj: int| 0 <= jj < j + 1 implies flushed_ok(
                    flush_fn,
                    #[trigger] ds[jj],
                    p0[ds[jj]],
                    self.pages()[ds[jj]],
                ) by {
                    if jj < j {
                        assert(self.pages()[ds[jj]] == before_pages[ds[jj]]);
                    }
                }
            }
            flushed += 1;
            j += 1;
        }
        Ok(flushed)
    }

    /// The page `page_id`, if cached, for changing in place; the order of
    /// use is kept.
    pub fn page_mut(&mut self, page_id: u64) -> (r: Option<&mut PageHdr>)
        requires
            old(self).wf(),
        ensures
            final(self).wf(),
            final(self).order() == old(self).order(),
            final(self).spec_capacity() == old(self).spec_capacity(),
            match r {
                Some(p) => old(self).pages().contains_key(page_id) && *p == old(self).pages()[page_id]
                    && final(self).pages() == old(self).pages().insert(page_id, *final(p)),
                None => !old(self).pages().contains_key(page_id) && final(self).pages() == old(self).pages(),
            },
    {
        proof {
            assert forall|v: PageHdr| self.hash@.contains_key(page_id) implies #[trigger] self.hash@.insert(page_id, v).dom()
                =~= self.hash@.dom() by {}
            assert(!self.hash@.contains_key(page_id) ==> self.hash@.remove(page_id) =~= self.hash@);
        }
        match self.hash.entry(page_id) {
            Entry::Occupied(o) => Some(o.into_mut()),
            Entry::Vacant(_) => None,
        }
    }
}

impl Default for PageCache {
    fn default() -> (c: Self)
        ensures
            c.wf(),
            c.pages() == Map::<u64, PageHdr>::empty(),
            c.order() == Seq::<u64>::empty(),
    {
        Self::new()
    }
}

/// Moving an element of a sequence without duplicates to its back keeps
/// it without duplicates, with the same elements.
proof fn lemma_move_to_back(q: Seq<u64>, pos: int)
    requires
        q.no_duplicates(),
        0 <= pos < q.len(),
    ensures
        q.remove(pos).push(q[pos]).no_duplicates(),
        q.remove(pos).push(q[pos]).to_set() == q.to_set(),
        !q.remove(pos).contains(q[pos]),
{
    let r = q.remove(pos);
    let id = q[pos];
    let s = r.push(id);
    assert forall|k: int| 0 <= k < r.len() implies r[k] != id by {
        if k < pos {
            assert(r[k] == q[k]);
        } else {
            assert(r[k] == q[k + 1]);
        }
    }
    assert forall|i: int, j: int| 0 <= i < j < s.len() implies s[i] != s[j] by {
        if j == r.len() {
        } else {
            let i0 = if i < pos { i } else { i + 1 };
            let j0 = if j < pos { j } else { j + 1 };
            assert(r[i] == q[i0]);
            assert(r[j] == q[j0]);
        }
    }
    assert(s.to_set() =~= q.to_set()) by {
        assert forall|x: u64| s.contains(x) <==> q.contains(x) by {
            if s.contains(x) {
                let k = choose|k: int| 0 <= k < s.len() && s[k] == x;
                if k == r.len() {
                    assert(q[pos] == x);
                } else if k < pos {
                    assert(q[k] == x);
                } else {
                    assert(q[k + 1] == x);
                }
            }
            if q.contains(x) {
                let k = choose|k: int| 0 <= k < q.len() && q[k] == x;
                if k == pos {
                    assert(s[r.len() as int] == x);
                } else if k < pos {
                    assert(s[k] == x);
                } else {
                    assert(s[k - 1] == x);
                }
            }
        }
    }
}

/// Removing an element of a sequence without duplicates removes exactly
/// that element from its set.
proof fn lemma_removed_set(q: Seq<u64>, pos: int)
    requires
        q.no_duplicates(),
        0 <= pos < q.len(),
    ensures
        q.remove(pos).no_duplicates(),
        q.remove(pos).to_set() == q.to_set().remove(q[pos]),
{
    lemma_move_to_back(q, pos);
    let r = q.remove(pos);
    assert forall|i: int, j: int| 0 <= i < j < r.len() implies r[i] != r[j] by {
        assert(r.push(q[pos])[i] == r[i]);
        assert(r.push(q[pos])[j] == r[j]);
    }
    assert(r.to_set() =~= q.to_set().remove(q[pos])) by {
        assert forall|x: u64| r.contains(x) <==> q.to_set().remove(q[pos]).contains(x) by {
            if r.contains(x) {
                let k = choose|k: int| 0 <= k < r.len() && r[k] == x;
                assert(r.push(q[pos])[k] == x);
                assert(r.push(q[pos]).contains(x));
            }
            if q.contains(x) && x != q[pos] {
                assert(r.push(q[pos]).to_set().contains(x));
                let k = choose|k: int| 0 <= k < r.push(q[pos]).len() && r.push(q[pos])[k] == x;
                assert(k < r.len());
                assert(r[k] == x);
            }
        }
    }
}

impl PageCache {
    /// A cache never holds more pages than its capacity.
    pub proof fn lemma_within_capacity(self)
        requires
            self.wf(),
        ensures
            self.pages().len() <= self.spec_capacity(),
    {
        self.lemma_wf_facts();
    }

    /// A page just put is what a lookup of its id gives, whether or not a
    /// page was evicted to make room.
    pub proof fn lemma_get_after_put(after: PageCache, before: PageCache, page_id: u64, page: PageHdr, lru: u64)
        requires
            after.pages() == before.pages().insert(page_id, page) || after.pages() == before.pages().remove(
                lru,
            ).insert(page_id, page),
        ensures
            after.pages().contains_key(page_id),
            after.pages()[page_id] == page,
    {
    }
}

} // verus!
