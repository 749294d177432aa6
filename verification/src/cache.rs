//! The page cache of a buffer pool: cached page frames plus their
//! least-recently-used order. Reading a page that is not cached, and writing
//! pages through to disk, is the pool's work; the cache decides what is
//! kept and what is evicted.
use crate::page::Page;
use std::collections::HashMap;
use std::collections::VecDeque;
use vstd::prelude::*;

verus! {

broadcast use vstd::std_specs::hash::group_hash_axioms;

/// `order` with every occurrence of `page_index` moved to the back.
pub open spec fn touched(order: Seq<u32>, page_index: u32) -> Seq<u32> {
    order.filter(other_than(page_index)).push(page_index)
}

/// The predicate "is not `page_index`".
pub open spec fn other_than(page_index: u32) -> spec_fn(u32) -> bool {
    |x: u32| x != page_index
}

/// Cached page frames and their recency order (least recently used first).
pub struct PageCache {
    capacity: usize,
    frames: HashMap<u32, Page>,
    lru_order: VecDeque<u32>,
}

impl PageCache {
    /// The bytes of each cached page, by page index.
    pub closed spec fn pages(&self) -> Map<u32, Seq<u8>> {
        self.frames@.map_values(|p: Page| p@)
    }

    /// The cached page indices, least recently used first.
    pub closed spec fn recency(&self) -> Seq<u32> {
        self.lru_order@
    }

    pub closed spec fn capacity_of(&self) -> nat {
        self.capacity as nat
    }

    /// The recency order lists each cached page exactly once, and the cache
    /// holds at most `capacity` pages (at least one page is always kept).
    pub closed spec fn wf(&self) -> bool {
        &&& self.lru_order@.no_duplicates()
        &&& self.lru_order@.to_set() == self.frames@.dom()
        &&& self.lru_order@.len() <= (if self.capacity == 0 { 1 } else { self.capacity as int })
    }

    /// Whether caching `page_index` evicts the least recently used page.
    pub open spec fn evicts(&self, page_index: u32) -> bool {
        &&& !self.pages().contains_key(page_index)
        &&& self.recency().len() >= self.capacity_of()
        &&& self.recency().len() > 0
    }

    /// The view invariants, for callers: each cached page appears once in
    /// the recency order, and the number of cached pages respects the
    /// capacity.
    pub proof fn lemma_wf(&self)
        requires
            self.wf(),
        ensures
            self.recency().no_duplicates(),
            self.recency().to_set() == self.pages().dom(),
            self.recency().len() <= (if self.capacity_of() == 0 { 1 } else { self.capacity_of() as int }),
    {
        assert(self.pages().dom() =~= self.frames@.dom());
    }

    /// An empty cache holding up to `capacity` pages.
    pub fn new(capacity: usize) -> (cache: Self)
        ensures
            cache.wf(),
            cache.pages() == Map::<u32, Seq<u8>>::empty(),
            cache.recency() == Seq::<u32>::empty(),
            cache.capacity_of() == capacity,
    {
        let cache = PageCache { capacity, frames: HashMap::new(), lru_order: VecDeque::new() };
        assert(cache.lru_order@.to_set() =~= cache.frames@.dom());
        assert(cache.pages() =~= Map::<u32, Seq<u8>>::empty());
        cache
    }

    /// The number of cached pages.
    pub fn len(&self) -> (n: usize)
        requires
            self.wf(),
        ensures
            n == self.pages().len(),
            n == self.recency().len(),
    {
        proof {
            self.lru_order@.unique_seq_to_set();
            assert(self.pages().dom() =~= self.frames@.dom());
        }
        self.frames.len()
    }

    fn touch(&mut self, page_index: u32)
        ensures
            final(self).lru_order@ == touched(old(self).lru_order@, page_index),
            final(self).frames@ == old(self).frames@,
            final(self).capacity == old(self).capacity,
    {
        let ghost f = other_than(page_index);
        let n = self.lru_order.len();
        let mut kept: VecDeque<u32> = VecDeque::new();
        let mut k: usize = 0;
        while k < n
            invariant
                k <= n,
                n == self.lru_order@.len(),
                self.lru_order@ == old(self).lru_order@,
                self.frames@ == old(self).frames@,
                self.capacity == old(self).capacity,
                f == other_than(page_index),
                kept@ == self.lru_order@.take(k as int).filter(f),
            decreases n - k,
        {
            let x = self.lru_order[k];
            proof {
                assert(self.lru_order@.take(k + 1) =~= self.lru_order@.take(k as int).push(x));
                self.lru_order@.take(k as int).lemma_filter_push(x, f);
            }
            if x != page_index {
                kept.push_back(x);
            }
            k = k + 1;
        }
        assert(self.lru_order@.take(n as int) =~= self.lru_order@);
        kept.push_back(page_index);
        assert(kept@ == touched(old(self).lru_order@, page_index));
        self.lru_order = kept;
    }

    /// The cached copy of a page, which becomes the most recently used; or
    /// `None`, with nothing changed, when the page is not cached.
    pub fn lookup(&mut self, page_index: u32) -> (page: Option<Page>)
        requires
            old(self).wf(),
        ensures
            final(self).wf(),
            final(self).pages() == old(self).pages(),
            final(self).capacity_of() == old(self).capacity_of(),
            match page {
                Some(p) => {
                    &&& old(self).pages().contains_key(page_index)
                    &&& p@ == old(self).pages()[page_index]
                    &&& final(self).recency() == touched(old(self).recency(), page_index)
                },
                None => {
                    &&& !old(self).pages().contains_key(page_index)
                    &&& final(self).recency() == old(self).recency()
                },
            },
    {
        let found = match self.frames.get(&page_index) {
            Some(page) => Some(page.clone()),
            None => None,
        };
        match found {
            Some(page) => {
                let ghost before = self.lru_order@;
                self.touch(page_index);
                proof {
                    lemma_touched_keeps_set(before, page_index);
                    lemma_touched_len(before, page_index);
                    assert(old(self).frames@.dom().contains(page_index));
                    assert(before.to_set().contains(page_index));
                    assert(self.lru_order@.to_set() =~= self.frames@.dom());
                }
                Some(page)
            },
            None => None,
        }
    }

    /// Caches `page` under `page_index` and makes it the most recently used.
    /// When the page was not cached and the cache is full, the least
    /// recently used page is evicted first.
    pub fn insert(&mut self, page_index: u32, page: Page)
        requires
            old(self).wf(),
        ensures
            final(self).wf(),
            final(self).capacity_of() == old(self).capacity_of(),
            final(self).pages() == (if old(self).evicts(page_index) {
                old(self).pages().remove(old(self).recency()[0])
            } else {
                old(self).pages()
            }).insert(page_index, page@),
            final(self).recency() == touched(
                if old(self).evicts(page_index) {
                    old(self).recency().drop_first()
                } else {
                    old(self).recency()
                },
                page_index,
            ),
    {
        proof {
            self.lru_order@.unique_seq_to_set();
            assert(self.pages().dom() =~= self.frames@.dom());
        }
        let ghost evict = old(self).evicts(page_index);
        if !self.frames.contains_key(&page_index) && self.frames.len() >= self.capacity {
            let ghost before = self.lru_order@;
            if let Some(evicted) = self.lru_order.pop_front() {
                self.frames.remove(&evicted);
                proof {
                    assert(self.lru_order@ =~= before.drop_first());
                    lemma_drop_first_set(before);
                }
            }
        }
        let ghost mid_order = self.lru_order@;
        let ghost mid_frames = self.frames@;
        proof {
            if evict {
                assert(mid_order == old(self).recency().drop_first());
                assert(mid_frames == old(self).frames@.remove(old(self).recency()[0]));
                assert(old(self).recency().drop_first().len() == old(self).recency().len() - 1);
            } else {
                assert(mid_order == old(self).recency());
                assert(mid_frames == old(self).frames@);
            }
            assert(mid_order.no_duplicates());
            assert(mid_order.to_set() == mid_frames.dom());
        }
        let ghost pv = page@;
        self.frames.insert(page_index, page);
        self.touch(page_index);
        proof {
            lemma_touched_keeps_set(mid_order, page_index);
            mid_order.unique_seq_to_set();
            assert(self.frames@.dom() =~= mid_frames.dom().insert(page_index));
            let t = touched(mid_order, page_index);
            let cap = if self.capacity == 0 { 1 } else { self.capacity as int };
            // the touched order holds the old entries except `page_index`, plus `page_index`
            lemma_touched_len(mid_order, page_index);
            if !mid_order.contains(page_index) {
                assert(!old(self).pages().contains_key(page_index)) by {
                    if !evict {
                        assert(old(self).pages().dom() =~= old(self).frames@.dom());
                    } else {
                        assert(old(self).pages().dom() =~= old(self).frames@.dom());
                    }
                }
                if !evict {
                    assert(old(self).recency().len() < old(self).capacity_of() || old(self).recency().len() == 0);
                }
            }
            assert(t.len() <= cap);
            assert(self.pages() =~= (if evict {
                old(self).pages().remove(old(self).recency()[0])
            } else {
                old(self).pages()
            }).insert(page_index, pv));
        }
    }
}

proof fn lemma_drop_first_set(s: Seq<u32>)
    requires
        s.no_duplicates(),
        s.len() > 0,
    ensures
        s.drop_first().no_duplicates(),
        s.drop_first().to_set() == s.to_set().remove(s[0]),
{
    assert forall|x: u32| s.drop_first().to_set().contains(x) <==> s.to_set().remove(s[0]).contains(x) by {
        if s.drop_first().contains(x) {
            let i = choose|i: int| 0 <= i < s.drop_first().len() && s.drop_first()[i] == x;
            assert(s[i + 1] == x);
        }
        if s.to_set().remove(s[0]).contains(x) {
            let i = choose|i: int| 0 <= i < s.len() && s[i] == x;
            assert(i != 0);
            assert(s.drop_first()[i - 1] == x);
        }
    }
    assert(s.drop_first().to_set() =~= s.to_set().remove(s[0]));
}

/// Moving a page to the back of the recency order keeps each page listed
/// once, and the listed pages are the old ones plus that page.
pub proof fn lemma_touched_keeps_set(order: Seq<u32>, page_index: u32)
    requires
        order.no_duplicates(),
    ensures
        touched(order, page_index).no_duplicates(),
        touched(order, page_index).to_set() == order.to_set().insert(page_index),
        touched(order, page_index).last() == page_index,
{
    let f = other_than(page_index);
    let kept = order.filter(f);
    let t = kept.push(page_index);
    assert(t == touched(order, page_index));
    assert forall|x: u32| t.contains(x) <==> (order.contains(x) || x == page_index) by {
        if x == page_index {
            assert(t[t.len() - 1] == x);
        } else {
            if order.contains(x) {
                let i = choose|i: int| 0 <= i < order.len() && order[i] == x;
                order.lemma_filter_contains(f, i);
                assert(kept.contains(x));
                let j = choose|j: int| 0 <= j < kept.len() && kept[j] == x;
                assert(t[j] == x);
            }
            if t.contains(x) {
                let i = choose|i: int| 0 <= i < t.len() && t[i] == x;
                assert(i < kept.len());
                assert(kept[i] == x);
                assert(kept.contains(x));
                order.lemma_filter_contains_rev(f, x);
            }
        }
    }
    assert(t.to_set() =~= order.to_set().insert(page_index));
    lemma_filter_no_duplicates(order, f);
    assert forall|i: int, j: int| 0 <= i < j < t.len() implies t[i] != t[j] by {
        assert(t[i] == kept[i]);
        if j == t.len() - 1 {
            order.lemma_filter_pred(f, i);
        } else {
            assert(t[j] == kept[j]);
        }
    }
}

proof fn lemma_filter_no_duplicates(s: Seq<u32>, f: spec_fn(u32) -> bool)
    requires
        s.no_duplicates(),
    ensures
        s.filter(f).no_duplicates(),
    decreases s.len(),
{
    reveal(Seq::filter);
    if s.len() > 0 {
        let init = s.drop_last();
        assert(init.no_duplicates());
        lemma_filter_no_duplicates(init, f);
        assert(s =~= init.push(s.last()));
        init.lemma_filter_push(s.last(), f);
        if f(s.last()) {
            let fi = init.filter(f);
            assert forall|i: int| 0 <= i < fi.len() implies fi[i] != s.last() by {
                init.lemma_filter_contains_rev(f, fi[i]);
                assert(fi.contains(fi[i]));
                let k = choose|k: int| 0 <= k < init.len() && init[k] == fi[i];
                assert(s[k] == init[k]);
                assert(s[s.len() - 1] == s.last());
            }
        }
    }
}

/// When `page_index` is listed, touching keeps the length; otherwise it
/// grows by one.
proof fn lemma_touched_len(order: Seq<u32>, page_index: u32)
    requires
        order.no_duplicates(),
    ensures
        touched(order, page_index).len() == if order.contains(page_index) {
            order.len()
        } else {
            order.len() + 1
        },
{
    lemma_touched_keeps_set(order, page_index);
    order.unique_seq_to_set();
    touched(order, page_index).unique_seq_to_set();
    if order.contains(page_index) {
        assert(order.to_set().insert(page_index) =~= order.to_set());
    } else {
        assert(!order.to_set().contains(page_index));
    }
}

/// Reading a page right after caching it gives back what was cached, and
/// caching it makes it the most recently used page.
pub proof fn law_read_after_insert(before: PageCache, after: PageCache, page_index: u32, page: Seq<u8>)
    requires
        before.wf(),
        after.pages() == (if before.evicts(page_index) {
            before.pages().remove(before.recency()[0])
        } else {
            before.pages()
        }).insert(page_index, page),
        after.recency() == touched(
            if before.evicts(page_index) {
                before.recency().drop_first()
            } else {
                before.recency()
            },
            page_index,
        ),
    ensures
        after.pages().contains_key(page_index),
        after.pages()[page_index] == page,
        after.recency().last() == page_index,
        forall|q: u32|
            q != page_index && before.pages().contains_key(q) && !(before.evicts(page_index) && q
                == before.recency()[0]) ==> after.pages().contains_key(q) && #[trigger] after.pages()[q]
                == before.pages()[q],
{
    before.lemma_wf();
}

} // verus!
