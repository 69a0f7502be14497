//! The physical page allocator: a page array with a 4 KiB free list and a
//! 2 MiB free list threaded through it.
use vstd::prelude::*;
use crate::page::{
    PageArrayElement, State, PAGE_SIZE, PAGES_PER_SUPERPAGE, SUPERPAGE_SIZE, page_address, page_index_of, with_prev_4k,
    with_state,
};
use crate::model::{
    AllocState, alloc_2mb_ok, alloc_2mb_step, alloc_4k_ok, alloc_4k_step, allocate_step, dealloc_step,
    detach_prev_2mb, detach_prev_4k, free_2mb_step, free_4k_ok, free_4k_step, link_before_head, map_range,
    merge_step, pop_4k, pop_4k_ok, push_superpage, pushed_page, release_4k, release_merges, split_and_detach,
    split_block, split_ok, taken_page, unlink_4k, unlink_block, wants_large, wants_small,
};
use crate::shape::valid;
use crate::laws::{law_alloc_4k, law_alloc_2mb, law_free_4k, law_free_2mb, law_allocate, law_dealloc};

verus! {

/// `l` is the null link or names a page of `a`.
pub open spec fn fits_page(a: Seq<PageArrayElement>, l: Option<usize>) -> bool {
    l matches Some(j) ==> j < a.len()
}

/// `l` is the null link or names the first page of a superpage lying wholly in `a`.
pub open spec fn fits_superpage(a: Seq<PageArrayElement>, l: Option<usize>) -> bool {
    l matches Some(j) ==> j + PAGES_PER_SUPERPAGE <= a.len()
}

/// Every page of an array of `len` pages has a physical address that fits a `usize`.
pub open spec fn addressable(len: nat) -> bool {
    len * PAGE_SIZE <= usize::MAX + 1
}

/// The structural shape every page array handled by the allocator keeps:
/// 4 KiB links name pages of the array, 2 MiB links and pages whose count is
/// a full superpage name superpages lying wholly inside the array, and every
/// page is addressable.
pub open spec fn links_in_range(a: Seq<PageArrayElement>) -> bool {
    &&& addressable(a.len())
    &&& forall|i: int|
        #![trigger a[i]]
        0 <= i < a.len() ==> {
            &&& fits_page(a, a[i].next_4k)
            &&& fits_page(a, a[i].prev_4k)
            &&& fits_superpage(a, a[i].next_2mb)
            &&& fits_superpage(a, a[i].prev_2mb)
            &&& (a[i].count == PAGES_PER_SUPERPAGE ==> i + PAGES_PER_SUPERPAGE <= a.len())
        }
}

/// Record `e` may stand at index `i` of `a` without breaking `links_in_range`.
pub open spec fn element_fits(a: Seq<PageArrayElement>, i: int, e: PageArrayElement) -> bool {
    &&& fits_page(a, e.next_4k)
    &&& fits_page(a, e.prev_4k)
    &&& fits_superpage(a, e.next_2mb)
    &&& fits_superpage(a, e.prev_2mb)
    &&& (e.count == PAGES_PER_SUPERPAGE ==> i + PAGES_PER_SUPERPAGE <= a.len())
}

/// Replacing a record by one that fits keeps every link of the array in range.
pub proof fn lemma_links_in_range_update(a: Seq<PageArrayElement>, i: int, e: PageArrayElement)
    requires
        links_in_range(a),
        0 <= i < a.len(),
        element_fits(a, i, e),
    ensures
        links_in_range(a.update(i, e)),
{
    let b = a.update(i, e);
    assert forall|k: int| #![trigger b[k]] 0 <= k < b.len() implies element_fits(b, k, b[k]) by {
        if k != i {
            assert(b[k] == a[k]);
        }
    }
}

/// The physical page allocator.
pub struct PhysicalAllocator {
    /// Head of the 4 KiB free list.
    free_4k_head: Option<usize>,
    /// Head of the 2 MiB free list.
    free_2mb_head: Option<usize>,
    /// One metadata record per physical page.
    page_array: Vec<PageArrayElement>,
    /// Index of the first page the allocator may hand out.
    first_usable_page_index: usize,
    /// Whether a page array has been installed.
    initialized: bool,
}

impl PhysicalAllocator {
    /// The page array.
    pub closed spec fn pages(&self) -> Seq<PageArrayElement> {
        self.page_array@
    }

    /// Head of the 4 KiB free list.
    pub closed spec fn head_4k(&self) -> Option<usize> {
        self.free_4k_head
    }

    /// Head of the 2 MiB free list.
    pub closed spec fn head_2mb(&self) -> Option<usize> {
        self.free_2mb_head
    }

    /// Whether a page array has been installed.
    pub closed spec fn is_initialized(&self) -> bool {
        self.initialized
    }

    /// Index of the first usable page recorded at installation.
    pub closed spec fn first_usable(&self) -> usize {
        self.first_usable_page_index
    }

    /// The allocator's state as a mathematical value.
    pub open spec fn model(&self) -> AllocState {
        AllocState { pages: self.pages(), head_4k: self.head_4k(), head_2mb: self.head_2mb() }
    }

    /// Well-formedness: every link of the page array is in range and both list heads
    /// name pages (a superpage, for the 2 MiB list) of the array.
    pub open spec fn wf(&self) -> bool {
        &&& links_in_range(self.pages())
        &&& fits_page(self.pages(), self.head_4k())
        &&& fits_superpage(self.pages(), self.head_2mb())
    }

    /// An empty, uninstalled allocator.
    pub fn new_empty() -> (r: Self)
        ensures
            r.pages() == Seq::<PageArrayElement>::empty(),
            r.head_4k() is None,
            r.head_2mb() is None,
            !r.is_initialized(),
            r.first_usable() == 0,
            r.wf(),
    {
        PhysicalAllocator {
            free_4k_head: None,
            free_2mb_head: None,
            page_array: Vec::new(),
            first_usable_page_index: 0,
            initialized: false,
        }
    }

    /// Head of the 4 KiB free list.
    pub fn free_4k_head(&self) -> (h: Option<usize>)
        ensures
            h == self.head_4k(),
    {
        self.free_4k_head
    }

    /// Head of the 2 MiB free list.
    pub fn free_2mb_head(&self) -> (h: Option<usize>)
        ensures
            h == self.head_2mb(),
    {
        self.free_2mb_head
    }

    /// Number of pages in the page array.
    pub fn page_array_len(&self) -> (n: usize)
        ensures
            n == self.pages().len(),
    {
        self.page_array.len()
    }

    /// Whether a page array has been installed.
    pub fn initialized(&self) -> (b: bool)
        ensures
            b == self.is_initialized(),
    {
        self.initialized
    }

    /// Index of the first usable page recorded at installation.
    pub fn first_usable_page_index(&self) -> (i: usize)
        ensures
            i == self.first_usable(),
    {
        self.first_usable_page_index
    }

    /// The metadata record of page `idx`.
    pub fn page_element_for_index(&self, idx: usize) -> (e: PageArrayElement)
        requires
            idx < self.pages().len(),
        ensures
            e == self.pages()[idx as int],
    {
        self.page_array[idx]
    }

    /// Physical address of page `idx`.
    pub fn phys_for_index(&self, idx: usize) -> (addr: usize)
        requires
            idx * PAGE_SIZE <= usize::MAX,
        ensures
            addr == page_address(idx as int),
    {
        idx * PAGE_SIZE
    }

    /// The page that a physical address names: `None` when the address is not
    /// page aligned or lies past the page array.
    pub fn index_for_ptr(&self, addr: usize) -> (r: Option<usize>)
        ensures
            r == page_index_of(self.pages().len(), addr),
    {
        if addr % PAGE_SIZE != 0 {
            return None;
        }
        let idx = addr / PAGE_SIZE;
        if idx < self.page_array.len() {
            Some(idx)
        } else {
            None
        }
    }

    /// Install a page array: record it and the first usable index, point the
    /// 4 KiB list head at the first `Free4K` page and the 2 MiB list head at
    /// the first `Free2MB` page whose count is a full superpage, and mark the
    /// allocator initialized.
    pub fn install_page_array(&mut self, page_array: Vec<PageArrayElement>, first_usable_page_index: usize)
        ensures
            final(self).pages() == page_array@,
            final(self).first_usable() == first_usable_page_index,
            final(self).is_initialized(),
            match final(self).head_4k() {
                Some(i) => i < page_array@.len() && page_array@[i as int].state == State::Free4K
                    && forall|j: int| 0 <= j < i ==> page_array@[j].state != State::Free4K,
                None => forall|j: int| 0 <= j < page_array@.len() ==> page_array@[j].state != State::Free4K,
            },
            match final(self).head_2mb() {
                Some(i) => i < page_array@.len() && is_superpage_head(page_array@[i as int])
                    && forall|j: int| 0 <= j < i ==> !is_superpage_head(page_array@[j]),
                None => forall|j: int| 0 <= j < page_array@.len() ==> !is_superpage_head(page_array@[j]),
            },
            links_in_range(page_array@) ==> final(self).wf(),
    {
        self.page_array = page_array;
        self.first_usable_page_index = first_usable_page_index;
        self.free_4k_head = None;
        self.free_2mb_head = None;
        let n = self.page_array.len();
        for i in 0..n
            invariant
                n == self.page_array@.len(),
                self.page_array@ == page_array@,
                self.first_usable_page_index == first_usable_page_index,
                match self.free_4k_head {
                    Some(k) => k < i && page_array@[k as int].state == State::Free4K
                        && forall|j: int| 0 <= j < k ==> page_array@[j].state != State::Free4K,
                    None => forall|j: int| 0 <= j < i ==> page_array@[j].state != State::Free4K,
                },
                match self.free_2mb_head {
                    Some(k) => k < i && is_superpage_head(page_array@[k as int])
                        && forall|j: int| 0 <= j < k ==> !is_superpage_head(page_array@[j]),
                    None => forall|j: int| 0 <= j < i ==> !is_superpage_head(page_array@[j]),
                },
        {
            let p = self.page_array[i];
            match p.state {
                State::Free4K => {
                    if self.free_4k_head.is_none() {
                        self.free_4k_head = Some(i);
                    }
                },
                State::Free2MB => {
                    if p.count == 512 && self.free_2mb_head.is_none() {
                        self.free_2mb_head = Some(i);
                    }
                },
                _ => {},
            }
        }
        self.initialized = true;
        proof {
            if let Some(k) = self.free_2mb_head {
                assert(page_array@[k as int].count == PAGES_PER_SUPERPAGE);
            }
        }
    }

    /// Overwrite the record of page `i`.
    fn put(&mut self, i: usize, e: PageArrayElement)
        requires
            i < old(self).pages().len(),
            element_fits(old(self).pages(), i as int, e),
        ensures
            final(self).pages() == old(self).pages().update(i as int, e),
            final(self).head_4k() == old(self).head_4k(),
            final(self).head_2mb() == old(self).head_2mb(),
            final(self).is_initialized() == old(self).is_initialized(),
            final(self).first_usable() == old(self).first_usable(),
            links_in_range(old(self).pages()) ==> links_in_range(final(self).pages()),
    {
        proof {
            if links_in_range(self.pages()) {
                lemma_links_in_range_update(self.pages(), i as int, e);
            }
        }
        self.page_array.set(i, e);
    }

    /// Split the free superpage starting at `head_2mb` onto the 4 KiB free list:
    /// its pages become `Free4K` pages owned by its first page (nothing happens
    /// before a page array is installed).
    fn split_2mb(&mut self, head_2mb: usize)
        requires
            old(self).wf(),
            head_2mb + PAGES_PER_SUPERPAGE <= old(self).pages().len(),
            old(self).is_initialized() ==> split_ok(old(self).pages(), head_2mb as int),
        ensures
            final(self).wf(),
            old(self).is_initialized() ==> final(self).pages() == split_block(old(self).pages(), head_2mb as int, old(self).head_4k()),
            old(self).is_initialized() ==> final(self).head_4k() == Some((head_2mb + PAGES_PER_SUPERPAGE - 1) as usize),
            !old(self).is_initialized() ==> final(self).pages() == old(self).pages() && final(self).head_4k() == old(self).head_4k(),
            final(self).head_2mb() == old(self).head_2mb(),
            final(self).is_initialized() == old(self).is_initialized(),
            final(self).first_usable() == old(self).first_usable(),
    {
        if !self.initialized {
            return;
        }
        let ghost a = self.pages();
        let ghost h0 = self.head_4k();
        let ghost a1 = match h0 {
            Some(h) => with_prev_4k(a, h as int, Some(head_2mb)),
            None => a,
        };
        let idx = head_2mb;
        for j in 0..512usize
            invariant
                self.wf(),
                self.initialized,
                idx + PAGES_PER_SUPERPAGE <= self.pages().len(),
                self.pages().len() == a.len(),
                self.head_2mb() == old(self).head_2mb(),
                self.first_usable() == old(self).first_usable(),
                split_ok(a, idx as int),
                a == old(self).pages(),
                h0 == old(self).head_4k(),
                a1 == (match h0 {
                    Some(h) => with_prev_4k(a, h as int, Some(idx)),
                    None => a,
                }),
                j == 0 ==> self.pages() == a && self.head_4k() == h0,
                j > 0 ==> self.head_4k() == Some((idx + j - 1) as usize),
                j > 0 ==> forall|i: int| #![trigger self.pages()[i]] 0 <= i < a.len() ==> self.pages()[i] == (
                    if idx <= i < idx + j {
                        PageArrayElement {
                            state: State::Free4K,
                            next_4k: if i == idx { h0 } else { Some((i - 1) as usize) },
                            prev_4k: if i == idx + j - 1 { None } else { Some((i + 1) as usize) },
                            prev_2mb: Some(idx),
                            next_2mb: None,
                            ..a1[i]
                        }
                    } else {
                        a1[i]
                    }),
        {
            let p = idx + j;
            let mut e = self.page_array[p];
            e.state = State::Free4K;
            e.prev_2mb = Some(idx);
            e.next_2mb = None;
            self.put(p, e);
            match self.free_4k_head {
                None => {
                    self.free_4k_head = Some(p);
                    let mut e = self.page_array[p];
                    e.prev_4k = None;
                    e.next_4k = None;
                    self.put(p, e);
                },
                Some(h) => {
                    let mut e = self.page_array[p];
                    e.next_4k = Some(h);
                    self.put(p, e);
                    let mut f = self.page_array[h];
                    f.prev_4k = Some(p);
                    self.put(h, f);
                    self.free_4k_head = Some(p);
                    let mut e = self.page_array[p];
                    e.prev_4k = None;
                    self.put(p, e);
                },
            }
            proof {
                let b = self.pages();
                assert forall|i: int| #![trigger b[i]] 0 <= i < a.len() implies b[i] == (
                    if idx <= i < idx + j + 1 {
                        PageArrayElement {
                            state: State::Free4K,
                            next_4k: if i == idx { h0 } else { Some((i - 1) as usize) },
                            prev_4k: if i == idx + j { None } else { Some((i + 1) as usize) },
                            prev_2mb: Some(idx),
                            next_2mb: None,
                            ..a1[i]
                        }
                    } else {
                        a1[i]
                    }) by {
                }
            }
        }
        proof {
            assert(self.pages() =~= split_block(a, idx as int, h0));
        }
    }


    /// Take the head page `h` off the 4 KiB free list and mark it `Alloc4K`;
    /// a page of a split superpage lowers its owner's count of free pages.
    fn pop_4k_head(&mut self, h: usize)
        requires
            old(self).wf(),
            old(self).head_4k() == Some(h),
            pop_4k_ok(old(self).pages(), h as int),
        ensures
            final(self).wf(),
            final(self).pages() == pop_4k(old(self).pages(), h as int),
            final(self).head_4k() == old(self).pages()[h as int].next_4k,
            final(self).head_2mb() == old(self).head_2mb(),
            final(self).is_initialized() == old(self).is_initialized(),
            final(self).first_usable() == old(self).first_usable(),
    {
        let ghost a = self.pages();
        let next = self.page_array[h].next_4k;
        if let Some(n) = next {
            let mut e = self.page_array[n];
            e.prev_4k = None;
            self.put(n, e);
        }
        self.free_4k_head = next;
        let mut e = self.page_array[h];
        e.state = State::Alloc4K;
        self.put(h, e);
        proof {
            assert(self.pages() =~= with_state(detach_prev_4k(a, a[h as int].next_4k), h as int, State::Alloc4K));
        }
        let e = self.page_array[h];
        if let Some(sp) = e.prev_2mb {
            let mut f = self.page_array[sp];
            f.count = f.count - 1;
            self.put(sp, f);
        }
    }

    /// Allocate one 4 KiB page and return its physical address; 0 when both
    /// free lists are empty, and also when the page handed out is page 0.
    /// When the 4 KiB list is empty, the superpage at the head of the 2 MiB
    /// list is split into 4 KiB pages first.
    pub fn alloc_4k(&mut self) -> (addr: usize)
        requires
            old(self).wf(),
            alloc_4k_ok(old(self).model(), old(self).is_initialized()),
        ensures
            final(self).wf(),
            (final(self).model(), addr) == alloc_4k_step(old(self).model()),
            valid(old(self).model()) ==> valid(final(self).model()),
            final(self).is_initialized() == old(self).is_initialized(),
            final(self).first_usable() == old(self).first_usable(),
    {
        proof {
            if valid(self.model()) {
                law_alloc_4k(self.model());
            }
        }
        let ghost a = self.pages();
        if self.free_4k_head.is_none() {
            if self.free_2mb_head.is_none() {
                return 0;
            }
            let old_2mb_head = self.free_2mb_head.unwrap();
            let new_2mb_head = self.page_array[old_2mb_head].next_2mb;
            self.split_2mb(old_2mb_head);
            self.free_2mb_head = new_2mb_head;
            if let Some(n) = new_2mb_head {
                let mut e = self.page_array[n];
                e.prev_2mb = None;
                self.put(n, e);
            }
            proof {
                assert(self.pages() =~= split_and_detach(a, old_2mb_head as int));
            }
        }
        let alloc_4kb_page = self.free_4k_head.unwrap();
        self.pop_4k_head(alloc_4kb_page);
        self.phys_for_index(alloc_4kb_page)
    }


    /// Allocate one 2 MiB superpage and return the physical address of its
    /// first page, or 0 when the 2 MiB list is empty. All 512 pages become
    /// `Alloc2MB` and leave the 4 KiB list.
    pub fn alloc_2mb(&mut self) -> (addr: usize)
        requires
            old(self).wf(),
            alloc_2mb_ok(old(self).model()),
        ensures
            final(self).wf(),
            (final(self).model(), addr) == alloc_2mb_step(old(self).model()),
            valid(old(self).model()) ==> valid(final(self).model()),
            final(self).is_initialized() == old(self).is_initialized(),
            final(self).first_usable() == old(self).first_usable(),
    {
        proof {
            if valid(self.model()) {
                law_alloc_2mb(self.model());
            }
        }
        if self.free_2mb_head.is_none() {
            return 0;
        }
        let ghost a = self.pages();
        let head = self.free_2mb_head.unwrap();
        let next = self.page_array[head].next_2mb;
        if let Some(n) = next {
            let mut e = self.page_array[n];
            e.prev_2mb = None;
            self.put(n, e);
        }
        self.free_2mb_head = next;
        let ghost a1 = self.pages();
        assert(a1 == detach_prev_2mb(a, a[head as int].next_2mb));
        let head_idx = head;
        let count = self.page_array[head].count as usize;
        for j in 0..count
            invariant
                self.wf(),
                count == PAGES_PER_SUPERPAGE,
                head_idx + PAGES_PER_SUPERPAGE <= a.len(),
                self.pages().len() == a.len(),
                self.head_4k() == old(self).head_4k(),
                self.head_2mb() == next,
                self.is_initialized() == old(self).is_initialized(),
                self.first_usable() == old(self).first_usable(),
                self.pages() == map_range(a1, head_idx as int, head_idx + j, |i: int, e: PageArrayElement| taken_page(e)),
        {
            let p = head_idx + j;
            let mut e = self.page_array[p];
            e.state = State::Alloc2MB;
            e.next_4k = None;
            e.prev_4k = None;
            self.put(p, e);
            proof {
                assert(self.pages() =~= map_range(
                    a1,
                    head_idx as int,
                    head_idx + j + 1,
                    |i: int, e: PageArrayElement| taken_page(e),
                ));
            }
        }
        self.phys_for_index(head_idx)
    }

    /// Push the superpage starting at `idx` onto the 2 MiB list as a free
    /// superpage: all its pages become `Free2MB` and leave the 4 KiB list.
    fn push_superpage_at(&mut self, idx: usize)
        requires
            old(self).wf(),
            idx + PAGES_PER_SUPERPAGE <= old(self).pages().len(),
        ensures
            final(self).wf(),
            final(self).pages() == push_superpage(old(self).pages(), idx as int, old(self).head_2mb()),
            final(self).head_2mb() == Some(idx),
            final(self).head_4k() == old(self).head_4k(),
            final(self).is_initialized() == old(self).is_initialized(),
            final(self).first_usable() == old(self).first_usable(),
    {
        let ghost a = self.pages();
        let ghost g0 = self.head_2mb();
        let ghost a1 = link_before_head(a, g0, idx as int);
        for j in 0..512usize
            invariant
                self.wf(),
                idx + PAGES_PER_SUPERPAGE <= a.len(),
                self.pages().len() == a.len(),
                a == old(self).pages(),
                g0 == old(self).head_2mb(),
                a1 == link_before_head(a, g0, idx as int),
                self.head_4k() == old(self).head_4k(),
                self.is_initialized() == old(self).is_initialized(),
                self.first_usable() == old(self).first_usable(),
                j == 0 ==> self.pages() == a && self.head_2mb() == g0,
                j > 0 ==> self.head_2mb() == Some(idx),
                j > 0 ==> self.pages() == map_range(
                    a1,
                    idx as int,
                    idx + j,
                    |i: int, e: PageArrayElement| pushed_page(idx as int, g0, i, e),
                ),
        {
            let p = idx + j;
            if j == 0 {
                match self.free_2mb_head {
                    Some(g) => {
                        let mut f = self.page_array[g];
                        f.prev_2mb = Some(p);
                        self.put(g, f);
                        let mut e = self.page_array[p];
                        e.next_2mb = Some(g);
                        e.prev_2mb = None;
                        self.put(p, e);
                        self.free_2mb_head = Some(p);
                    },
                    None => {
                        self.free_2mb_head = Some(p);
                        let mut e = self.page_array[p];
                        e.prev_2mb = None;
                        e.next_2mb = None;
                        self.put(p, e);
                    },
                }
                let mut e = self.page_array[p];
                e.state = State::Free2MB;
                e.count = 512;
                e.next_4k = None;
                e.prev_4k = None;
                self.put(p, e);
            } else {
                let mut e = self.page_array[p];
                e.state = State::Free2MB;
                e.next_4k = None;
                e.prev_4k = None;
                e.prev_2mb = Some(idx);
                e.next_2mb = None;
                self.put(p, e);
            }
            proof {
                assert(self.pages() =~= map_range(
                    a1,
                    idx as int,
                    idx + j + 1,
                    |i: int, e: PageArrayElement| pushed_page(idx as int, g0, i, e),
                ));
            }
        }
    }

    /// Take page `p` off the 4 KiB list: its predecessor (or the list head,
    /// when it has none) leads on to its successor, which links back to the
    /// predecessor.
    fn unlink_4k_page(&mut self, p: usize)
        requires
            old(self).wf(),
            p < old(self).pages().len(),
        ensures
            final(self).wf(),
            (final(self).pages(), final(self).head_4k()) == unlink_4k(old(self).pages(), old(self).head_4k(), p as int),
            final(self).head_2mb() == old(self).head_2mb(),
            final(self).is_initialized() == old(self).is_initialized(),
            final(self).first_usable() == old(self).first_usable(),
    {
        let ghost a = self.pages();
        let pr = self.page_array[p].prev_4k;
        let nx = self.page_array[p].next_4k;
        match pr {
            Some(q) => {
                let mut e = self.page_array[q];
                e.next_4k = nx;
                self.put(q, e);
            },
            None => {
                self.free_4k_head = nx;
            },
        }
        if let Some(m) = nx {
            let mut e = self.page_array[m];
            e.prev_4k = pr;
            self.put(m, e);
        }
    }

    /// Merge the superpage starting at `head_2mb` once freeing page `freed` has
    /// made all its pages free: its other pages leave the 4 KiB list and the
    /// whole superpage goes onto the 2 MiB list as one free superpage
    /// (nothing happens before a page array is installed).
    fn merge_2mb(&mut self, head_2mb: usize, freed: usize)
        requires
            old(self).wf(),
            head_2mb < old(self).pages().len(),
            old(self).is_initialized() ==> old(self).pages()[head_2mb as int].state == State::Free4K,
            old(self).is_initialized() ==> old(self).pages()[head_2mb as int].count == PAGES_PER_SUPERPAGE,
        ensures
            final(self).wf(),
            old(self).is_initialized() ==> final(self).model() == merge_step(old(self).model(), head_2mb as int, freed as int),
            !old(self).is_initialized() ==> final(self).model() == old(self).model(),
            final(self).is_initialized() == old(self).is_initialized(),
            final(self).first_usable() == old(self).first_usable(),
    {
        if !self.initialized {
            return;
        }
        proof {
            assert(self.pages()[head_2mb as int].count == PAGES_PER_SUPERPAGE);
        }
        let ghost a = self.pages();
        let ghost h0 = self.head_4k();
        let idx = head_2mb;
        for j in 0..512usize
            invariant
                self.wf(),
                idx + PAGES_PER_SUPERPAGE <= a.len(),
                self.pages().len() == a.len(),
                a == old(self).pages(),
                h0 == old(self).head_4k(),
                self.head_2mb() == old(self).head_2mb(),
                self.is_initialized() == old(self).is_initialized(),
                self.first_usable() == old(self).first_usable(),
                (self.pages(), self.head_4k()) == unlink_block(a, h0, idx as int, freed as int, j as nat),
        {
            let p = idx + j;
            if p != freed {
                self.unlink_4k_page(p);
            }
        }
        self.push_superpage_at(idx);
    }

    /// Inputs on which `free_2mb` is defined: on an installed allocator an
    /// address that names a page must name the first page of an allocated
    /// superpage.
    pub open spec fn free_2mb_ok(&self, pptr: usize) -> bool {
        self.is_initialized() ==> (page_index_of(self.pages().len(), pptr) matches Some(i) ==> {
            &&& self.pages()[i as int].count == PAGES_PER_SUPERPAGE
            &&& self.pages()[i as int].state == State::Alloc2MB
        })
    }

    /// Return the 2 MiB superpage whose first page has address `pptr`: it is
    /// pushed onto the 2 MiB list as a free superpage. Nothing
    /// happens before installation or when the address names no page.
    pub fn free_2mb(&mut self, pptr: usize)
        requires
            old(self).wf(),
            old(self).free_2mb_ok(pptr),
        ensures
            final(self).wf(),
            final(self).model() == (if old(self).is_initialized() {
                match page_index_of(old(self).pages().len(), pptr) {
                    Some(idx) => free_2mb_step(old(self).model(), idx as int),
                    None => old(self).model(),
                }
            } else {
                old(self).model()
            }),
            valid(old(self).model()) ==> valid(final(self).model()),
            final(self).is_initialized() == old(self).is_initialized(),
            final(self).first_usable() == old(self).first_usable(),
    {
        proof {
            if valid(self.model()) && self.is_initialized() {
                if let Some(i) = page_index_of(self.pages().len(), pptr) {
                    law_free_2mb(self.model(), i as int);
                }
            }
        }
        if !self.initialized {
            return;
        }
        let idx = match self.index_for_ptr(pptr) {
            Some(i) => i,
            None => return,
        };
        proof {
            assert(self.pages()[idx as int].count == PAGES_PER_SUPERPAGE);
        }
        self.push_superpage_at(idx);
    }

    /// Inputs on which `free_4k` is defined: on an installed allocator an
    /// address that names a page must name an allocated small page whose
    /// owner's count does not overflow and whose owner, if it merges, is `Free4K`.
    pub open spec fn free_4k_ok(&self, pptr: usize) -> bool {
        self.is_initialized() ==> (page_index_of(self.pages().len(), pptr) matches Some(i) ==> free_4k_ok(
            self.pages(),
            i as int,
        ))
    }

    /// Return the 4 KiB page at address `pptr`: it becomes `Free4K` and its
    /// owning superpage's count of free pages rises. When that makes the whole
    /// superpage free, the superpage merges back onto the 2 MiB list; otherwise
    /// the page is pushed onto the 4 KiB list. Nothing happens before
    /// installation or when the address names no page.
    pub fn free_4k(&mut self, pptr: usize)
        requires
            old(self).wf(),
            old(self).free_4k_ok(pptr),
        ensures
            final(self).wf(),
            final(self).model() == (if old(self).is_initialized() {
                match page_index_of(old(self).pages().len(), pptr) {
                    Some(idx) => free_4k_step(old(self).model(), idx as int),
                    None => old(self).model(),
                }
            } else {
                old(self).model()
            }),
            valid(old(self).model()) ==> valid(final(self).model()),
            final(self).is_initialized() == old(self).is_initialized(),
            final(self).first_usable() == old(self).first_usable(),
    {
        proof {
            if valid(self.model()) && self.is_initialized() {
                if let Some(i) = page_index_of(self.pages().len(), pptr) {
                    law_free_4k(self.model(), i as int);
                }
            }
        }
        if !self.initialized {
            return;
        }
        let idx = match self.index_for_ptr(pptr) {
            Some(i) => i,
            None => return,
        };
        let ghost a = self.pages();
        let mut e = self.page_array[idx];
        e.state = State::Free4K;
        self.put(idx, e);
        let e = self.page_array[idx];
        if let Some(sp) = e.prev_2mb {
            let mut f = self.page_array[sp];
            f.count = f.count + 1;
            self.put(sp, f);
            proof {
                assert(self.pages() =~= release_4k(a, idx as int));
            }
            if self.page_array[sp].count == 512 {
                self.merge_2mb(sp, idx);
                return;
            }
        } else {
            proof {
                assert(self.pages() =~= release_4k(a, idx as int));
            }
        }
        let mut e = self.page_array[idx];
        e.prev_4k = None;
        e.next_4k = self.free_4k_head;
        self.put(idx, e);
        if let Some(h) = self.free_4k_head {
            let mut f = self.page_array[h];
            f.prev_4k = Some(idx);
            self.put(h, f);
        }
        self.free_4k_head = Some(idx);
        proof {
            assert(self.pages() =~= free_4k_step(old(self).model(), idx as int).pages);
        }
    }


    /// Allocate memory for a request of `size` bytes aligned to `align` and
    /// return its physical address, or 0. A request that fits a 4 KiB page and
    /// needs at most page alignment gets a 4 KiB page. A larger request, or one
    /// that needs more than page alignment, of at most 2 MiB and at most 2 MiB
    /// alignment gets a 2 MiB superpage, provided the superpage at the head of
    /// the 2 MiB list is aligned to `align`. Any other request gets 0.
    pub fn allocate(&mut self, size: usize, align: usize) -> (addr: usize)
        requires
            old(self).wf(),
            wants_small(size, align) ==> alloc_4k_ok(old(self).model(), old(self).is_initialized()),
            wants_large(size, align) ==> alloc_2mb_ok(old(self).model()),
        ensures
            final(self).wf(),
            final(self).is_initialized() == old(self).is_initialized(),
            final(self).first_usable() == old(self).first_usable(),
            (final(self).model(), addr) == allocate_step(old(self).model(), size, align),
            valid(old(self).model()) ==> valid(final(self).model()),
    {
        proof {
            if valid(self.model()) {
                law_allocate(self.model(), size, align);
            }
        }
        if size == 0 || size > 2 * 1024 * 1024 || align > 2 * 1024 * 1024 {
            return 0;
        }
        if size <= 4096 && align <= 4096 {
            return self.alloc_4k();
        }
        if let Some(h) = self.free_2mb_head {
            if align != 0 && (h * 4096) % align != 0 {
                return 0;
            }
        }
        self.alloc_2mb()
    }

    /// Inputs on which `dealloc` is defined: a non-null address that names a
    /// page in state `Alloc4K` or `Alloc2MB` must satisfy the precondition of
    /// `free_4k` or `free_2mb` respectively.
    pub open spec fn dealloc_ok(&self, ptr: usize) -> bool {
        ptr != 0 ==> (page_index_of(self.pages().len(), ptr) matches Some(i) ==> {
            &&& self.pages()[i as int].state == State::Alloc4K ==> self.free_4k_ok(ptr)
            &&& self.pages()[i as int].state == State::Alloc2MB ==> self.free_2mb_ok(ptr)
        })
    }

    /// Return memory at address `ptr`. The null address and addresses that
    /// name no page are ignored; a page in state `Alloc4K` is returned with
    /// `free_4k`, one in state `Alloc2MB` with `free_2mb`; a page in any other
    /// state (a double or invalid free) is ignored.
    pub fn dealloc(&mut self, ptr: usize)
        requires
            old(self).wf(),
            old(self).dealloc_ok(ptr),
        ensures
            final(self).wf(),
            final(self).is_initialized() == old(self).is_initialized(),
            final(self).first_usable() == old(self).first_usable(),
            final(self).model() == dealloc_step(old(self).model(), old(self).is_initialized(), ptr),
            valid(old(self).model()) ==> valid(final(self).model()),
    {
        proof {
            if valid(self.model()) {
                law_dealloc(self.model(), self.is_initialized(), ptr);
            }
        }
        if ptr == 0 {
            return;
        }
        match self.index_for_ptr(ptr) {
            Some(idx) => {
                let st = self.page_array[idx].state;
                match st {
                    State::Alloc4K => self.free_4k(ptr),
                    State::Alloc2MB => self.free_2mb(ptr),
                    _ => {},
                }
            },
            None => {},
        }
    }

}

/// A free superpage head: state `Free2MB` with a full count.
pub open spec fn is_superpage_head(e: PageArrayElement) -> bool {
    e.state == State::Free2MB && e.count == PAGES_PER_SUPERPAGE
}

} // verus!
