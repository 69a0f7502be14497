//! Abstract model of the allocator: its page array and list heads, and the
//! effect of each operation on them, stated as updates of the page array.
use vstd::prelude::*;
use crate::page::{
    PageArrayElement, State, PAGE_SIZE, PAGES_PER_SUPERPAGE, SUPERPAGE_SIZE, page_index_of, with_count, with_next_4k,
    with_prev_2mb, with_prev_4k, with_state,
};

verus! {

/// The allocator's state as a mathematical value.
pub struct AllocState {
    /// The page array.
    pub pages: Seq<PageArrayElement>,
    /// Head of the 4 KiB free list.
    pub head_4k: Option<usize>,
    /// Head of the 2 MiB free list.
    pub head_2mb: Option<usize>,
}

/// `a` with every page `i` of `lo..hi` replaced by `f(i, a[i])`.
pub open spec fn map_range(
    a: Seq<PageArrayElement>,
    lo: int,
    hi: int,
    f: spec_fn(int, PageArrayElement) -> PageArrayElement,
) -> Seq<PageArrayElement> {
    Seq::new(a.len(), |i: int| if lo <= i < hi { f(i, a[i]) } else { a[i] })
}

/// Clear the 2 MiB back link of `n`, the page that becomes the 2 MiB list head.
pub open spec fn detach_prev_2mb(a: Seq<PageArrayElement>, n: Option<usize>) -> Seq<PageArrayElement> {
    match n {
        Some(m) => with_prev_2mb(a, m as int, None),
        None => a,
    }
}

/// Clear the 4 KiB back link of `n`, the page that becomes the 4 KiB list head.
pub open spec fn detach_prev_4k(a: Seq<PageArrayElement>, n: Option<usize>) -> Seq<PageArrayElement> {
    match n {
        Some(m) => with_prev_4k(a, m as int, None),
        None => a,
    }
}

/// Whether page `h` belongs to a split superpage, whose first page it names
/// as owner; a single page names no owner.
pub open spec fn charged_to_owner(e: PageArrayElement) -> bool {
    e.prev_2mb is Some
}

/// Pages after popping `h`, the head of the 4 KiB list: the next page loses
/// its back link, `h` becomes `Alloc4K`, and when `h` belongs to a split
/// superpage the owner's count of free pages drops by one.
pub open spec fn pop_4k(a: Seq<PageArrayElement>, h: int) -> Seq<PageArrayElement> {
    let a2 = with_state(detach_prev_4k(a, a[h].next_4k), h, State::Alloc4K);
    if charged_to_owner(a2[h]) {
        let s = a2[h].prev_2mb.unwrap() as int;
        with_count(a2, s, (a2[s].count - 1) as i32)
    } else {
        a2
    }
}

/// Popping `h` leaves the owner's count in range.
pub open spec fn pop_4k_ok(a: Seq<PageArrayElement>, h: int) -> bool {
    let a2 = with_state(detach_prev_4k(a, a[h].next_4k), h, State::Alloc4K);
    charged_to_owner(a2[h]) ==> a2[a2[h].prev_2mb.unwrap() as int].count > i32::MIN
}

/// Record of page `i` of the superpage at `idx` once the superpage is split
/// onto the 4 KiB list whose head was `head`: `Free4K`, owned by `idx`, off
/// the 2 MiB list, and linked so that the list runs from `idx + 511` down to
/// `idx` and then on to `head`.
pub open spec fn split_page(idx: int, head: Option<usize>, i: int, e: PageArrayElement) -> PageArrayElement {
    PageArrayElement {
        state: State::Free4K,
        next_4k: if i == idx { head } else { Some((i - 1) as usize) },
        prev_4k: if i == idx + PAGES_PER_SUPERPAGE - 1 { None } else { Some((i + 1) as usize) },
        prev_2mb: Some(idx as usize),
        next_2mb: None,
        ..e
    }
}

/// Pages after splitting the superpage at `idx` onto the 4 KiB list whose head
/// was `head` (see `split_page`); the old head gets the block's first page as
/// its back link.
pub open spec fn split_block(a: Seq<PageArrayElement>, idx: int, head: Option<usize>) -> Seq<PageArrayElement> {
    let a1 = match head {
        Some(h) => with_prev_4k(a, h as int, Some(idx as usize)),
        None => a,
    };
    map_range(a1, idx, idx + PAGES_PER_SUPERPAGE, |i: int, e: PageArrayElement| split_page(idx, head, i, e))
}

/// Record of page `i` of the superpage at `idx` once the superpage is pushed as
/// a free superpage onto the 2 MiB list whose head was `head`: every page is
/// `Free2MB` and off the 4 KiB list; the first page has a full count, links
/// forward to `head` and has no back link; the other pages name it as owner.
pub open spec fn pushed_page(idx: int, head: Option<usize>, i: int, e: PageArrayElement) -> PageArrayElement {
    if i == idx {
        PageArrayElement {
            state: State::Free2MB,
            count: PAGES_PER_SUPERPAGE as i32,
            next_4k: None,
            prev_4k: None,
            next_2mb: head,
            prev_2mb: None,
        }
    } else {
        PageArrayElement {
            state: State::Free2MB,
            next_4k: None,
            prev_4k: None,
            next_2mb: None,
            prev_2mb: Some(idx as usize),
            ..e
        }
    }
}

/// The old 2 MiB list head, if any, gets `idx` as its back link.
pub open spec fn link_before_head(a: Seq<PageArrayElement>, head: Option<usize>, idx: int) -> Seq<PageArrayElement> {
    match head {
        Some(g) => with_prev_2mb(a, g as int, Some(idx as usize)),
        None => a,
    }
}

/// Pages after pushing the superpage at `idx` onto the 2 MiB list whose head
/// was `head` (see `pushed_page`).
pub open spec fn push_superpage(a: Seq<PageArrayElement>, idx: int, head: Option<usize>) -> Seq<PageArrayElement> {
    map_range(
        link_before_head(a, head, idx),
        idx,
        idx + PAGES_PER_SUPERPAGE,
        |i: int, e: PageArrayElement| pushed_page(idx, head, i, e),
    )
}

/// Record of a page of a superpage being handed out whole: state `Alloc2MB`
/// and off the 4 KiB list.
pub open spec fn taken_page(e: PageArrayElement) -> PageArrayElement {
    PageArrayElement { state: State::Alloc2MB, next_4k: None, prev_4k: None, ..e }
}

/// Preconditions of splitting the superpage at the 2 MiB list head `g`: it is a
/// free superpage with a full count.
pub open spec fn split_ok(a: Seq<PageArrayElement>, g: int) -> bool {
    &&& a[g].state == State::Free2MB
    &&& a[g].count == PAGES_PER_SUPERPAGE
}

/// Pages before the final pop of `alloc_4k` when the 4 KiB list is empty and the
/// superpage `g` heads the 2 MiB list: `g` is split and its successor on the
/// 2 MiB list becomes head.
pub open spec fn split_and_detach(a: Seq<PageArrayElement>, g: int) -> Seq<PageArrayElement> {
    detach_prev_2mb(split_block(a, g, None), a[g].next_2mb)
}

/// Effect of `alloc_4k`: the new state and the returned address (0 when out of memory).
pub open spec fn alloc_4k_step(s: AllocState) -> (AllocState, usize) {
    match s.head_4k {
        Some(h) => (
            AllocState { pages: pop_4k(s.pages, h as int), head_4k: s.pages[h as int].next_4k, head_2mb: s.head_2mb },
            (h * PAGE_SIZE) as usize,
        ),
        None => match s.head_2mb {
            None => (s, 0usize),
            Some(g) => {
                let a2 = split_and_detach(s.pages, g as int);
                let h = g + PAGES_PER_SUPERPAGE - 1;
                (
                    AllocState { pages: pop_4k(a2, h), head_4k: a2[h].next_4k, head_2mb: s.pages[g as int].next_2mb },
                    (h * PAGE_SIZE) as usize,
                )
            },
        },
    }
}

/// Inputs on which `alloc_4k` is defined: popping does not overflow a count and
/// a superpage that must be split is a full free superpage of an installed array.
pub open spec fn alloc_4k_ok(s: AllocState, initialized: bool) -> bool {
    match s.head_4k {
        Some(h) => pop_4k_ok(s.pages, h as int),
        None => match s.head_2mb {
            None => true,
            Some(g) => initialized && split_ok(s.pages, g as int)
                && pop_4k_ok(split_and_detach(s.pages, g as int), g + PAGES_PER_SUPERPAGE - 1),
        },
    }
}

/// Effect of `alloc_2mb`: the superpage at the 2 MiB list head leaves the list
/// and its 512 pages become `Alloc2MB` and leave the 4 KiB list.
pub open spec fn alloc_2mb_step(s: AllocState) -> (AllocState, usize) {
    match s.head_2mb {
        None => (s, 0usize),
        Some(h) => {
            let a1 = detach_prev_2mb(s.pages, s.pages[h as int].next_2mb);
            let a2 = map_range(a1, h as int, h + PAGES_PER_SUPERPAGE, |i: int, e: PageArrayElement| taken_page(e));
            (AllocState { pages: a2, head_4k: s.head_4k, head_2mb: s.pages[h as int].next_2mb }, (h * PAGE_SIZE) as usize)
        },
    }
}

/// Inputs on which `alloc_2mb` is defined: the head superpage has a full count.
pub open spec fn alloc_2mb_ok(s: AllocState) -> bool {
    s.head_2mb matches Some(h) ==> s.pages[h as int].count == PAGES_PER_SUPERPAGE
}

/// Array and 4 KiB list head after page `p` is unlinked from the 4 KiB list
/// whose head is `head`: its predecessor (or the head, when it has none) now
/// leads to its successor, and its successor links back to its predecessor.
pub open spec fn unlink_4k(a: Seq<PageArrayElement>, head: Option<usize>, p: int) -> (Seq<PageArrayElement>, Option<usize>) {
    let pr = a[p].prev_4k;
    let nx = a[p].next_4k;
    let (a1, head1) = match pr {
        Some(q) => (with_next_4k(a, q as int, nx), head),
        None => (a, nx),
    };
    let a2 = match nx {
        Some(m) => with_prev_4k(a1, m as int, pr),
        None => a1,
    };
    (a2, head1)
}

/// Array and 4 KiB list head after the first `n` pages of the superpage at `sp`,
/// except `freed`, are unlinked from the 4 KiB list in address order.
pub open spec fn unlink_block(
    a: Seq<PageArrayElement>,
    head: Option<usize>,
    sp: int,
    freed: int,
    n: nat,
) -> (Seq<PageArrayElement>, Option<usize>)
    decreases n,
{
    if n == 0 {
        (a, head)
    } else {
        let (b, h) = unlink_block(a, head, sp, freed, (n - 1) as nat);
        let p = sp + n - 1;
        if p == freed {
            (b, h)
        } else {
            unlink_4k(b, h, p)
        }
    }
}

/// Effect of merging the superpage whose first page is `sp` once page `freed`
/// completes it: its other pages leave the 4 KiB list, and the whole
/// superpage becomes a free superpage at the head of the 2 MiB list.
pub open spec fn merge_step(s: AllocState, sp: int, freed: int) -> AllocState {
    let (a1, h4) = unlink_block(s.pages, s.head_4k, sp, freed, PAGES_PER_SUPERPAGE as nat);
    AllocState { pages: push_superpage(a1, sp, s.head_2mb), head_4k: h4, head_2mb: Some(sp as usize) }
}

/// Effect of returning the superpage at page `idx`: it is pushed onto the 2 MiB
/// list as a free superpage.
pub open spec fn free_2mb_step(s: AllocState, idx: int) -> AllocState {
    AllocState { pages: push_superpage(s.pages, idx, s.head_2mb), head_4k: s.head_4k, head_2mb: Some(idx as usize) }
}

/// Pages after page `idx` is marked `Free4K` and, when it belongs to a split
/// superpage, the owner's count of free pages rises by one.
pub open spec fn release_4k(a: Seq<PageArrayElement>, idx: int) -> Seq<PageArrayElement> {
    let a1 = with_state(a, idx, State::Free4K);
    if charged_to_owner(a1[idx]) {
        let s = a1[idx].prev_2mb.unwrap() as int;
        with_count(a1, s, (a1[s].count + 1) as i32)
    } else {
        a1
    }
}

/// Whether freeing page `idx` makes all pages of its superpage free, so that
/// the superpage merges.
pub open spec fn release_merges(a: Seq<PageArrayElement>, idx: int) -> bool {
    let a2 = release_4k(a, idx);
    charged_to_owner(a[idx]) && a2[a[idx].prev_2mb.unwrap() as int].count == PAGES_PER_SUPERPAGE
}

/// Effect of returning the small page `idx`: it becomes `Free4K` and its
/// owner's count rises; when that completes the owner, the superpage merges,
/// otherwise the page is pushed onto the 4 KiB list.
pub open spec fn free_4k_step(s: AllocState, idx: int) -> AllocState {
    let a2 = release_4k(s.pages, idx);
    if release_merges(s.pages, idx) {
        merge_step(
            AllocState { pages: a2, head_4k: s.head_4k, head_2mb: s.head_2mb },
            s.pages[idx].prev_2mb.unwrap() as int,
            idx,
        )
    } else {
        let a5 = with_next_4k(with_prev_4k(a2, idx, None), idx, s.head_4k);
        let a6 = match s.head_4k {
            Some(h) => with_prev_4k(a5, h as int, Some(idx as usize)),
            None => a5,
        };
        AllocState { pages: a6, head_4k: Some(idx as usize), head_2mb: s.head_2mb }
    }
}

/// Inputs on which returning small page `idx` is defined: the page is
/// `Alloc4K`, its owner's count does not overflow, and an owner that merges is
/// in state `Free4K`.
pub open spec fn free_4k_ok(a: Seq<PageArrayElement>, idx: int) -> bool {
    let a1 = with_state(a, idx, State::Free4K);
    &&& a[idx].state == State::Alloc4K
    &&& charged_to_owner(a[idx]) ==> a1[a[idx].prev_2mb.unwrap() as int].count < i32::MAX
    &&& release_merges(a, idx) ==> release_4k(a, idx)[a[idx].prev_2mb.unwrap() as int].state == State::Free4K
}

/// Whether a request for `size` bytes aligned to `align` is served from the
/// 4 KiB list: it is non-empty, fits a page and needs no more than page alignment.
pub open spec fn wants_small(size: usize, align: usize) -> bool {
    0 < size <= PAGE_SIZE && align <= PAGE_SIZE
}

/// Whether a request for `size` bytes aligned to `align` is served from the
/// 2 MiB list: it is non-empty, fits a superpage, needs no more than superpage
/// alignment, and does not fit the small path.
pub open spec fn wants_large(size: usize, align: usize) -> bool {
    0 < size <= SUPERPAGE_SIZE && align <= SUPERPAGE_SIZE && !wants_small(size, align)
}

/// Effect of a request for `size` bytes aligned to `align`: `alloc_4k` for a
/// small request; for a large one `alloc_2mb`, unless the superpage it would
/// hand out is not aligned to `align`; otherwise nothing, and address 0.
pub open spec fn allocate_step(s: AllocState, size: usize, align: usize) -> (AllocState, usize) {
    if wants_small(size, align) {
        alloc_4k_step(s)
    } else if wants_large(size, align) {
        match s.head_2mb {
            Some(h) => if align == 0 || (h * PAGE_SIZE) % (align as int) == 0 {
                alloc_2mb_step(s)
            } else {
                (s, 0usize)
            },
            None => alloc_2mb_step(s),
        }
    } else {
        (s, 0usize)
    }
}

/// Effect of returning the memory at address `ptr`: nothing for the null
/// address, before installation, for an address that names no page, or for a
/// page that is neither `Alloc4K` nor `Alloc2MB`; otherwise the page (or the
/// superpage it starts) is freed.
pub open spec fn dealloc_step(s: AllocState, initialized: bool, ptr: usize) -> AllocState {
    if ptr == 0 || !initialized {
        s
    } else {
        match page_index_of(s.pages.len(), ptr) {
            Some(idx) => if s.pages[idx as int].state == State::Alloc4K {
                free_4k_step(s, idx as int)
            } else if s.pages[idx as int].state == State::Alloc2MB {
                free_2mb_step(s, idx as int)
            } else {
                s
            },
            None => s,
        }
    }
}

} // verus!
