//! Page metadata records.
use vstd::prelude::*;

verus! {

/// Size in bytes of one small page.
pub const PAGE_SIZE: usize = 4096;

/// Number of small pages in one superpage.
pub const PAGES_PER_SUPERPAGE: usize = 512;

/// Size in bytes of one superpage.
pub const SUPERPAGE_SIZE: usize = 2 * 1024 * 1024;

/// Lifecycle state of one physical page.
#[derive(Clone, Copy, Debug, PartialEq, Eq, Structural)]
pub enum State {
    Unavail,
    Free4K,
    Alloc4K,
    Free2MB,
    Alloc2MB,
}

/// Metadata of one physical page.
///
/// Link fields hold page indices; `None` is the null link.
#[derive(Clone, Copy, Debug, PartialEq, Eq, Structural)]
pub struct PageArrayElement {
    /// Next page on the 4 KiB free list.
    pub next_4k: Option<usize>,
    /// Previous page on the 4 KiB free list.
    pub prev_4k: Option<usize>,
    /// Next superpage head on the 2 MiB free list.
    pub next_2mb: Option<usize>,
    /// On a superpage head: the previous head on the 2 MiB free list.
    /// On a subpage: the head of the superpage that owns it.
    pub prev_2mb: Option<usize>,
    /// Lifecycle state.
    pub state: State,
    /// On a superpage head: bookkeeping count of its small pages.
    pub count: i32,
}

impl PageArrayElement {
    /// A record with no links, state `Unavail` and count zero.
    pub open spec fn spec_blank() -> PageArrayElement {
        PageArrayElement {
            next_4k: None,
            prev_4k: None,
            next_2mb: None,
            prev_2mb: None,
            state: State::Unavail,
            count: 0,
        }
    }

    /// A record with no links, state `Unavail` and count zero.
    pub fn blank() -> (e: PageArrayElement)
        ensures
            e == Self::spec_blank(),
    {
        PageArrayElement {
            next_4k: None,
            prev_4k: None,
            next_2mb: None,
            prev_2mb: None,
            state: State::Unavail,
            count: 0,
        }
    }
}

/// Physical address of page `i`: pages are identity mapped from address zero.
pub open spec fn page_address(i: int) -> int {
    i * PAGE_SIZE
}

/// The page index that a physical address names in an array of `len` pages,
/// if it is page aligned and inside the array.
pub open spec fn page_index_of(len: nat, addr: usize) -> Option<usize> {
    if addr % PAGE_SIZE != 0 {
        None
    } else if addr / PAGE_SIZE < len {
        Some((addr / PAGE_SIZE) as usize)
    } else {
        None
    }
}

/// `a` with the `next_4k` link of page `i` replaced by `v`.
pub open spec fn with_next_4k(a: Seq<PageArrayElement>, i: int, v: Option<usize>) -> Seq<PageArrayElement> {
    a.update(i, PageArrayElement { next_4k: v, ..a[i] })
}

/// `a` with the `prev_4k` link of page `i` replaced by `v`.
pub open spec fn with_prev_4k(a: Seq<PageArrayElement>, i: int, v: Option<usize>) -> Seq<PageArrayElement> {
    a.update(i, PageArrayElement { prev_4k: v, ..a[i] })
}

/// `a` with the `prev_2mb` link of page `i` replaced by `v`.
pub open spec fn with_prev_2mb(a: Seq<PageArrayElement>, i: int, v: Option<usize>) -> Seq<PageArrayElement> {
    a.update(i, PageArrayElement { prev_2mb: v, ..a[i] })
}

/// `a` with the state of page `i` replaced by `st`.
pub open spec fn with_state(a: Seq<PageArrayElement>, i: int, st: State) -> Seq<PageArrayElement> {
    a.update(i, PageArrayElement { state: st, ..a[i] })
}

/// `a` with the count of page `i` replaced by `c`.
pub open spec fn with_count(a: Seq<PageArrayElement>, i: int, c: i32) -> Seq<PageArrayElement> {
    a.update(i, PageArrayElement { count: c, ..a[i] })
}

} // verus!
