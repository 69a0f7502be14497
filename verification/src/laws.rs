//! Laws of the allocator over its model: every operation keeps the central
//! invariant (`valid`), hands out only pages that were free, and leaves every
//! handed-out page it does not return in its state; so live allocations never
//! overlap. Round trips and reuse order follow.
use vstd::prelude::*;
use crate::page::{PageArrayElement, State, PAGE_SIZE, PAGES_PER_SUPERPAGE};
use crate::model::{
    AllocState, alloc_4k_step, alloc_4k_ok, alloc_2mb_step, alloc_2mb_ok, free_2mb_step, free_4k_step, free_4k_ok,
    release_merges, allocate_step, wants_small, wants_large, dealloc_step, split_and_detach, pop_4k, release_4k,
    push_superpage,
};
use crate::shape::{
    shaped, valid, lemma_pop_4k_shaped, lemma_split_shaped, lemma_alloc_2mb_shaped, lemma_free_2mb_shaped,
    lemma_free_4k_push_shaped, lemma_free_4k_merge_shaped, lemma_alloc2mb_head, split_list,
};
use crate::allocator::addressable;
use crate::page::{page_address, page_index_of};

verus! {

/// Turning a page index into its physical address and back gives the page
/// index again.
pub proof fn law_address_round_trip(len: nat, i: int)
    requires
        addressable(len),
        0 <= i < len,
    ensures
        page_index_of(len, page_address(i) as usize) == Some(i as usize),
{
    lemma_address_index(i, len as int);
}

/// An address that names a page is the physical address of that page.
pub proof fn law_index_names_address(len: nat, addr: usize)
    requires
        page_index_of(len, addr) is Some,
    ensures
        page_address(page_index_of(len, addr).unwrap() as int) == addr,
        page_index_of(len, addr).unwrap() < len,
        addr % PAGE_SIZE == 0,
{
    assert(addr == 4096 * (addr / 4096) + addr % 4096) by (nonlinear_arith);
}

/// Whether a page is handed out, as a small page or as part of a superpage.
pub open spec fn handed_out(e: PageArrayElement) -> bool {
    e.state == State::Alloc4K || e.state == State::Alloc2MB
}

/// Whether a page is free, as a small page or as part of a superpage.
pub open spec fn is_free(e: PageArrayElement) -> bool {
    e.state == State::Free4K || e.state == State::Free2MB
}

/// Every page handed out in `a`, except those of `lo..hi`, is still handed
/// out in `b`, in the same state, and a page of a superpage handed out whole
/// keeps its count.
pub open spec fn keeps_handed_out(a: Seq<PageArrayElement>, b: Seq<PageArrayElement>, lo: int, hi: int) -> bool {
    &&& b.len() == a.len()
    &&& forall|x: int| 0 <= x < a.len() && !(lo <= x < hi) && handed_out(#[trigger] a[x]) ==> {
        &&& b[x].state == a[x].state
        &&& (a[x].state == State::Alloc2MB ==> b[x].count == a[x].count)
    }
}

proof fn lemma_address_index(h: int, len: int)
    requires
        0 <= h < len,
        addressable(len as nat),
    ensures
        h * PAGE_SIZE + PAGE_SIZE <= usize::MAX + 1,
        ((h * PAGE_SIZE) as usize) as int == h * PAGE_SIZE,
        ((h * PAGE_SIZE) as usize) / PAGE_SIZE == h,
        ((h * PAGE_SIZE) as usize) % PAGE_SIZE == 0,
{
    assert(h * 4096 + 4096 <= len * 4096) by (nonlinear_arith)
        requires
            0 <= h < len,
    ;
}

/// Taking page `h` off the 4 KiB list changes no count but its owner's.
proof fn lemma_pop_counts(a: Seq<PageArrayElement>, h: int)
    requires
        0 <= h < a.len(),
        a[h].next_4k matches Some(m) ==> m < a.len(),
        a[h].prev_2mb matches Some(o) ==> o < a.len() && a[o as int].state != State::Alloc2MB,
    ensures
        forall|x: int| 0 <= x < a.len() && (#[trigger] a[x]).state == State::Alloc2MB ==> pop_4k(a, h)[x].count == a[x].count,
{
}

/// Returning page `i` changes no count but its owner's.
proof fn lemma_release_counts(a: Seq<PageArrayElement>, i: int)
    requires
        0 <= i < a.len(),
        a[i].prev_2mb matches Some(o) ==> o < a.len() && a[o as int].state != State::Alloc2MB,
    ensures
        forall|x: int| 0 <= x < a.len() && (#[trigger] a[x]).state == State::Alloc2MB ==> release_4k(a, i)[x].count == a[x].count,
{
}

/// The owner of a small page is a split superpage, never one handed out whole.
proof fn lemma_owner_is_split(s: AllocState, l4: Seq<usize>, l2: Seq<usize>, own: Seq<Option<usize>>, h: int)
    requires
        shaped(s, l4, l2, own),
        0 <= h < s.pages.len(),
        s.pages[h].state == State::Free4K || s.pages[h].state == State::Alloc4K,
    ensures
        s.pages[h].prev_2mb matches Some(o) ==> {
            &&& own[h] == Some(o)
            &&& s.pages[o as int].state != State::Alloc2MB
            &&& s.pages[o as int].state != State::Free2MB
        },
{
    let a = s.pages;
    if let Some(o) = a[h].prev_2mb {
        assert(own[h] is Some) by {
            if own[h] is None {
                assert(crate::shape::single_page_ok(a[h]));
            }
        }
        let g = own[h].unwrap() as int;
        assert(crate::shape::block_page_ok(a, g, h));
    }
}

/// Splitting the superpage at `g` changes no count outside it.
proof fn lemma_split_counts(a: Seq<PageArrayElement>, g: int)
    requires
        0 <= g,
        g + PAGES_PER_SUPERPAGE <= a.len(),
        a[g].next_2mb matches Some(n) ==> n < a.len(),
    ensures
        split_and_detach(a, g).len() == a.len(),
        forall|x: int| 0 <= x < a.len() && !(g <= x < g + PAGES_PER_SUPERPAGE) ==> (#[trigger] split_and_detach(a, g)[x]).count == a[x].count,
{
}

/// `alloc_4k` on a valid allocator is defined, keeps the allocator valid,
/// and, when either list is non-empty, hands out a page that was free and is
/// now `Alloc4K`; every page handed out before keeps its state.
pub proof fn law_alloc_4k(s: AllocState)
    requires
        valid(s),
    ensures
        alloc_4k_ok(s, true),
        valid(alloc_4k_step(s).0),
        keeps_handed_out(s.pages, alloc_4k_step(s).0.pages, 0, 0),
        s.head_4k is Some || s.head_2mb is Some ==> {
            let r = alloc_4k_step(s).1;
            let i = r / PAGE_SIZE;
            &&& r % PAGE_SIZE == 0
            &&& i < s.pages.len()
            &&& is_free(s.pages[i as int])
            &&& alloc_4k_step(s).0.pages[i as int].state == State::Alloc4K
        },
        s.head_4k is None && s.head_2mb is None ==> alloc_4k_step(s) == (s, 0usize),
        s.head_4k matches Some(h) ==> alloc_4k_step(s).1 / PAGE_SIZE == h && alloc_4k_step(s).1 % PAGE_SIZE == 0,
        s.head_4k is None && s.head_2mb is Some ==> alloc_4k_step(s).1 / PAGE_SIZE == s.head_2mb.unwrap() + PAGES_PER_SUPERPAGE
            - 1,
{
    let (l4, l2, own) = choose|l4: Seq<usize>, l2: Seq<usize>, own: Seq<Option<usize>>| shaped(s, l4, l2, own);
    let t = alloc_4k_step(s).0;
    match s.head_4k {
        Some(h) => {
            lemma_pop_4k_shaped(s, l4, l2, own);
            assert(shaped(t, l4.drop_first(), l2, own));
            lemma_address_index(h as int, s.pages.len() as int);
            lemma_owner_is_split(s, l4, l2, own, h as int);
            lemma_pop_counts(s.pages, h as int);
        },
        None => {
            if let Some(g) = s.head_2mb {
                lemma_split_shaped(s, l4, l2, own);
                let m = AllocState {
                    pages: split_and_detach(s.pages, g as int),
                    head_4k: Some((g + PAGES_PER_SUPERPAGE - 1) as usize),
                    head_2mb: s.pages[g as int].next_2mb,
                };
                let ml4 = split_list(g as int);
                let ml2 = l2.drop_first();
                lemma_pop_4k_shaped(m, ml4, ml2, own);
                let h = g + PAGES_PER_SUPERPAGE - 1;
                assert(t == AllocState {
                    pages: pop_4k(m.pages, h),
                    head_4k: m.pages[h].next_4k,
                    head_2mb: m.head_2mb,
                });
                assert(shaped(t, ml4.drop_first(), ml2, own));
                assert(s.pages[g + (PAGES_PER_SUPERPAGE - 1)].state == State::Free2MB);
                lemma_address_index(h, s.pages.len() as int);
                lemma_split_counts(s.pages, g as int);
                assert(m.pages[g + (PAGES_PER_SUPERPAGE - 1)].state == State::Free4K);
                lemma_owner_is_split(m, ml4, ml2, own, h);
                lemma_pop_counts(m.pages, h);
                assert forall|x: int| 0 <= x < s.pages.len() && handed_out(#[trigger] s.pages[x]) implies {
                    &&& t.pages[x].state == s.pages[x].state
                    &&& (s.pages[x].state == State::Alloc2MB ==> t.pages[x].count == s.pages[x].count)
                } by {
                    if g <= x < g + PAGES_PER_SUPERPAGE {
                        assert(s.pages[g + (x - g)].state == State::Free2MB);
                    } else {
                        assert(m.pages[x].state == s.pages[x].state);
                    }
                }
            } else {
                assert(shaped(t, l4, l2, own));
            }
        },
    }
}

/// `alloc_2mb` on a valid allocator is defined, keeps it valid and, when the
/// 2 MiB list is non-empty, hands out the 512 pages of its head superpage,
/// which were `Free2MB` and are now `Alloc2MB`; no other page changes state.
pub proof fn law_alloc_2mb(s: AllocState)
    requires
        valid(s),
    ensures
        alloc_2mb_ok(s),
        valid(alloc_2mb_step(s).0),
        keeps_handed_out(s.pages, alloc_2mb_step(s).0.pages, 0, 0),
        s.head_2mb matches Some(g) ==> {
            let r = alloc_2mb_step(s).1;
            &&& r % PAGE_SIZE == 0
            &&& r / PAGE_SIZE == g
            &&& g + PAGES_PER_SUPERPAGE <= s.pages.len()
            &&& alloc_2mb_step(s).0.pages[g as int].count == PAGES_PER_SUPERPAGE
            &&& forall|j: int| 0 <= j < PAGES_PER_SUPERPAGE ==> {
                &&& (#[trigger] s.pages[g + j]).state == State::Free2MB
                &&& alloc_2mb_step(s).0.pages[g + j].state == State::Alloc2MB
            }
        },
        s.head_2mb is None ==> alloc_2mb_step(s) == (s, 0usize),
{
    let (l4, l2, own) = choose|l4: Seq<usize>, l2: Seq<usize>, own: Seq<Option<usize>>| shaped(s, l4, l2, own);
    let t = alloc_2mb_step(s).0;
    if let Some(g) = s.head_2mb {
        lemma_alloc_2mb_shaped(s, l4, l2, own);
        assert(shaped(t, l4, l2.drop_first(), own));
        lemma_address_index(g as int, s.pages.len() as int);
        assert forall|x: int| 0 <= x < s.pages.len() && handed_out(#[trigger] s.pages[x]) implies t.pages[x].state
            == s.pages[x].state by {
            if g <= x < g + PAGES_PER_SUPERPAGE {
                assert(s.pages[g + (x - g)].state == State::Free2MB);
            }
        }
    } else {
        assert(shaped(t, l4, l2, own));
    }
}

/// Returning an allocated small page of a valid allocator is defined, keeps
/// it valid, and frees the page; every other handed-out page keeps its state.
pub proof fn law_free_4k(s: AllocState, i: int)
    requires
        valid(s),
        0 <= i < s.pages.len(),
        s.pages[i].state == State::Alloc4K,
    ensures
        free_4k_ok(s.pages, i),
        valid(free_4k_step(s, i)),
        is_free(free_4k_step(s, i).pages[i]),
        keeps_handed_out(s.pages, free_4k_step(s, i).pages, i, i + 1),
{
    let (l4, l2, own) = choose|l4: Seq<usize>, l2: Seq<usize>, own: Seq<Option<usize>>| shaped(s, l4, l2, own);
    let t = free_4k_step(s, i);
    if release_merges(s.pages, i) {
        let ln = lemma_free_4k_merge_shaped(s, l4, l2, own, i);
        assert(shaped(t, ln, seq![own[i].unwrap()] + l2, own));
        let o = own[i].unwrap() as int;
        assert(t.pages[o + (i - o)].state == State::Free2MB);
        assert forall|x: int| 0 <= x < s.pages.len() && !(i <= x < i + 1) && handed_out(#[trigger] s.pages[x]) implies {
            &&& t.pages[x].state == s.pages[x].state
            &&& (s.pages[x].state == State::Alloc2MB ==> t.pages[x].count == s.pages[x].count)
        } by {
            if o <= x < o + PAGES_PER_SUPERPAGE {
                assert(s.pages[o + (x - o)].state == State::Free4K);
            }
        }
    } else {
        lemma_free_4k_push_shaped(s, l4, l2, own, i);
        assert(shaped(t, seq![i as usize] + l4, l2, own));
        lemma_owner_is_split(s, l4, l2, own, i);
        lemma_release_counts(s.pages, i);
        if let Some(h) = s.head_4k {
            assert(l4[0] == h);
        }
    }
}

/// Returning a superpage handed out whole, named by its first page, keeps a
/// valid allocator valid: its 512 pages become `Free2MB` and no other page
/// changes state.
pub proof fn law_free_2mb(s: AllocState, i: int)
    requires
        valid(s),
        0 <= i < s.pages.len(),
        s.pages[i].state == State::Alloc2MB,
        s.pages[i].count == PAGES_PER_SUPERPAGE,
    ensures
        valid(free_2mb_step(s, i)),
        i + PAGES_PER_SUPERPAGE <= s.pages.len(),
        forall|j: int| 0 <= j < PAGES_PER_SUPERPAGE ==> {
            &&& (#[trigger] s.pages[i + j]).state == State::Alloc2MB
            &&& free_2mb_step(s, i).pages[i + j].state == State::Free2MB
        },
        keeps_handed_out(s.pages, free_2mb_step(s, i).pages, i, i + PAGES_PER_SUPERPAGE),
{
    let (l4, l2, own) = choose|l4: Seq<usize>, l2: Seq<usize>, own: Seq<Option<usize>>| shaped(s, l4, l2, own);
    lemma_alloc2mb_head(s, l4, l2, own, i);
    lemma_free_2mb_shaped(s, l4, l2, own, i);
    assert(shaped(free_2mb_step(s, i), l4, seq![i as usize] + l2, own));
}

/// A request on a valid allocator is defined and keeps it valid; a request
/// that gets memory gets pages that were free and are now handed out, and
/// every page handed out before keeps its state.
pub proof fn law_allocate(s: AllocState, size: usize, align: usize)
    requires
        valid(s),
    ensures
        wants_small(size, align) ==> alloc_4k_ok(s, true),
        wants_large(size, align) ==> alloc_2mb_ok(s),
        valid(allocate_step(s, size, align).0),
        keeps_handed_out(s.pages, allocate_step(s, size, align).0.pages, 0, 0),
        allocate_step(s, size, align).1 != 0 ==> {
            let i = allocate_step(s, size, align).1 / PAGE_SIZE;
            &&& allocate_step(s, size, align).1 % PAGE_SIZE == 0
            &&& i < s.pages.len()
            &&& is_free(s.pages[i as int])
            &&& handed_out(allocate_step(s, size, align).0.pages[i as int])
        },
{
    law_alloc_4k(s);
    law_alloc_2mb(s);
    if let Some(g) = s.head_2mb {
        assert(s.pages[g + 0].state == State::Free2MB);
    }
}

/// Returning memory on a valid allocator, at an address whose superpage (if it
/// names an `Alloc2MB` page) is named by its first page, keeps the allocator
/// valid, and every handed-out page outside what is returned keeps its state.
pub proof fn law_dealloc(s: AllocState, initialized: bool, ptr: usize)
    requires
        valid(s),
        initialized && ptr != 0 ==> (crate::page::page_index_of(s.pages.len(), ptr) matches Some(i) ==> (s.pages[i as int].state
            == State::Alloc2MB ==> s.pages[i as int].count == PAGES_PER_SUPERPAGE)),
    ensures
        valid(dealloc_step(s, initialized, ptr)),
        dealloc_step(s, initialized, ptr).pages.len() == s.pages.len(),
        ptr != 0 && initialized ==> (crate::page::page_index_of(s.pages.len(), ptr) matches Some(i) ==> {
            &&& handed_out(s.pages[i as int]) ==> is_free(dealloc_step(s, initialized, ptr).pages[i as int])
            &&& keeps_handed_out(
                s.pages,
                dealloc_step(s, initialized, ptr).pages,
                i as int,
                if s.pages[i as int].state == State::Alloc2MB { i + PAGES_PER_SUPERPAGE } else { i + 1 },
            )
        }),
{
    if ptr != 0 && initialized {
        if let Some(i) = crate::page::page_index_of(s.pages.len(), ptr) {
            if s.pages[i as int].state == State::Alloc4K {
                law_free_4k(s, i as int);
            } else if s.pages[i as int].state == State::Alloc2MB {
                law_free_2mb(s, i as int);
                assert(s.pages[i + 0].state == State::Alloc2MB);
            }
        }
    }
}

/// Whether no split superpage of `s` is wholly free: every superpage whose
/// first page is a small page (free or handed out) has a page handed out.
pub open spec fn no_idle_split(s: AllocState, own: Seq<Option<usize>>) -> bool {
    forall|h: int|
        0 <= h < s.pages.len() && own[h] == Some(h as usize) && (#[trigger] s.pages[h]).state != State::Free2MB
            && s.pages[h].state != State::Alloc2MB ==> s.pages[h].count < PAGES_PER_SUPERPAGE
}

/// Returning a superpage right after `alloc_2mb` handed it out restores the
/// allocator: the same page states, list heads and lists.
pub proof fn law_free_2mb_undoes_alloc_2mb(s: AllocState, l4: Seq<usize>, l2: Seq<usize>, own: Seq<Option<usize>>)
    requires
        shaped(s, l4, l2, own),
        s.head_2mb is Some,
    ensures
        ({
            let t = free_2mb_step(alloc_2mb_step(s).0, s.head_2mb.unwrap() as int);
            &&& shaped(t, l4, l2, own)
            &&& t.head_4k == s.head_4k
            &&& t.head_2mb == s.head_2mb
            &&& t.pages.len() == s.pages.len()
            &&& forall|x: int| 0 <= x < s.pages.len() ==> (#[trigger] t.pages[x]).state == s.pages[x].state
        }),
{
    let g = s.head_2mb.unwrap() as int;
    let a1 = alloc_2mb_step(s).0;
    lemma_alloc_2mb_shaped(s, l4, l2, own);
    assert(s.pages[g].count == PAGES_PER_SUPERPAGE);
    assert(a1.pages[g + 0].state == State::Alloc2MB);
    assert(a1.pages[g].count == PAGES_PER_SUPERPAGE);
    lemma_free_2mb_shaped(a1, l4, l2.drop_first(), own, g);
    assert(l2[0] == g);
    assert(seq![g as usize] + l2.drop_first() =~= l2);
    let t = free_2mb_step(a1, g);
    assert forall|x: int| 0 <= x < s.pages.len() implies (#[trigger] t.pages[x]).state == s.pages[x].state by {
        if g <= x < g + PAGES_PER_SUPERPAGE {
            assert(s.pages[g + (x - g)].state == State::Free2MB);
            assert(t.pages[g + (x - g)].state == State::Free2MB);
        }
    }
}

/// The superpage returned last is the next one `alloc_2mb` hands out.
pub proof fn law_alloc_2mb_reuses_last_freed(s: AllocState, i: int)
    requires
        0 <= i <= usize::MAX,
    ensures
        alloc_2mb_step(free_2mb_step(s, i)).1 == (i * PAGE_SIZE) as usize,
{
}

/// A small page returned without completing its superpage is the next page
/// `alloc_4k` hands out.
pub proof fn law_alloc_4k_reuses_last_freed(s: AllocState, i: int)
    requires
        0 <= i <= usize::MAX,
        !release_merges(s.pages, i),
    ensures
        alloc_4k_step(free_4k_step(s, i)).1 == (i * PAGE_SIZE) as usize,
{
}

/// The state after `alloc_4k` and returning its page, in terms of the
/// allocator before.
pub open spec fn alloc_4k_then_free(s: AllocState) -> AllocState {
    let (a1, r) = alloc_4k_step(s);
    free_4k_step(a1, (r / PAGE_SIZE) as int)
}

/// The round trip of `alloc_4k` and `free_4k` restores the allocator (see
/// `law_free_4k_undoes_alloc_4k`).
pub open spec fn restores(s: AllocState, t: AllocState, l4: Seq<usize>, l2: Seq<usize>, own: Seq<Option<usize>>) -> bool {
    &&& shaped(t, l4, l2, own)
    &&& t.head_4k == s.head_4k
    &&& t.head_2mb == s.head_2mb
    &&& t.pages.len() == s.pages.len()
    &&& forall|x: int| 0 <= x < s.pages.len() ==> (#[trigger] t.pages[x]).state == s.pages[x].state
}

#[verifier::rlimit(40)]
#[verifier::spinoff_prover]
proof fn lemma_round_trip_pop(s: AllocState, l4: Seq<usize>, l2: Seq<usize>, own: Seq<Option<usize>>)
    requires
        shaped(s, l4, l2, own),
        no_idle_split(s, own),
        s.head_4k is Some,
    ensures
        alloc_4k_step(s).0.pages[(alloc_4k_step(s).1 / PAGE_SIZE) as int].state == State::Alloc4K,
        restores(s, alloc_4k_then_free(s), l4, l2, own),
{
    let a = s.pages;
    let (a1, r) = alloc_4k_step(s);
    let h = s.head_4k.unwrap() as int;
    lemma_pop_4k_shaped(s, l4, l2, own);
    lemma_address_index(h, a.len() as int);
    assert(r / PAGE_SIZE == h);
    assert(l4[0] == h);
    assert(a[h].state == State::Free4K);
    if a[h].prev_2mb is Some {
        assert(own[h] is Some) by {
            if own[h] is None {
                assert(crate::shape::single_page_ok(a[h]));
            }
        }
        let o = own[h].unwrap() as int;
        assert(own[o] == Some(o as usize));
        assert(crate::shape::block_page_ok(a, o, h));
        assert(a[h].prev_2mb == Some(o as usize));
        assert(a[o].count < PAGES_PER_SUPERPAGE);
    }
    assert(!release_merges(a1.pages, h));
    lemma_free_4k_push_shaped(a1, l4.drop_first(), l2, own, h);
    assert(seq![h as usize] + l4.drop_first() =~= l4);
    let t = free_4k_step(a1, h);
    assert forall|x: int| 0 <= x < a.len() implies (#[trigger] t.pages[x]).state == a[x].state by {
        if x != h {
            assert(a1.pages[x].state == a[x].state);
        }
    }
}

/// First half of the round trip through a split: the allocation splits the
/// head superpage `g` and hands out its last page.
#[verifier::rlimit(60)]
#[verifier::spinoff_prover]
proof fn lemma_split_pop(s: AllocState, l4: Seq<usize>, l2: Seq<usize>, own: Seq<Option<usize>>)
    requires
        shaped(s, l4, l2, own),
        s.head_4k is None,
        s.head_2mb is Some,
    ensures
        ({
            let g = s.head_2mb.unwrap() as int;
            let i = g + PAGES_PER_SUPERPAGE - 1;
            let (a1, r) = alloc_4k_step(s);
            &&& r / PAGE_SIZE == i
            &&& 0 <= g
            &&& i < s.pages.len()
            &&& shaped(a1, split_list(g).drop_first(), l2.drop_first(), own)
            &&& own[i] == Some(g as usize)
            &&& a1.pages[i].state == State::Alloc4K
            &&& release_merges(a1.pages, i)
            &&& l2[0] == g
            &&& forall|j: int| 0 <= j < PAGES_PER_SUPERPAGE ==> (#[trigger] s.pages[g + j]).state == State::Free2MB
            &&& forall|x: int| 0 <= x < s.pages.len() && !(g <= x < g + PAGES_PER_SUPERPAGE)
                ==> (#[trigger] a1.pages[x]).state == s.pages[x].state
        }),
{
    let a = s.pages;
    let (a1, r) = alloc_4k_step(s);
    let g = s.head_2mb.unwrap() as int;
    lemma_split_shaped(s, l4, l2, own);
    let m = AllocState {
        pages: split_and_detach(a, g),
        head_4k: Some((g + PAGES_PER_SUPERPAGE - 1) as usize),
        head_2mb: a[g].next_2mb,
    };
    let ml4 = split_list(g);
    let ml2 = l2.drop_first();
    lemma_pop_4k_shaped(m, ml4, ml2, own);
    let i = g + PAGES_PER_SUPERPAGE - 1;
    assert(a1 == AllocState { pages: pop_4k(m.pages, i), head_4k: m.pages[i].next_4k, head_2mb: m.head_2mb });
    lemma_address_index(i, a.len() as int);
    assert(own[g] == Some(g as usize));
    assert(own[g + (PAGES_PER_SUPERPAGE - 1)] == Some(g as usize));
    assert(m.pages[i].prev_2mb == Some(g as usize));
    assert(m.pages[g].count == PAGES_PER_SUPERPAGE);
    assert(a1.pages[g].count == PAGES_PER_SUPERPAGE - 1);
}

/// Second half of the round trip through a split, on the states alone: the
/// superpage at `g` is free again and nothing else changed.
#[verifier::spinoff_prover]
proof fn lemma_round_trip_split_tail(
    s: AllocState,
    a1: AllocState,
    t: AllocState,
    l4: Seq<usize>,
    l2: Seq<usize>,
    own: Seq<Option<usize>>,
    ln: Seq<usize>,
    g: int,
)
    requires
        shaped(t, ln, seq![g as usize] + l2.drop_first(), own),
        s.head_4k is None,
        s.head_2mb == Some(g as usize),
        l4.len() == 0,
        l2.len() > 0,
        l2[0] == g,
        0 <= g,
        t.pages.len() == s.pages.len(),
        a1.pages.len() == s.pages.len(),
        forall|x: int| 0 <= x < s.pages.len() ==> (#[trigger] s.pages[x]).state != State::Free4K,
        forall|j: int| 0 <= j < PAGES_PER_SUPERPAGE ==> (#[trigger] s.pages[g + j]).state == State::Free2MB,
        forall|j: int| 0 <= j < PAGES_PER_SUPERPAGE ==> (#[trigger] t.pages[g + j]).state == State::Free2MB,
        forall|x: int| 0 <= x < s.pages.len() && !(g <= x < g + PAGES_PER_SUPERPAGE)
            ==> (#[trigger] a1.pages[x]).state == s.pages[x].state,
        forall|x: int| 0 <= x < s.pages.len() && !(g <= x < g + PAGES_PER_SUPERPAGE)
            ==> (#[trigger] t.pages[x]).state == a1.pages[x].state,
    ensures
        restores(s, t, l4, l2, own),
{
    let a = s.pages;
    assert(seq![g as usize] + l2.drop_first() =~= l2);
    assert forall|x: int| 0 <= x < a.len() implies (#[trigger] t.pages[x]).state == a[x].state by {
        if g <= x < g + PAGES_PER_SUPERPAGE {
            assert(a[g + (x - g)].state == State::Free2MB);
            assert(t.pages[g + (x - g)].state == State::Free2MB);
        } else {
            assert(a1.pages[x].state == a[x].state);
        }
    }
    if ln.len() > 0 {
        assert(t.pages[ln[0] as int].state == State::Free4K);
        assert(a[ln[0] as int].state == State::Free4K);
    }
    assert(ln =~= l4);
}

/// Returning the last page of a superpage that `alloc_4k` split on an empty
/// 4 KiB list merges the superpage again and restores the allocator.
#[verifier::spinoff_prover]
proof fn lemma_round_trip_split(s: AllocState, l4: Seq<usize>, l2: Seq<usize>, own: Seq<Option<usize>>)
    requires
        shaped(s, l4, l2, own),
        s.head_4k is None,
        s.head_2mb is Some,
    ensures
        alloc_4k_step(s).0.pages[(alloc_4k_step(s).1 / PAGE_SIZE) as int].state == State::Alloc4K,
        restores(s, alloc_4k_then_free(s), l4, l2, own),
{
    let (a1, r) = alloc_4k_step(s);
    let g = s.head_2mb.unwrap() as int;
    let i = g + PAGES_PER_SUPERPAGE - 1;
    lemma_split_pop(s, l4, l2, own);
    let ln = lemma_free_4k_merge_shaped(a1, split_list(g).drop_first(), l2.drop_first(), own, i);
    let t = free_4k_step(a1, i);
    assert(l4.len() == 0);
    assert forall|x: int| 0 <= x < s.pages.len() implies (#[trigger] s.pages[x]).state != State::Free4K by {
        if s.pages[x].state == State::Free4K {
            assert(l4.contains(x as usize));
        }
    }
    lemma_round_trip_split_tail(s, a1, t, l4, l2, own, ln, g);
}

/// Returning the page that `alloc_4k` just handed out restores the allocator,
/// when no split superpage was wholly free before: the same page states,
/// list heads and lists; a superpage that the allocation split merges again.
pub proof fn law_free_4k_undoes_alloc_4k(s: AllocState, l4: Seq<usize>, l2: Seq<usize>, own: Seq<Option<usize>>)
    requires
        shaped(s, l4, l2, own),
        no_idle_split(s, own),
        s.head_4k is Some || s.head_2mb is Some,
    ensures
        alloc_4k_step(s).0.pages[(alloc_4k_step(s).1 / PAGE_SIZE) as int].state == State::Alloc4K,
        restores(s, alloc_4k_then_free(s), l4, l2, own),
{
    if s.head_4k is Some {
        lemma_round_trip_pop(s, l4, l2, own);
    } else {
        lemma_round_trip_split(s, l4, l2, own);
    }
}

/// Returning what a request got right after the request restores the
/// allocator, when no split superpage was wholly free before: the same page
/// states, list heads and lists.
#[verifier::spinoff_prover]
pub proof fn law_dealloc_undoes_allocate(
    s: AllocState,
    l4: Seq<usize>,
    l2: Seq<usize>,
    own: Seq<Option<usize>>,
    size: usize,
    align: usize,
)
    requires
        shaped(s, l4, l2, own),
        no_idle_split(s, own),
        allocate_step(s, size, align).1 != 0,
    ensures
        restores(s, dealloc_step(allocate_step(s, size, align).0, true, allocate_step(s, size, align).1), l4, l2, own),
{
    let (a1, r) = allocate_step(s, size, align);
    let len = s.pages.len();
    if wants_small(size, align) {
        law_free_4k_undoes_alloc_4k(s, l4, l2, own);
        let i = (r / PAGE_SIZE) as int;
        law_alloc_4k(s);
        assert(page_index_of(len, r) == Some(i as usize));
        assert(dealloc_step(a1, true, r) == free_4k_step(a1, i));
        assert(alloc_4k_then_free(s) == free_4k_step(a1, i));
    } else {
        let g = s.head_2mb.unwrap() as int;
        lemma_alloc_2mb_shaped(s, l4, l2, own);
        law_alloc_2mb(s);
        law_free_2mb_undoes_alloc_2mb(s, l4, l2, own);
        assert(r / PAGE_SIZE == g);
        assert(page_index_of(len, r) == Some(g as usize));
        assert(a1.pages[g + 0].state == State::Alloc2MB);
        assert(dealloc_step(a1, true, r) == free_2mb_step(a1, g));
    }
}

/// A request on a valid allocator with an alignment that divides the page
/// size or is a multiple of it gets memory at an address aligned to it, in
/// a unit that holds the request: a small page for a small request, a
/// superpage handed out whole otherwise.
pub proof fn law_allocate_fits_layout(s: AllocState, size: usize, align: usize)
    requires
        valid(s),
        align > 0,
        (PAGE_SIZE as int) % (align as int) == 0 || (align as int) % (PAGE_SIZE as int) == 0,
    ensures
        allocate_step(s, size, align).1 != 0 ==> {
            let r = allocate_step(s, size, align).1;
            let t = allocate_step(s, size, align).0;
            let i = (r / PAGE_SIZE) as int;
            &&& r % align == 0
            &&& 0 < size <= crate::page::SUPERPAGE_SIZE
            &&& align <= crate::page::SUPERPAGE_SIZE
            &&& size <= PAGE_SIZE && align <= PAGE_SIZE ==> t.pages[i].state == State::Alloc4K
            &&& !(size <= PAGE_SIZE && align <= PAGE_SIZE) ==> t.pages[i].state == State::Alloc2MB
                && t.pages[i].count == PAGES_PER_SUPERPAGE
        },
{
    law_allocate(s, size, align);
    law_alloc_4k(s);
    law_alloc_2mb(s);
    let (t, r) = allocate_step(s, size, align);
    if r != 0 {
        let i = (r / PAGE_SIZE) as int;
        assert(r == i * PAGE_SIZE);
        if wants_small(size, align) {
            let m = (PAGE_SIZE as int) / (align as int);
            assert((PAGE_SIZE as int) % (align as int) == 0) by {
                if (align as int) % (PAGE_SIZE as int) == 0 {
                    assert(align as int == PAGE_SIZE as int);
                }
            }
            vstd::arithmetic::div_mod::lemma_fundamental_div_mod(PAGE_SIZE as int, align as int);
            assert(r as int == (m * i) * (align as int)) by (nonlinear_arith)
                requires
                    r as int == i * (PAGE_SIZE as int),
                    PAGE_SIZE as int == (align as int) * m,
            ;
            vstd::arithmetic::div_mod::lemma_mod_multiples_basic(m * i, align as int);
        } else {
            let g = s.head_2mb.unwrap() as int;
            assert(s.pages[g + 0].state == State::Free2MB);
        }
    }
}

/// How a request is served, in terms of the two allocations: a request of
/// no bytes, of more than 2 MiB or with more than 2 MiB alignment gets
/// nothing and changes nothing; one that fits a page with at most page
/// alignment is `alloc_4k`; any other is `alloc_2mb` when the superpage it
/// would hand out is aligned as asked (or none is free), and nothing otherwise.
pub proof fn law_allocate_dispatch(s: AllocState, size: usize, align: usize)
    ensures
        size == 0 || size > crate::page::SUPERPAGE_SIZE || align > crate::page::SUPERPAGE_SIZE
            ==> allocate_step(s, size, align) == (s, 0usize),
        0 < size <= PAGE_SIZE && align <= PAGE_SIZE ==> allocate_step(s, size, align) == alloc_4k_step(s),
        0 < size <= crate::page::SUPERPAGE_SIZE && align <= crate::page::SUPERPAGE_SIZE && !(size <= PAGE_SIZE && align
            <= PAGE_SIZE) ==> allocate_step(s, size, align) == (match s.head_2mb {
            Some(g) => if align == 0 || (g * PAGE_SIZE) % (align as int) == 0 {
                alloc_2mb_step(s)
            } else {
                (s, 0usize)
            },
            None => (s, 0usize),
        }),
{
}

/// What each operation does to the free lists, for a valid allocator with
/// 4 KiB list `l4`, 2 MiB list `l2` and superpage layout `own`: `alloc_4k`
/// hands out the first page of `l4`; when `l4` is empty it splits the first
/// superpage of `l2` and hands out its last page, the rest of the superpage
/// becoming the 4 KiB list from its last page down; with both empty it does
/// nothing.
pub proof fn law_alloc_4k_lists(s: AllocState, l4: Seq<usize>, l2: Seq<usize>, own: Seq<Option<usize>>)
    requires
        shaped(s, l4, l2, own),
    ensures
        l4.len() > 0 ==> alloc_4k_step(s).1 / PAGE_SIZE == l4[0] && shaped(alloc_4k_step(s).0, l4.drop_first(), l2, own),
        l4.len() == 0 && l2.len() > 0 ==> alloc_4k_step(s).1 / PAGE_SIZE == l2[0] + PAGES_PER_SUPERPAGE - 1 && shaped(
            alloc_4k_step(s).0,
            split_list(l2[0] as int).drop_first(),
            l2.drop_first(),
            own,
        ),
        l4.len() == 0 && l2.len() == 0 ==> alloc_4k_step(s) == (s, 0usize),
{
    crate::shape::lemma_valid_intro(s, l4, l2, own);
    law_alloc_4k(s);
    if l4.len() > 0 {
        lemma_pop_4k_shaped(s, l4, l2, own);
    } else if l2.len() > 0 {
        lemma_split_pop(s, l4, l2, own);
    }
}

/// `alloc_2mb` hands out the first superpage of `l2`, which leaves the list;
/// the 4 KiB list is untouched.
pub proof fn law_alloc_2mb_lists(s: AllocState, l4: Seq<usize>, l2: Seq<usize>, own: Seq<Option<usize>>)
    requires
        shaped(s, l4, l2, own),
    ensures
        l2.len() > 0 ==> alloc_2mb_step(s).1 / PAGE_SIZE == l2[0] && shaped(alloc_2mb_step(s).0, l4, l2.drop_first(), own),
        l2.len() == 0 ==> alloc_2mb_step(s) == (s, 0usize),
{
    crate::shape::lemma_valid_intro(s, l4, l2, own);
    law_alloc_2mb(s);
    if l2.len() > 0 {
        lemma_alloc_2mb_shaped(s, l4, l2, own);
    }
}

/// Returning the small page `i`: it goes to the front of `l4`, unless that
/// makes its superpage wholly free; then the superpage's other pages leave
/// `l4`, whose remaining pages keep their order, and the superpage goes to
/// the front of `l2`.
pub proof fn law_free_4k_lists(s: AllocState, l4: Seq<usize>, l2: Seq<usize>, own: Seq<Option<usize>>, i: int)
    requires
        shaped(s, l4, l2, own),
        0 <= i < s.pages.len(),
        s.pages[i].state == State::Alloc4K,
    ensures
        !release_merges(s.pages, i) ==> shaped(free_4k_step(s, i), seq![i as usize] + l4, l2, own),
        release_merges(s.pages, i) ==> own[i] is Some && shaped(
            free_4k_step(s, i),
            l4.filter(|x: usize| !(own[i].unwrap() as int <= x < own[i].unwrap() as int + PAGES_PER_SUPERPAGE as nat && x != i)),
            seq![own[i].unwrap()] + l2,
            own,
        ),
{
    if release_merges(s.pages, i) {
        lemma_free_4k_merge_shaped(s, l4, l2, own, i);
    } else {
        lemma_free_4k_push_shaped(s, l4, l2, own, i);
    }
}

/// Returning the superpage at `i`, handed out whole, puts it at the front of
/// `l2`; the 4 KiB list is untouched.
pub proof fn law_free_2mb_lists(s: AllocState, l4: Seq<usize>, l2: Seq<usize>, own: Seq<Option<usize>>, i: int)
    requires
        shaped(s, l4, l2, own),
        0 <= i < s.pages.len(),
        s.pages[i].state == State::Alloc2MB,
        s.pages[i].count == PAGES_PER_SUPERPAGE,
    ensures
        shaped(free_2mb_step(s, i), l4, seq![i as usize] + l2, own),
{
    lemma_free_2mb_shaped(s, l4, l2, own, i);
}

} // verus!
