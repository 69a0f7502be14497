//! The allocator's central invariant: the 4 KiB list is a doubly linked list
//! of exactly the `Free4K` pages, the 2 MiB list one of exactly the free
//! superpages, and every superpage is wholly free, wholly allocated, or split
//! into small pages whose owner counts its free ones.
use vstd::prelude::*;
use crate::page::{PageArrayElement, State, PAGES_PER_SUPERPAGE, with_state, with_count};
use crate::allocator::{links_in_range, fits_page, fits_superpage};
use crate::model::{AllocState, unlink_4k, unlink_block, merge_step, push_superpage, free_4k_step, release_4k, release_merges, free_4k_ok, split_and_detach, split_block, split_ok, pop_4k, pop_4k_ok, detach_prev_4k, charged_to_owner, alloc_2mb_ok, alloc_2mb_step, detach_prev_2mb, free_2mb_step, link_before_head};

verus! {

/// Number of `Free4K` pages among the `n` pages starting at `h`.
pub open spec fn free_in(a: Seq<PageArrayElement>, h: int, n: nat) -> nat
    decreases n,
{
    if n == 0 {
        0
    } else {
        free_in(a, h, (n - 1) as nat) + (if a[h + n - 1].state == State::Free4K { 1nat } else { 0nat })
    }
}

/// `a` and `b` agree on the state of the `n` pages starting at `h`, except at `p`.
pub open spec fn same_states_except(a: Seq<PageArrayElement>, b: Seq<PageArrayElement>, h: int, n: nat, p: int) -> bool {
    forall|i: int| h <= i < h + n && i != p ==> (#[trigger] b[i]).state == a[i].state
}

pub proof fn lemma_free_in_bound(a: Seq<PageArrayElement>, h: int, n: nat)
    ensures
        free_in(a, h, n) <= n,
    decreases n,
{
    if n > 0 {
        lemma_free_in_bound(a, h, (n - 1) as nat);
    }
}

/// Changing the state of one page of the range changes the count by what
/// that page contributes.
pub proof fn lemma_free_in_change(a: Seq<PageArrayElement>, b: Seq<PageArrayElement>, h: int, n: nat, p: int)
    requires
        same_states_except(a, b, h, n, p),
    ensures
        h <= p < h + n ==> free_in(b, h, n) + (if a[p].state == State::Free4K { 1int } else { 0int })
            == free_in(a, h, n) + (if b[p].state == State::Free4K { 1int } else { 0int }),
        !(h <= p < h + n) ==> free_in(b, h, n) == free_in(a, h, n),
    decreases n,
{
    if n > 0 {
        lemma_free_in_change(a, b, h, (n - 1) as nat, p);
        if h + n - 1 != p {
            assert(b[h + n - 1].state == a[h + n - 1].state);
        }
    }
}

/// The count is full exactly when every page of the range is free.
pub proof fn lemma_free_in_full(a: Seq<PageArrayElement>, h: int, n: nat)
    ensures
        free_in(a, h, n) == n <==> forall|j: int| 0 <= j < n ==> (#[trigger] a[h + j]).state == State::Free4K,
    decreases n,
{
    if n > 0 {
        lemma_free_in_full(a, h, (n - 1) as nat);
        lemma_free_in_bound(a, h, (n - 1) as nat);
        if free_in(a, h, n) == n {
            assert forall|j: int| 0 <= j < n implies (#[trigger] a[h + j]).state == State::Free4K by {
                if j < n - 1 {
                    assert(a[h + j].state == State::Free4K);
                }
            }
        }
        if forall|j: int| 0 <= j < n ==> (#[trigger] a[h + j]).state == State::Free4K {
            assert forall|j: int| 0 <= j < n - 1 implies (#[trigger] a[h + j]).state == State::Free4K by {
                assert(a[h + j].state == State::Free4K);
            }
            assert(a[h + (n - 1)].state == State::Free4K);
        }
    }
}

/// `l` is the 4 KiB list threaded through `a` from `head`: distinct pages of
/// the array, each linked forward to the next and back to the previous one.
pub open spec fn links_4k(a: Seq<PageArrayElement>, head: Option<usize>, l: Seq<usize>) -> bool {
    &&& l.no_duplicates()
    &&& head == (if l.len() == 0 { None } else { Some(l[0]) })
    &&& forall|k: int|
        #![trigger l[k]]
        0 <= k < l.len() ==> {
            &&& l[k] < a.len()
            &&& a[l[k] as int].next_4k == (if k + 1 < l.len() { Some(l[k + 1]) } else { None })
            &&& a[l[k] as int].prev_4k == (if k == 0 { None } else { Some(l[k - 1]) })
        }
}

/// `l` is the 2 MiB list threaded through `a` from `head`.
pub open spec fn links_2mb(a: Seq<PageArrayElement>, head: Option<usize>, l: Seq<usize>) -> bool {
    &&& l.no_duplicates()
    &&& head == (if l.len() == 0 { None } else { Some(l[0]) })
    &&& forall|k: int|
        #![trigger l[k]]
        0 <= k < l.len() ==> {
            &&& l[k] < a.len()
            &&& a[l[k] as int].next_2mb == (if k + 1 < l.len() { Some(l[k + 1]) } else { None })
            &&& a[l[k] as int].prev_2mb == (if k == 0 { None } else { Some(l[k - 1]) })
        }
}

/// Page `i` of the superpage at `h` agrees with the superpage's mode, which
/// its first page's state gives: wholly free, wholly handed out, or split
/// into small pages that name `h` as owner and whose free ones `h` counts.
pub open spec fn block_page_ok(a: Seq<PageArrayElement>, h: int, i: int) -> bool {
    &&& (i != h ==> a[i].count == 0)
    &&& match a[h].state {
        State::Free2MB => a[i].state == State::Free2MB && a[h].count == PAGES_PER_SUPERPAGE,
        State::Alloc2MB => a[i].state == State::Alloc2MB && a[h].count == PAGES_PER_SUPERPAGE,
        State::Unavail => false,
        _ => {
            &&& (a[i].state == State::Free4K || a[i].state == State::Alloc4K)
            &&& a[i].prev_2mb == Some(h as usize)
            &&& a[i].next_2mb is None
            &&& a[h].count == free_in(a, h, PAGES_PER_SUPERPAGE as nat)
        },
    }
}

/// A page outside every superpage: unavailable or a small page, with no owner.
pub open spec fn single_page_ok(e: PageArrayElement) -> bool {
    &&& (e.state == State::Unavail || e.state == State::Free4K || e.state == State::Alloc4K)
    &&& e.prev_2mb is None
    &&& e.count == 0
}

/// `own` gives for each page the first page of the superpage it lies in, if
/// any; superpages lie wholly in the array and every page agrees with its
/// superpage's mode or is a single page.
pub open spec fn owners_ok(a: Seq<PageArrayElement>, own: Seq<Option<usize>>) -> bool {
    &&& own.len() == a.len()
    &&& forall|i: int|
        #![trigger own[i]]
        0 <= i < a.len() ==> match own[i] {
            Some(h) => h <= i < h + PAGES_PER_SUPERPAGE && h + PAGES_PER_SUPERPAGE <= a.len()
                && own[h as int] == Some(h) && block_page_ok(a, h as int, i),
            None => single_page_ok(a[i]),
        }
    &&& forall|h: int, j: int|
        #![trigger own[h], own[h + j]]
        0 <= h < a.len() && own[h] == Some(h as usize) && 0 <= j < PAGES_PER_SUPERPAGE ==> own[h + j] == Some(h as usize)
}

/// The allocator's invariant, with `l4` and `l2` the 4 KiB and 2 MiB lists and
/// `own` the superpage layout: every link of the array is in range; `l4` is a doubly
/// linked list of exactly the `Free4K` pages; `l2` is a doubly linked list of
/// exactly the first pages of the free superpages.
pub open spec fn shaped(s: AllocState, l4: Seq<usize>, l2: Seq<usize>, own: Seq<Option<usize>>) -> bool {
    let a = s.pages;
    &&& links_in_range(a)
    &&& fits_page(a, s.head_4k)
    &&& fits_superpage(a, s.head_2mb)
    &&& owners_ok(a, own)
    &&& links_4k(a, s.head_4k, l4)
    &&& forall|k: int| 0 <= k < l4.len() ==> a[#[trigger] l4[k] as int].state == State::Free4K
    &&& forall|i: int| 0 <= i < a.len() && a[i].state == State::Free4K ==> #[trigger] l4.contains(i as usize)
    &&& links_2mb(a, s.head_2mb, l2)
    &&& forall|k: int|
        0 <= k < l2.len() ==> own[#[trigger] l2[k] as int] == Some(l2[k]) && a[l2[k] as int].state == State::Free2MB
    &&& forall|h: int|
        0 <= h < a.len() && own[h] == Some(h as usize) && a[h].state == State::Free2MB ==> #[trigger] l2.contains(
            h as usize,
        )
}

/// The allocator's invariant holds for some lists and superpage layout.
pub open spec fn valid(s: AllocState) -> bool {
    exists|l4: Seq<usize>, l2: Seq<usize>, own: Seq<Option<usize>>| shaped(s, l4, l2, own)
}

/// A shaped allocator is valid.
pub proof fn lemma_valid_intro(s: AllocState, l4: Seq<usize>, l2: Seq<usize>, own: Seq<Option<usize>>)
    requires
        shaped(s, l4, l2, own),
    ensures
        valid(s),
{
}

/// Two distinct superpages do not overlap.
pub proof fn lemma_blocks_disjoint(a: Seq<PageArrayElement>, own: Seq<Option<usize>>, g: int, h: int)
    requires
        owners_ok(a, own),
        a.len() <= usize::MAX,
        0 <= g < a.len(),
        0 <= h < a.len(),
        own[g] == Some(g as usize),
        own[h] == Some(h as usize),
        g != h,
    ensures
        g + PAGES_PER_SUPERPAGE <= h || h + PAGES_PER_SUPERPAGE <= g,
{
    if g < h && h < g + PAGES_PER_SUPERPAGE {
        assert(own[g + (h - g)] == Some(g as usize));
    }
    if h < g && g < h + PAGES_PER_SUPERPAGE {
        assert(own[h + (g - h)] == Some(h as usize));
    }
}

/// States of the pages outside `[lo, lo + n)` are the same in `a` and `b`,
/// so superpages disjoint from that range count the same free pages.
pub proof fn lemma_free_in_frame(a: Seq<PageArrayElement>, b: Seq<PageArrayElement>, h: int, lo: int, n: int)
    requires
        forall|i: int| h <= i < h + PAGES_PER_SUPERPAGE && !(lo <= i < lo + n) ==> (#[trigger] b[i]).state == a[i].state,
        h + PAGES_PER_SUPERPAGE <= lo || lo + n <= h,
    ensures
        free_in(b, h, PAGES_PER_SUPERPAGE as nat) == free_in(a, h, PAGES_PER_SUPERPAGE as nat),
{
    lemma_free_in_change(a, b, h, PAGES_PER_SUPERPAGE as nat, -1);
}

/// Handing out the superpage at the head of the 2 MiB list is allowed and
/// keeps the invariant, with that superpage off the 2 MiB list; its 512 pages
/// were `Free2MB` and are now `Alloc2MB`, and no other page changes state.
pub proof fn lemma_alloc_2mb_shaped(s: AllocState, l4: Seq<usize>, l2: Seq<usize>, own: Seq<Option<usize>>)
    requires
        shaped(s, l4, l2, own),
        s.head_2mb is Some,
    ensures
        alloc_2mb_ok(s),
        shaped(alloc_2mb_step(s).0, l4, l2.drop_first(), own),
        forall|j: int| 0 <= j < PAGES_PER_SUPERPAGE ==> {
            &&& (#[trigger] s.pages[s.head_2mb.unwrap() + j]).state == State::Free2MB
            &&& alloc_2mb_step(s).0.pages[s.head_2mb.unwrap() + j].state == State::Alloc2MB
        },
        forall|i: int| 0 <= i < s.pages.len() && !(s.head_2mb.unwrap() <= i < s.head_2mb.unwrap() + PAGES_PER_SUPERPAGE)
            ==> (#[trigger] alloc_2mb_step(s).0.pages[i]).state == s.pages[i].state,
{
    let a = s.pages;
    let g = s.head_2mb.unwrap() as int;
    let t = alloc_2mb_step(s).0;
    let b = t.pages;
    let n = a[g].next_2mb;
    let a1 = detach_prev_2mb(a, n);
    assert(l2[0] == g);
    assert(own[g] == Some(g as usize));
    assert(block_page_ok(a, g, g));
    assert(a[g].count == PAGES_PER_SUPERPAGE);
    assert forall|j: int| 0 <= j < PAGES_PER_SUPERPAGE implies (#[trigger] a[g + j]).state == State::Free2MB by {
        assert(own[g + j] == Some(g as usize));
        assert(block_page_ok(a, g, g + j));
    }
    // the new 2 MiB head, if any, is the first page of another free superpage
    if l2.len() > 1 {
        assert(n == Some(l2[1]));
        assert(own[l2[1] as int] == Some(l2[1]));
        assert(l2[1] != l2[0]);
        lemma_blocks_disjoint(a, own, g, l2[1] as int);
    } else {
        assert(n is None);
    }
    assert forall|i: int| 0 <= i < a.len() && !(g <= i < g + PAGES_PER_SUPERPAGE) implies {
        &&& #[trigger] b[i] == a1[i]
        &&& a1[i].state == a[i].state
        &&& a1[i].count == a[i].count
        &&& a1[i].next_4k == a[i].next_4k
        &&& a1[i].prev_4k == a[i].prev_4k
        &&& a1[i].next_2mb == a[i].next_2mb
        &&& (n != Some(i as usize) ==> a1[i] == a[i])
    } by {}
    assert forall|i: int| g <= i < g + PAGES_PER_SUPERPAGE implies {
        &&& (#[trigger] b[i]).state == State::Alloc2MB
        &&& b[i].count == a[i].count
    } by {
        if n == Some(i as usize) {
            assert(i == g);
        }
    }
    // links in range
    assert forall|i: int| #![trigger b[i]] 0 <= i < b.len() implies {
        &&& fits_page(b, b[i].next_4k)
        &&& fits_page(b, b[i].prev_4k)
        &&& fits_superpage(b, b[i].next_2mb)
        &&& fits_superpage(b, b[i].prev_2mb)
        &&& (b[i].count == PAGES_PER_SUPERPAGE ==> i + PAGES_PER_SUPERPAGE <= b.len())
    } by {
        assert(a[i] == a[i]);
    }
    // owners
    assert forall|i: int| #![trigger own[i]] 0 <= i < b.len() implies match own[i] {
        Some(h) => h <= i < h + PAGES_PER_SUPERPAGE && h + PAGES_PER_SUPERPAGE <= b.len() && own[h as int] == Some(h)
            && block_page_ok(b, h as int, i),
        None => single_page_ok(b[i]),
    } by {
        match own[i] {
            Some(h) => {
                if h as int != g {
                    assert(own[h as int] == Some(h));
                    lemma_blocks_disjoint(a, own, g, h as int);
                    assert(block_page_ok(a, h as int, i));
                    lemma_free_in_frame(a, b, h as int, g, PAGES_PER_SUPERPAGE as int);
                    assert(b[h as int].state == a[h as int].state);
                } else {
                    assert(block_page_ok(a, g, i));
                }
            },
            None => {
                if g <= i < g + PAGES_PER_SUPERPAGE {
                    assert(own[g + (i - g)] == Some(g as usize));
                }
            },
        }
    }
    // 4 KiB list: its pages lie outside the handed-out superpage
    assert forall|k: int| 0 <= k < l4.len() implies !(g <= #[trigger] l4[k] < g + PAGES_PER_SUPERPAGE) by {
        assert(a[l4[k] as int].state == State::Free4K);
        if g <= l4[k] < g + PAGES_PER_SUPERPAGE {
            assert(a[g + (l4[k] - g)].state == State::Free2MB);
        }
    }
    assert forall|k: int| 0 <= k < l4.len() implies b[#[trigger] l4[k] as int].state == State::Free4K by {}
    assert forall|i: int| 0 <= i < b.len() && b[i].state == State::Free4K implies #[trigger] l4.contains(i as usize) by {
        assert(a[i].state == State::Free4K);
    }
    // 2 MiB list
    let l2d = l2.drop_first();
    assert forall|k: int| 0 <= k < l2d.len() implies {
        &&& !(g <= #[trigger] l2d[k] < g + PAGES_PER_SUPERPAGE)
        &&& own[l2d[k] as int] == Some(l2d[k])
        &&& b[l2d[k] as int].state == State::Free2MB
        &&& b[l2d[k] as int].next_2mb == a[l2d[k] as int].next_2mb
    } by {
        assert(l2d[k] == l2[k + 1]);
        assert(l2[k + 1] != l2[0]);
        assert(own[l2[k + 1] as int] == Some(l2[k + 1]));
        lemma_blocks_disjoint(a, own, g, l2[k + 1] as int);
    }
    assert forall|h: int|
        0 <= h < b.len() && own[h] == Some(h as usize) && b[h].state == State::Free2MB implies #[trigger] l2d.contains(
            h as usize,
        ) by {
        if h != g {
            lemma_blocks_disjoint(a, own, g, h);
            assert(l2.contains(h as usize));
            let k = choose|k: int| 0 <= k < l2.len() && l2[k] == h as usize;
            assert(k != 0);
            assert(l2d[k - 1] == h as usize);
        }
    }
}

/// A page in state `Alloc2MB` with a full count is the first page of a
/// superpage handed out whole.
pub proof fn lemma_alloc2mb_head(s: AllocState, l4: Seq<usize>, l2: Seq<usize>, own: Seq<Option<usize>>, i: int)
    requires
        shaped(s, l4, l2, own),
        0 <= i < s.pages.len(),
        s.pages[i].state == State::Alloc2MB,
        s.pages[i].count == PAGES_PER_SUPERPAGE,
    ensures
        own[i] == Some(i as usize),
        forall|j: int| 0 <= j < PAGES_PER_SUPERPAGE ==> (#[trigger] s.pages[i + j]).state == State::Alloc2MB,
        i + PAGES_PER_SUPERPAGE <= s.pages.len(),
{
    let a = s.pages;
    assert(own[i] is Some);
    let h = own[i].unwrap() as int;
    assert(block_page_ok(a, h, i));
    assert forall|j: int| 0 <= j < PAGES_PER_SUPERPAGE implies (#[trigger] a[i + j]).state == State::Alloc2MB by {
        assert(own[i + j] == Some(i as usize));
        assert(block_page_ok(a, i, i + j));
    }
}

/// Returning a superpage handed out whole keeps the invariant, with the
/// superpage at the front of the 2 MiB list; its pages were `Alloc2MB` and
/// are now `Free2MB`, and no other page changes state.
pub proof fn lemma_free_2mb_shaped(s: AllocState, l4: Seq<usize>, l2: Seq<usize>, own: Seq<Option<usize>>, i: int)
    requires
        shaped(s, l4, l2, own),
        0 <= i < s.pages.len(),
        s.pages[i].state == State::Alloc2MB,
        s.pages[i].count == PAGES_PER_SUPERPAGE,
    ensures
        shaped(free_2mb_step(s, i), l4, seq![i as usize] + l2, own),
        forall|j: int| 0 <= j < PAGES_PER_SUPERPAGE ==> {
            &&& (#[trigger] s.pages[i + j]).state == State::Alloc2MB
            &&& free_2mb_step(s, i).pages[i + j].state == State::Free2MB
        },
        forall|x: int| 0 <= x < s.pages.len() && !(i <= x < i + PAGES_PER_SUPERPAGE)
            ==> (#[trigger] free_2mb_step(s, i).pages[x]).state == s.pages[x].state,
{
    lemma_alloc2mb_head(s, l4, l2, own, i);
    let a = s.pages;
    let g0 = s.head_2mb;
    let a1 = link_before_head(a, g0, i);
    let t = free_2mb_step(s, i);
    let b = t.pages;
    let l2n = seq![i as usize] + l2;
    assert(!l2.contains(i as usize)) by {
        if l2.contains(i as usize) {
            let k = choose|k: int| 0 <= k < l2.len() && l2[k] == i as usize;
            assert(a[l2[k] as int].state == State::Free2MB);
        }
    }
    if let Some(g) = g0 {
        assert(l2[0] == g);
        assert(own[g as int] == Some(g));
        assert(g as int != i);
        lemma_blocks_disjoint(a, own, i, g as int);
    }
    assert forall|x: int| 0 <= x < a.len() && !(i <= x < i + PAGES_PER_SUPERPAGE) implies {
        &&& #[trigger] b[x] == a1[x]
        &&& a1[x].state == a[x].state
        &&& a1[x].count == a[x].count
        &&& a1[x].next_4k == a[x].next_4k
        &&& a1[x].prev_4k == a[x].prev_4k
        &&& a1[x].next_2mb == a[x].next_2mb
        &&& (g0 != Some(x as usize) ==> a1[x] == a[x])
    } by {}
    assert forall|x: int| i <= x < i + PAGES_PER_SUPERPAGE implies (#[trigger] b[x]).state == State::Free2MB by {}
    // links in range
    assert forall|x: int| #![trigger b[x]] 0 <= x < b.len() implies {
        &&& fits_page(b, b[x].next_4k)
        &&& fits_page(b, b[x].prev_4k)
        &&& fits_superpage(b, b[x].next_2mb)
        &&& fits_superpage(b, b[x].prev_2mb)
        &&& (b[x].count == PAGES_PER_SUPERPAGE ==> x + PAGES_PER_SUPERPAGE <= b.len())
    } by {
        assert(a[x] == a[x]);
    }
    // owners
    assert forall|x: int| #![trigger own[x]] 0 <= x < b.len() implies match own[x] {
        Some(h) => h <= x < h + PAGES_PER_SUPERPAGE && h + PAGES_PER_SUPERPAGE <= b.len() && own[h as int] == Some(h)
            && block_page_ok(b, h as int, x),
        None => single_page_ok(b[x]),
    } by {
        match own[x] {
            Some(h) => {
                if h as int != i {
                    assert(own[h as int] == Some(h));
                    lemma_blocks_disjoint(a, own, i, h as int);
                    assert(block_page_ok(a, h as int, x));
                    lemma_free_in_frame(a, b, h as int, i, PAGES_PER_SUPERPAGE as int);
                    assert(b[h as int].state == a[h as int].state);
                } else {
                    assert(block_page_ok(a, i, x));
                }
            },
            None => {
                if i <= x < i + PAGES_PER_SUPERPAGE {
                    assert(own[i + (x - i)] == Some(i as usize));
                }
            },
        }
    }
    // 4 KiB list: its pages lie outside the returned superpage
    assert forall|k: int| 0 <= k < l4.len() implies !(i <= #[trigger] l4[k] < i + PAGES_PER_SUPERPAGE) by {
        assert(a[l4[k] as int].state == State::Free4K);
        if i <= l4[k] < i + PAGES_PER_SUPERPAGE {
            assert(a[i + (l4[k] - i)].state == State::Alloc2MB);
        }
    }
    assert forall|k: int| 0 <= k < l4.len() implies b[#[trigger] l4[k] as int].state == State::Free4K by {}
    assert forall|x: int| 0 <= x < b.len() && b[x].state == State::Free4K implies #[trigger] l4.contains(x as usize) by {
        assert(a[x].state == State::Free4K);
    }
    // 2 MiB list
    assert forall|k: int| 0 <= k < l2.len() implies {
        &&& !(i <= #[trigger] l2[k] < i + PAGES_PER_SUPERPAGE)
        &&& b[l2[k] as int].next_2mb == a[l2[k] as int].next_2mb
        &&& (k > 0 ==> b[l2[k] as int].prev_2mb == a[l2[k] as int].prev_2mb)
        &&& b[l2[k] as int].state == State::Free2MB
    } by {
        assert(own[l2[k] as int] == Some(l2[k]));
        lemma_blocks_disjoint(a, own, i, l2[k] as int);
        if k > 0 {
            assert(l2[k] != l2[0]);
        }
    }
    assert(l2n.no_duplicates()) by {
        assert forall|p: int, q: int| 0 <= p < l2n.len() && 0 <= q < l2n.len() && p != q implies l2n[p] != l2n[q] by {
            if p > 0 && q > 0 {
                assert(l2n[p] == l2[p - 1] && l2n[q] == l2[q - 1]);
            } else if p == 0 {
                assert(l2.contains(l2n[q]) ==> true);
                assert(l2n[q] == l2[q - 1]);
            } else {
                assert(l2n[p] == l2[p - 1]);
            }
        }
    }
    assert forall|k: int| 0 <= k < l2n.len() implies {
        &&& own[#[trigger] l2n[k] as int] == Some(l2n[k])
        &&& b[l2n[k] as int].state == State::Free2MB
    } by {
        if k > 0 {
            assert(l2n[k] == l2[k - 1]);
        }
    }
    assert forall|h: int|
        0 <= h < b.len() && own[h] == Some(h as usize) && b[h].state == State::Free2MB implies #[trigger] l2n.contains(
            h as usize,
        ) by {
        if h != i {
            lemma_blocks_disjoint(a, own, i, h);
            assert(l2.contains(h as usize));
            let k = choose|k: int| 0 <= k < l2.len() && l2[k] == h as usize;
            assert(l2n[k + 1] == h as usize);
        } else {
            assert(l2n[0] == h as usize);
        }
    }
    assert(links_2mb(b, t.head_2mb, l2n)) by {
        assert forall|k: int| #![trigger l2n[k]] 0 <= k < l2n.len() implies {
            &&& l2n[k] < b.len()
            &&& b[l2n[k] as int].next_2mb == (if k + 1 < l2n.len() { Some(l2n[k + 1]) } else { None })
            &&& b[l2n[k] as int].prev_2mb == (if k == 0 { None } else { Some(l2n[k - 1]) })
        } by {
            if k > 0 {
                assert(l2n[k] == l2[k - 1]);
                if k == 1 {
                    assert(g0 == Some(l2[0]));
                }
            }
            if k + 1 < l2n.len() {
                assert(l2n[k + 1] == l2[k]);
            }
        }
    }
}

/// Taking the head page off a non-empty 4 KiB list is allowed and keeps the
/// invariant, with the page off the list; it was `Free4K` and is now
/// `Alloc4K`, and no other page changes state.
pub proof fn lemma_pop_4k_shaped(s: AllocState, l4: Seq<usize>, l2: Seq<usize>, own: Seq<Option<usize>>)
    requires
        shaped(s, l4, l2, own),
        s.head_4k is Some,
    ensures
        pop_4k_ok(s.pages, s.head_4k.unwrap() as int),
        shaped(
            AllocState {
                pages: pop_4k(s.pages, s.head_4k.unwrap() as int),
                head_4k: s.pages[s.head_4k.unwrap() as int].next_4k,
                head_2mb: s.head_2mb,
            },
            l4.drop_first(),
            l2,
            own,
        ),
        s.pages[s.head_4k.unwrap() as int].state == State::Free4K,
        pop_4k(s.pages, s.head_4k.unwrap() as int)[s.head_4k.unwrap() as int].state == State::Alloc4K,
        forall|x: int| 0 <= x < s.pages.len() && x != s.head_4k.unwrap() ==> (#[trigger] pop_4k(s.pages, s.head_4k.unwrap() as int)[x]).state
            == s.pages[x].state,
{
    let a = s.pages;
    let h = s.head_4k.unwrap() as int;
    assert(l4[0] == h);
    let n = a[h].next_4k;
    let a2 = with_state(detach_prev_4k(a, n), h, State::Alloc4K);
    let b = pop_4k(a, h);
    let l4d = l4.drop_first();
    assert(a[h].state == State::Free4K);
    assert(own[h] is Some ==> a[h].prev_2mb == Some(own[h].unwrap())) by {
        if let Some(o) = own[h] {
            assert(block_page_ok(a, o as int, h));
        }
    }
    assert(own[h] is None ==> a[h].prev_2mb is None);
    if l4.len() > 1 {
        assert(n == Some(l4[1]));
    }
    assert forall|x: int| 0 <= x < a.len() implies {
        &&& (#[trigger] b[x]).state == (if x == h { State::Alloc4K } else { a[x].state })
        &&& b[x].next_4k == a[x].next_4k
        &&& (n != Some(x as usize) ==> b[x].prev_4k == a[x].prev_4k)
        &&& (n == Some(x as usize) ==> b[x].prev_4k is None)
        &&& b[x].next_2mb == a[x].next_2mb
        &&& b[x].prev_2mb == a[x].prev_2mb
        &&& (own[h] != Some(x as usize) ==> b[x].count == a[x].count)
        &&& (own[h] == Some(x as usize) ==> b[x].count == a[x].count - 1)
    } by {
        if let Some(o) = own[h] {
            assert(a2[o as int].count == a[o as int].count);
        }
    }
    // the owner's count of free pages drops with the page
    if let Some(o) = own[h] {
        let o = o as int;
        assert(own[o] == Some(o as usize));
        assert(block_page_ok(a, o, h));
        assert(block_page_ok(a, o, o));
        lemma_free_in_change(a, b, o, PAGES_PER_SUPERPAGE as nat, h);
        lemma_free_in_bound(a, o, PAGES_PER_SUPERPAGE as nat);
        assert(a[o].count >= 1) by {
            assert(same_states_except(a, a, o, PAGES_PER_SUPERPAGE as nat, h));
            lemma_free_in_change(a, with_state(a, h, State::Alloc4K), o, PAGES_PER_SUPERPAGE as nat, h);
        }
    }
    // links in range
    assert forall|x: int| #![trigger b[x]] 0 <= x < b.len() implies {
        &&& fits_page(b, b[x].next_4k)
        &&& fits_page(b, b[x].prev_4k)
        &&& fits_superpage(b, b[x].next_2mb)
        &&& fits_superpage(b, b[x].prev_2mb)
        &&& (b[x].count == PAGES_PER_SUPERPAGE ==> x + PAGES_PER_SUPERPAGE <= b.len())
    } by {
        assert(a[x] == a[x]);
        if let Some(o) = own[h] {
            if x == o as int {
                assert(own[o as int] == Some(o));
            }
        }
    }
    // owners
    assert forall|x: int| #![trigger own[x]] 0 <= x < b.len() implies match own[x] {
        Some(g) => g <= x < g + PAGES_PER_SUPERPAGE && g + PAGES_PER_SUPERPAGE <= b.len() && own[g as int] == Some(g)
            && block_page_ok(b, g as int, x),
        None => single_page_ok(b[x]),
    } by {
        match own[x] {
            Some(g) => {
                assert(own[g as int] == Some(g));
                assert(block_page_ok(a, g as int, x));
                if own[h] == Some(g) {
                    assert(block_page_ok(a, g as int, h));
                } else {
                    if g <= h < g + PAGES_PER_SUPERPAGE {
                        assert(own[g + (h - g)] == Some(g));
                    }
                    lemma_free_in_frame(a, b, g as int, h, 1);
                }
            },
            None => {},
        }
    }
    // 4 KiB list
    assert forall|k: int| #![trigger l4d[k]] 0 <= k < l4d.len() implies {
        &&& l4d[k] == l4[k + 1]
        &&& l4d[k] as int != h
        &&& l4d[k] < b.len()
        &&& b[l4d[k] as int].state == State::Free4K
        &&& b[l4d[k] as int].next_4k == (if k + 1 < l4d.len() { Some(l4d[k + 1]) } else { None })
        &&& b[l4d[k] as int].prev_4k == (if k == 0 { None } else { Some(l4d[k - 1]) })
    } by {
        assert(l4[k + 1] != l4[0]);
        if k > 0 {
            assert(l4[k + 1] != l4[1]);
        }
    }
    assert forall|x: int| 0 <= x < b.len() && b[x].state == State::Free4K implies #[trigger] l4d.contains(x as usize) by {
        assert(l4.contains(x as usize));
        let k = choose|k: int| 0 <= k < l4.len() && l4[k] == x as usize;
        assert(k != 0);
        assert(l4d[k - 1] == x as usize);
    }
    // 2 MiB list
    assert forall|k: int| 0 <= k < l2.len() implies (#[trigger] l2[k]) as int != h by {
        assert(a[l2[k] as int].state == State::Free2MB);
    }
    assert forall|k: int| 0 <= k < l2.len() implies {
        &&& own[#[trigger] l2[k] as int] == Some(l2[k])
        &&& b[l2[k] as int].state == State::Free2MB
    } by {}
    assert forall|g: int|
        0 <= g < b.len() && own[g] == Some(g as usize) && b[g].state == State::Free2MB implies #[trigger] l2.contains(
            g as usize,
        ) by {}
}

/// The 4 KiB list that splitting the superpage at `g` onto an empty list
/// builds: from its last page down to its first.
pub open spec fn split_list(g: int) -> Seq<usize> {
    Seq::new(PAGES_PER_SUPERPAGE as nat, |k: int| (g + PAGES_PER_SUPERPAGE - 1 - k) as usize)
}

/// Record-level effect of splitting the superpage at `g` with an empty 4 KiB
/// list and detaching its successor `n` on the 2 MiB list.
proof fn lemma_split_pages(a: Seq<PageArrayElement>, g: int)
    requires
        0 <= g,
        g + PAGES_PER_SUPERPAGE <= a.len(),
        a[g].next_2mb matches Some(m) ==> !(g <= m < g + PAGES_PER_SUPERPAGE) && m < a.len(),
        a.len() <= usize::MAX,
    ensures
        split_and_detach(a, g).len() == a.len(),
        forall|x: int| 0 <= x < a.len() && !(g <= x < g + PAGES_PER_SUPERPAGE) ==> {
            &&& (#[trigger] split_and_detach(a, g)[x]).state == a[x].state
            &&& split_and_detach(a, g)[x].count == a[x].count
            &&& split_and_detach(a, g)[x].next_4k == a[x].next_4k
            &&& split_and_detach(a, g)[x].prev_4k == a[x].prev_4k
            &&& split_and_detach(a, g)[x].next_2mb == a[x].next_2mb
            &&& (a[g].next_2mb != Some(x as usize) ==> split_and_detach(a, g)[x] == a[x])
            &&& (a[g].next_2mb == Some(x as usize) ==> split_and_detach(a, g)[x].prev_2mb is None)
        },
        forall|x: int| g <= x < g + PAGES_PER_SUPERPAGE ==> {
            &&& (#[trigger] split_and_detach(a, g)[x]).state == State::Free4K
            &&& split_and_detach(a, g)[x].count == a[x].count
            &&& split_and_detach(a, g)[x].prev_2mb == Some(g as usize)
            &&& split_and_detach(a, g)[x].next_2mb is None
            &&& split_and_detach(a, g)[x].next_4k == (if x == g { None } else { Some((x - 1) as usize) })
            &&& split_and_detach(a, g)[x].prev_4k == (if x == g + PAGES_PER_SUPERPAGE - 1 {
                None
            } else {
                Some((x + 1) as usize)
            })
        },
{
    let a1 = split_block(a, g, None);
    assert(a1.len() == a.len());
    assert forall|x: int| 0 <= x < a.len() implies #[trigger] a1[x] == (if g <= x < g + PAGES_PER_SUPERPAGE {
        crate::model::split_page(g, None, x, a[x])
    } else {
        a[x]
    }) by {}
}

/// Splitting keeps every link of the array in range and the superpage layout.
#[verifier::rlimit(100)]
#[verifier::spinoff_prover]
proof fn lemma_split_owners(s: AllocState, l4: Seq<usize>, l2: Seq<usize>, own: Seq<Option<usize>>, b: Seq<PageArrayElement>)
    requires
        shaped(s, l4, l2, own),
        s.head_4k is None,
        s.head_2mb is Some,
        b.len() == s.pages.len(),
        forall|x: int| 0 <= x < s.pages.len() && !(s.head_2mb.unwrap() <= x < s.head_2mb.unwrap() + PAGES_PER_SUPERPAGE) ==> {
            &&& (#[trigger] b[x]).state == s.pages[x].state
            &&& b[x].count == s.pages[x].count
            &&& b[x].next_4k == s.pages[x].next_4k
            &&& b[x].prev_4k == s.pages[x].prev_4k
            &&& b[x].next_2mb == s.pages[x].next_2mb
            &&& (s.pages[s.head_2mb.unwrap() as int].next_2mb != Some(x as usize) ==> b[x] == s.pages[x])
            &&& (s.pages[s.head_2mb.unwrap() as int].next_2mb == Some(x as usize) ==> b[x].prev_2mb is None)
        },
        forall|x: int| s.head_2mb.unwrap() <= x < s.head_2mb.unwrap() + PAGES_PER_SUPERPAGE ==> {
            &&& (#[trigger] b[x]).state == State::Free4K
            &&& b[x].count == s.pages[x].count
            &&& b[x].prev_2mb == Some(s.head_2mb.unwrap())
            &&& b[x].next_2mb is None
            &&& b[x].next_4k == (if x == s.head_2mb.unwrap() { None } else { Some((x - 1) as usize) })
            &&& b[x].prev_4k == (if x == s.head_2mb.unwrap() + PAGES_PER_SUPERPAGE - 1 {
                None
            } else {
                Some((x + 1) as usize)
            })
        },
    ensures
        links_in_range(b),
        owners_ok(b, own),
{
    let a = s.pages;
    let g = s.head_2mb.unwrap() as int;
    let n = a[g].next_2mb;
    let l4s = split_list(g);
    assert(l4.len() == 0);
    assert(l2[0] == g);
    assert(own[g] == Some(g as usize));
    assert(block_page_ok(a, g, g));
    assert forall|j: int| 0 <= j < PAGES_PER_SUPERPAGE implies (#[trigger] a[g + j]).state == State::Free2MB by {
        assert(own[g + j] == Some(g as usize));
        assert(block_page_ok(a, g, g + j));
    }
    if l2.len() > 1 {
        assert(n == Some(l2[1]));
        assert(own[l2[1] as int] == Some(l2[1]));
        assert(l2[1] != l2[0]);
        lemma_blocks_disjoint(a, own, g, l2[1] as int);
    } else {
        assert(n is None);
    }
    lemma_free_in_full(b, g, PAGES_PER_SUPERPAGE as nat);
    assert forall|j: int| 0 <= j < PAGES_PER_SUPERPAGE implies (#[trigger] b[g + j]).state == State::Free4K by {}
    // links in range
    assert forall|x: int| #![trigger b[x]] 0 <= x < b.len() implies {
        &&& fits_page(b, b[x].next_4k)
        &&& fits_page(b, b[x].prev_4k)
        &&& fits_superpage(b, b[x].next_2mb)
        &&& fits_superpage(b, b[x].prev_2mb)
        &&& (b[x].count == PAGES_PER_SUPERPAGE ==> x + PAGES_PER_SUPERPAGE <= b.len())
    } by {
        assert(a[x] == a[x]);
    }
    // owners
    assert forall|x: int| #![trigger own[x]] 0 <= x < b.len() implies match own[x] {
        Some(h) => h <= x < h + PAGES_PER_SUPERPAGE && h + PAGES_PER_SUPERPAGE <= b.len() && own[h as int] == Some(h)
            && block_page_ok(b, h as int, x),
        None => single_page_ok(b[x]),
    } by {
        match own[x] {
            Some(h) => {
                if h as int != g {
                    assert(own[h as int] == Some(h));
                    lemma_blocks_disjoint(a, own, g, h as int);
                    assert(block_page_ok(a, h as int, x));
                    lemma_free_in_frame(a, b, h as int, g, PAGES_PER_SUPERPAGE as int);
                    assert(b[h as int].state == a[h as int].state);
                } else {
                    assert(block_page_ok(a, g, x));
                    assert(block_page_ok(a, g, g));
                }
            },
            None => {
                if g <= x < g + PAGES_PER_SUPERPAGE {
                    assert(own[g + (x - g)] == Some(g as usize));
                }
            },
        }
    }
}

/// Splitting makes the superpage's pages the whole 4 KiB list.
#[verifier::rlimit(100)]
#[verifier::spinoff_prover]
proof fn lemma_split_list_4k(s: AllocState, l4: Seq<usize>, l2: Seq<usize>, own: Seq<Option<usize>>, b: Seq<PageArrayElement>)
    requires
        shaped(s, l4, l2, own),
        s.head_4k is None,
        s.head_2mb is Some,
        b.len() == s.pages.len(),
        forall|x: int| 0 <= x < s.pages.len() && !(s.head_2mb.unwrap() <= x < s.head_2mb.unwrap() + PAGES_PER_SUPERPAGE) ==> {
            &&& (#[trigger] b[x]).state == s.pages[x].state
            &&& b[x].count == s.pages[x].count
            &&& b[x].next_4k == s.pages[x].next_4k
            &&& b[x].prev_4k == s.pages[x].prev_4k
            &&& b[x].next_2mb == s.pages[x].next_2mb
            &&& (s.pages[s.head_2mb.unwrap() as int].next_2mb != Some(x as usize) ==> b[x] == s.pages[x])
            &&& (s.pages[s.head_2mb.unwrap() as int].next_2mb == Some(x as usize) ==> b[x].prev_2mb is None)
        },
        forall|x: int| s.head_2mb.unwrap() <= x < s.head_2mb.unwrap() + PAGES_PER_SUPERPAGE ==> {
            &&& (#[trigger] b[x]).state == State::Free4K
            &&& b[x].count == s.pages[x].count
            &&& b[x].prev_2mb == Some(s.head_2mb.unwrap())
            &&& b[x].next_2mb is None
            &&& b[x].next_4k == (if x == s.head_2mb.unwrap() { None } else { Some((x - 1) as usize) })
            &&& b[x].prev_4k == (if x == s.head_2mb.unwrap() + PAGES_PER_SUPERPAGE - 1 {
                None
            } else {
                Some((x + 1) as usize)
            })
        },
    ensures
        links_4k(b, Some((s.head_2mb.unwrap() + PAGES_PER_SUPERPAGE - 1) as usize), split_list(s.head_2mb.unwrap() as int)),
        forall|k: int| 0 <= k < split_list(s.head_2mb.unwrap() as int).len() ==> b[#[trigger] split_list(s.head_2mb.unwrap() as int)[k] as int].state == State::Free4K,
        forall|i: int| 0 <= i < b.len() && b[i].state == State::Free4K ==> #[trigger] split_list(s.head_2mb.unwrap() as int).contains(i as usize),
{
    let a = s.pages;
    let g = s.head_2mb.unwrap() as int;
    let n = a[g].next_2mb;
    let l4s = split_list(g);
    assert(l4.len() == 0);
    assert(l2[0] == g);
    assert(own[g] == Some(g as usize));
    assert(block_page_ok(a, g, g));
    assert forall|j: int| 0 <= j < PAGES_PER_SUPERPAGE implies (#[trigger] a[g + j]).state == State::Free2MB by {
        assert(own[g + j] == Some(g as usize));
        assert(block_page_ok(a, g, g + j));
    }
    if l2.len() > 1 {
        assert(n == Some(l2[1]));
        assert(own[l2[1] as int] == Some(l2[1]));
        assert(l2[1] != l2[0]);
        lemma_blocks_disjoint(a, own, g, l2[1] as int);
    } else {
        assert(n is None);
    }
    lemma_free_in_full(b, g, PAGES_PER_SUPERPAGE as nat);
    assert forall|j: int| 0 <= j < PAGES_PER_SUPERPAGE implies (#[trigger] b[g + j]).state == State::Free4K by {}
    // 4 KiB list: the pages of the superpage, from the last down
    assert forall|k: int| #![trigger l4s[k]] 0 <= k < l4s.len() implies {
        &&& l4s[k] < b.len()
        &&& b[l4s[k] as int].state == State::Free4K
        &&& b[l4s[k] as int].next_4k == (if k + 1 < l4s.len() { Some(l4s[k + 1]) } else { None })
        &&& b[l4s[k] as int].prev_4k == (if k == 0 { None } else { Some(l4s[k - 1]) })
    } by {
        assert(l4s[k] as int == g + PAGES_PER_SUPERPAGE - 1 - k);
        if k + 1 < l4s.len() {
            assert(l4s[k + 1] as int == g + PAGES_PER_SUPERPAGE - 2 - k);
        }
        if k > 0 {
            assert(l4s[k - 1] as int == g + PAGES_PER_SUPERPAGE - k);
        }
    }
    assert(l4s.no_duplicates()) by {
        assert forall|p: int, q: int| 0 <= p < l4s.len() && 0 <= q < l4s.len() && p != q implies l4s[p] != l4s[q] by {}
    }
    assert forall|x: int| 0 <= x < b.len() && b[x].state == State::Free4K implies #[trigger] l4s.contains(x as usize) by {
        if !(g <= x < g + PAGES_PER_SUPERPAGE) {
            assert(a[x].state == State::Free4K);
            assert(l4.contains(x as usize));
        }
        let k = g + PAGES_PER_SUPERPAGE - 1 - x;
        assert(l4s[k] == x as usize);
    }
}

/// Splitting takes the superpage off the 2 MiB list.
#[verifier::rlimit(100)]
#[verifier::spinoff_prover]
proof fn lemma_split_list_2mb(s: AllocState, l4: Seq<usize>, l2: Seq<usize>, own: Seq<Option<usize>>, b: Seq<PageArrayElement>)
    requires
        shaped(s, l4, l2, own),
        s.head_4k is None,
        s.head_2mb is Some,
        b.len() == s.pages.len(),
        forall|x: int| 0 <= x < s.pages.len() && !(s.head_2mb.unwrap() <= x < s.head_2mb.unwrap() + PAGES_PER_SUPERPAGE) ==> {
            &&& (#[trigger] b[x]).state == s.pages[x].state
            &&& b[x].count == s.pages[x].count
            &&& b[x].next_4k == s.pages[x].next_4k
            &&& b[x].prev_4k == s.pages[x].prev_4k
            &&& b[x].next_2mb == s.pages[x].next_2mb
            &&& (s.pages[s.head_2mb.unwrap() as int].next_2mb != Some(x as usize) ==> b[x] == s.pages[x])
            &&& (s.pages[s.head_2mb.unwrap() as int].next_2mb == Some(x as usize) ==> b[x].prev_2mb is None)
        },
        forall|x: int| s.head_2mb.unwrap() <= x < s.head_2mb.unwrap() + PAGES_PER_SUPERPAGE ==> {
            &&& (#[trigger] b[x]).state == State::Free4K
            &&& b[x].count == s.pages[x].count
            &&& b[x].prev_2mb == Some(s.head_2mb.unwrap())
            &&& b[x].next_2mb is None
            &&& b[x].next_4k == (if x == s.head_2mb.unwrap() { None } else { Some((x - 1) as usize) })
            &&& b[x].prev_4k == (if x == s.head_2mb.unwrap() + PAGES_PER_SUPERPAGE - 1 {
                None
            } else {
                Some((x + 1) as usize)
            })
        },
    ensures
        links_2mb(b, s.pages[s.head_2mb.unwrap() as int].next_2mb, l2.drop_first()),
        forall|k: int| 0 <= k < l2.drop_first().len() ==> own[#[trigger] l2.drop_first()[k] as int] == Some(l2.drop_first()[k])
            && b[l2.drop_first()[k] as int].state == State::Free2MB,
        forall|h: int| 0 <= h < b.len() && own[h] == Some(h as usize) && b[h].state == State::Free2MB ==> #[trigger] l2.drop_first().contains(h as usize),
{
    let a = s.pages;
    let g = s.head_2mb.unwrap() as int;
    let n = a[g].next_2mb;
    let l4s = split_list(g);
    assert(l4.len() == 0);
    assert(l2[0] == g);
    assert(own[g] == Some(g as usize));
    assert(block_page_ok(a, g, g));
    assert forall|j: int| 0 <= j < PAGES_PER_SUPERPAGE implies (#[trigger] a[g + j]).state == State::Free2MB by {
        assert(own[g + j] == Some(g as usize));
        assert(block_page_ok(a, g, g + j));
    }
    if l2.len() > 1 {
        assert(n == Some(l2[1]));
        assert(own[l2[1] as int] == Some(l2[1]));
        assert(l2[1] != l2[0]);
        lemma_blocks_disjoint(a, own, g, l2[1] as int);
    } else {
        assert(n is None);
    }
    lemma_free_in_full(b, g, PAGES_PER_SUPERPAGE as nat);
    assert forall|j: int| 0 <= j < PAGES_PER_SUPERPAGE implies (#[trigger] b[g + j]).state == State::Free4K by {}
    // 2 MiB list
    let l2d = l2.drop_first();
    assert forall|k: int| 0 <= k < l2d.len() implies {
        &&& !(g <= #[trigger] l2d[k] < g + PAGES_PER_SUPERPAGE)
        &&& own[l2d[k] as int] == Some(l2d[k])
        &&& b[l2d[k] as int].state == State::Free2MB
        &&& b[l2d[k] as int].next_2mb == a[l2d[k] as int].next_2mb
    } by {
        assert(l2d[k] == l2[k + 1]);
        assert(l2[k + 1] != l2[0]);
        assert(own[l2[k + 1] as int] == Some(l2[k + 1]));
        lemma_blocks_disjoint(a, own, g, l2[k + 1] as int);
    }
    assert forall|h: int|
        0 <= h < b.len() && own[h] == Some(h as usize) && b[h].state == State::Free2MB implies #[trigger] l2d.contains(
            h as usize,
        ) by {
        if h != g {
            lemma_blocks_disjoint(a, own, g, h);
            assert(l2.contains(h as usize));
            let k = choose|k: int| 0 <= k < l2.len() && l2[k] == h as usize;
            assert(k != 0);
            assert(l2d[k - 1] == h as usize);
        }
    }
}

/// `lemma_split_shaped` for the pages that splitting yields.
proof fn lemma_split_shaped_core(s: AllocState, l4: Seq<usize>, l2: Seq<usize>, own: Seq<Option<usize>>, b: Seq<PageArrayElement>)
    requires
        shaped(s, l4, l2, own),
        s.head_4k is None,
        s.head_2mb is Some,
        b.len() == s.pages.len(),
        forall|x: int| 0 <= x < s.pages.len() && !(s.head_2mb.unwrap() <= x < s.head_2mb.unwrap() + PAGES_PER_SUPERPAGE) ==> {
            &&& (#[trigger] b[x]).state == s.pages[x].state
            &&& b[x].count == s.pages[x].count
            &&& b[x].next_4k == s.pages[x].next_4k
            &&& b[x].prev_4k == s.pages[x].prev_4k
            &&& b[x].next_2mb == s.pages[x].next_2mb
            &&& (s.pages[s.head_2mb.unwrap() as int].next_2mb != Some(x as usize) ==> b[x] == s.pages[x])
            &&& (s.pages[s.head_2mb.unwrap() as int].next_2mb == Some(x as usize) ==> b[x].prev_2mb is None)
        },
        forall|x: int| s.head_2mb.unwrap() <= x < s.head_2mb.unwrap() + PAGES_PER_SUPERPAGE ==> {
            &&& (#[trigger] b[x]).state == State::Free4K
            &&& b[x].count == s.pages[x].count
            &&& b[x].prev_2mb == Some(s.head_2mb.unwrap())
            &&& b[x].next_2mb is None
            &&& b[x].next_4k == (if x == s.head_2mb.unwrap() { None } else { Some((x - 1) as usize) })
            &&& b[x].prev_4k == (if x == s.head_2mb.unwrap() + PAGES_PER_SUPERPAGE - 1 {
                None
            } else {
                Some((x + 1) as usize)
            })
        },
    ensures
        split_ok(s.pages, s.head_2mb.unwrap() as int),
        shaped(
            AllocState {
                pages: b,
                head_4k: Some((s.head_2mb.unwrap() + PAGES_PER_SUPERPAGE - 1) as usize),
                head_2mb: s.pages[s.head_2mb.unwrap() as int].next_2mb,
            },
            split_list(s.head_2mb.unwrap() as int),
            l2.drop_first(),
            own,
        ),
        forall|j: int| 0 <= j < PAGES_PER_SUPERPAGE ==> (#[trigger] s.pages[s.head_2mb.unwrap() + j]).state == State::Free2MB,
{
    let a = s.pages;
    let g = s.head_2mb.unwrap() as int;
    assert(own[g] == Some(g as usize));
    assert(block_page_ok(a, g, g));
    assert forall|j: int| 0 <= j < PAGES_PER_SUPERPAGE implies (#[trigger] a[g + j]).state == State::Free2MB by {
        assert(own[g + j] == Some(g as usize));
        assert(block_page_ok(a, g, g + j));
    }
    lemma_split_owners(s, l4, l2, own, b);
    lemma_split_list_4k(s, l4, l2, own, b);
    lemma_split_list_2mb(s, l4, l2, own, b);
}



/// Splitting the superpage at the head of the 2 MiB list onto an empty 4 KiB
/// list is allowed and keeps the invariant: the superpage leaves the 2 MiB
/// list and its pages, now `Free4K`, form the 4 KiB list; no other page
/// changes state.
pub proof fn lemma_split_shaped(s: AllocState, l4: Seq<usize>, l2: Seq<usize>, own: Seq<Option<usize>>)
    requires
        shaped(s, l4, l2, own),
        s.head_4k is None,
        s.head_2mb is Some,
    ensures
        split_ok(s.pages, s.head_2mb.unwrap() as int),
        shaped(
            AllocState {
                pages: split_and_detach(s.pages, s.head_2mb.unwrap() as int),
                head_4k: Some((s.head_2mb.unwrap() + PAGES_PER_SUPERPAGE - 1) as usize),
                head_2mb: s.pages[s.head_2mb.unwrap() as int].next_2mb,
            },
            split_list(s.head_2mb.unwrap() as int),
            l2.drop_first(),
            own,
        ),
        forall|j: int| 0 <= j < PAGES_PER_SUPERPAGE ==> (#[trigger] s.pages[s.head_2mb.unwrap() + j]).state == State::Free2MB,
        forall|x: int| 0 <= x < s.pages.len() && !(s.head_2mb.unwrap() <= x < s.head_2mb.unwrap() + PAGES_PER_SUPERPAGE)
            ==> (#[trigger] split_and_detach(s.pages, s.head_2mb.unwrap() as int)[x]).state == s.pages[x].state,
{
    let a = s.pages;
    let g = s.head_2mb.unwrap() as int;
    assert(l2[0] == g);
    assert(own[g] == Some(g as usize));
    if l2.len() > 1 {
        assert(a[g].next_2mb == Some(l2[1]));
        assert(own[l2[1] as int] == Some(l2[1]));
        assert(l2[1] != l2[0]);
        lemma_blocks_disjoint(a, own, g, l2[1] as int);
    }
    assert(block_page_ok(a, g, g));
    lemma_split_pages(a, g);
    lemma_split_shaped_core(s, l4, l2, own, split_and_detach(a, g));
}
/// Record-level effect of returning small page `i` when its superpage does
/// not become wholly free.
proof fn lemma_push_pages(s: AllocState, l4: Seq<usize>, l2: Seq<usize>, own: Seq<Option<usize>>, i: int)
    requires
        shaped(s, l4, l2, own),
        0 <= i < s.pages.len(),
        s.pages[i].state == State::Alloc4K,
        !release_merges(s.pages, i),
    ensures
        free_4k_step(s, i).pages.len() == s.pages.len(),
        free_4k_step(s, i).head_4k == Some(i as usize),
        free_4k_step(s, i).head_2mb == s.head_2mb,
        own[i] is Some ==> s.pages[i].prev_2mb == own[i],
        own[i] is None ==> s.pages[i].prev_2mb is None,
        forall|x: int| 0 <= x < s.pages.len() ==> {
            &&& (#[trigger] free_4k_step(s, i).pages[x]).state == (if x == i { State::Free4K } else { s.pages[x].state })
            &&& free_4k_step(s, i).pages[x].count == s.pages[x].count + (if own[i] == Some(x as usize) { 1int } else { 0int })
            &&& free_4k_step(s, i).pages[x].next_2mb == s.pages[x].next_2mb
            &&& free_4k_step(s, i).pages[x].prev_2mb == s.pages[x].prev_2mb
            &&& free_4k_step(s, i).pages[x].next_4k == (if x == i { s.head_4k } else { s.pages[x].next_4k })
            &&& free_4k_step(s, i).pages[x].prev_4k == (if x == i {
                None
            } else if s.head_4k == Some(x as usize) {
                Some(i as usize)
            } else {
                s.pages[x].prev_4k
            })
        },
{
    let a = s.pages;
    if let Some(o) = own[i] {
        assert(block_page_ok(a, o as int, i));
        assert(own[o as int] == Some(o));
        assert(block_page_ok(a, o as int, o as int));
        lemma_free_in_bound(a, o as int, PAGES_PER_SUPERPAGE as nat);
        assert(a[o as int].count <= 512);
    }
    if let Some(h) = s.head_4k {
        assert(l4[0] == h);
        assert(a[h as int].state == State::Free4K);
    }
}

/// Returning a small page whose superpage does not become wholly free is
/// allowed and keeps the invariant, with the page at the front of the 4 KiB
/// list; it was `Alloc4K` and is now `Free4K`, and no other page changes state.
#[verifier::rlimit(100)]
#[verifier::spinoff_prover]
pub proof fn lemma_free_4k_push_shaped(s: AllocState, l4: Seq<usize>, l2: Seq<usize>, own: Seq<Option<usize>>, i: int)
    requires
        shaped(s, l4, l2, own),
        0 <= i < s.pages.len(),
        s.pages[i].state == State::Alloc4K,
        !release_merges(s.pages, i),
    ensures
        free_4k_ok(s.pages, i),
        shaped(free_4k_step(s, i), seq![i as usize] + l4, l2, own),
{
    lemma_push_pages(s, l4, l2, own, i);
    let a = s.pages;
    let t = free_4k_step(s, i);
    let b = t.pages;
    let l4n = seq![i as usize] + l4;
    if let Some(o) = own[i] {
        let o = o as int;
        assert(own[o] == Some(o as usize));
        assert(block_page_ok(a, o, i));
        assert(block_page_ok(a, o, o));
        lemma_free_in_bound(a, o, PAGES_PER_SUPERPAGE as nat);
        lemma_free_in_change(a, b, o, PAGES_PER_SUPERPAGE as nat, i);
    }
    assert(!l4.contains(i as usize)) by {
        if l4.contains(i as usize) {
            let k = choose|k: int| 0 <= k < l4.len() && l4[k] == i as usize;
            assert(a[l4[k] as int].state == State::Free4K);
        }
    }
    // links in range
    assert forall|x: int| #![trigger b[x]] 0 <= x < b.len() implies {
        &&& fits_page(b, b[x].next_4k)
        &&& fits_page(b, b[x].prev_4k)
        &&& fits_superpage(b, b[x].next_2mb)
        &&& fits_superpage(b, b[x].prev_2mb)
        &&& (b[x].count == PAGES_PER_SUPERPAGE ==> x + PAGES_PER_SUPERPAGE <= b.len())
    } by {
        assert(a[x] == a[x]);
        if own[i] == Some(x as usize) {
            assert(own[x] == Some(x as usize));
        }
    }
    // owners
    assert forall|x: int| #![trigger own[x]] 0 <= x < b.len() implies match own[x] {
        Some(h) => h <= x < h + PAGES_PER_SUPERPAGE && h + PAGES_PER_SUPERPAGE <= b.len() && own[h as int] == Some(h)
            && block_page_ok(b, h as int, x),
        None => single_page_ok(b[x]),
    } by {
        match own[x] {
            Some(h) => {
                assert(own[h as int] == Some(h));
                assert(block_page_ok(a, h as int, x));
                if own[i] != Some(h) {
                    if h <= i < h + PAGES_PER_SUPERPAGE {
                        assert(own[h + (i - h)] == Some(h));
                    }
                    lemma_free_in_frame(a, b, h as int, i, 1);
                }
            },
            None => {},
        }
    }
    // 4 KiB list
    assert forall|k: int| #![trigger l4n[k]] 0 <= k < l4n.len() implies {
        &&& l4n[k] < b.len()
        &&& b[l4n[k] as int].state == State::Free4K
        &&& b[l4n[k] as int].next_4k == (if k + 1 < l4n.len() { Some(l4n[k + 1]) } else { None })
        &&& b[l4n[k] as int].prev_4k == (if k == 0 { None } else { Some(l4n[k - 1]) })
    } by {
        if k > 0 {
            assert(l4n[k] == l4[k - 1]);
            if k > 1 {
                assert(l4[k - 1] != l4[0]);
            }
        } else {
            if l4.len() > 0 {
                assert(l4n[1] == l4[0]);
            }
        }
        if k + 1 < l4n.len() {
            assert(l4n[k + 1] == l4[k]);
        }
    }
    assert(l4n.no_duplicates()) by {
        assert forall|p: int, q: int| 0 <= p < l4n.len() && 0 <= q < l4n.len() && p != q implies l4n[p] != l4n[q] by {
            if p > 0 && q > 0 {
                assert(l4n[p] == l4[p - 1] && l4n[q] == l4[q - 1]);
            } else if p == 0 {
                assert(l4n[q] == l4[q - 1]);
            } else {
                assert(l4n[p] == l4[p - 1]);
            }
        }
    }
    assert forall|x: int| 0 <= x < b.len() && b[x].state == State::Free4K implies #[trigger] l4n.contains(x as usize) by {
        if x != i {
            assert(l4.contains(x as usize));
            let k = choose|k: int| 0 <= k < l4.len() && l4[k] == x as usize;
            assert(l4n[k + 1] == x as usize);
        } else {
            assert(l4n[0] == x as usize);
        }
    }
    // 2 MiB list
    assert forall|k: int| 0 <= k < l2.len() implies {
        &&& (#[trigger] l2[k]) as int != i
        &&& own[l2[k] as int] == Some(l2[k])
        &&& b[l2[k] as int].state == State::Free2MB
    } by {}
    assert forall|h: int|
        0 <= h < b.len() && own[h] == Some(h as usize) && b[h].state == State::Free2MB implies #[trigger] l2.contains(
            h as usize,
        ) by {}
}

/// `b` agrees with `a` on everything but the 4 KiB links.
pub open spec fn same_but_4k_links(a: Seq<PageArrayElement>, b: Seq<PageArrayElement>) -> bool {
    &&& b.len() == a.len()
    &&& forall|x: int| 0 <= x < a.len() ==> {
        &&& (#[trigger] b[x]).state == a[x].state
        &&& b[x].count == a[x].count
        &&& b[x].next_2mb == a[x].next_2mb
        &&& b[x].prev_2mb == a[x].prev_2mb
    }
}

/// Filtering twice is filtering once by both conditions.
pub proof fn lemma_filter_twice(l: Seq<usize>, p: spec_fn(usize) -> bool, q: spec_fn(usize) -> bool)
    ensures
        l.filter(p).filter(q) == l.filter(|x: usize| p(x) && q(x)),
    decreases l.len(),
{
    reveal(Seq::filter);
    if l.len() > 0 {
        lemma_filter_twice(l.drop_last(), p, q);
        let f = l.drop_last().filter(p);
        if p(l.last()) {
            assert(f.push(l.last()).drop_last() =~= f);
        }
    }
}

/// Filtering out an element that occurs once, at `k`, removes it at `k`.
pub proof fn lemma_filter_out_one(l: Seq<usize>, k: int)
    requires
        l.no_duplicates(),
        0 <= k < l.len(),
    ensures
        l.remove(k) == l.filter(|x: usize| x != l[k]),
    decreases l.len(),
{
    reveal(Seq::filter);
    let v = l[k];
    let f = |x: usize| x != v;
    assert((|x: usize| x != l[k]) =~= f);
    let d = l.drop_last();
    if k == l.len() - 1 {
        assert forall|j: int| 0 <= j < d.len() implies f(#[trigger] d[j]) by {
            assert(d[j] == l[j]);
        }
        lemma_filter_all(d, f);
        assert(!f(l.last()));
        assert(l.filter(f) == d.filter(f));
        assert(l.remove(k) =~= d);
    } else {
        assert(d.no_duplicates()) by {
            assert forall|x: int, y: int| 0 <= x < d.len() && 0 <= y < d.len() && x != y implies d[x] != d[y] by {
                assert(d[x] == l[x] && d[y] == l[y]);
            }
        }
        lemma_filter_out_one(d, k);
        assert(d[k] == v);
        assert((|x: usize| x != d[k]) =~= f);
        assert(f(l.last()));
        assert(l.filter(f) == d.filter(f).push(l.last()));
        assert(l.remove(k) =~= d.remove(k).push(l.last()));
    }
}

/// Filtering by a condition that every element meets changes nothing.
proof fn lemma_filter_all(l: Seq<usize>, p: spec_fn(usize) -> bool)
    requires
        forall|j: int| 0 <= j < l.len() ==> p(#[trigger] l[j]),
    ensures
        l.filter(p) == l,
    decreases l.len(),
{
    reveal(Seq::filter);
    if l.len() > 0 {
        lemma_filter_all(l.drop_last(), p);
        assert(l.drop_last().push(l.last()) =~= l);
    }
}

/// Unlinking the `k`-th page of a 4 KiB list leaves the list without it and
/// changes nothing but 4 KiB links of list pages.
pub proof fn lemma_unlink_one(a: Seq<PageArrayElement>, head: Option<usize>, l: Seq<usize>, k: int)
    requires
        links_4k(a, head, l),
        0 <= k < l.len(),
        a.len() <= usize::MAX,
        forall|x: int| 0 <= x < a.len() ==> fits_page(a, (#[trigger] a[x]).next_4k) && fits_page(a, a[x].prev_4k),
    ensures
        links_4k(unlink_4k(a, head, l[k] as int).0, unlink_4k(a, head, l[k] as int).1, l.remove(k)),
        same_but_4k_links(a, unlink_4k(a, head, l[k] as int).0),
        forall|x: int| 0 <= x < a.len() ==> fits_page(a, (#[trigger] unlink_4k(a, head, l[k] as int).0[x]).next_4k)
            && fits_page(a, unlink_4k(a, head, l[k] as int).0[x].prev_4k),
{
    let p = l[k] as int;
    let (b, hb) = unlink_4k(a, head, p);
    let lr = l.remove(k);
    if k > 0 {
        assert(l[k - 1] != l[k]);
    }
    if k + 1 < l.len() {
        assert(l[k + 1] != l[k]);
        if k > 0 {
            assert(l[k + 1] != l[k - 1]);
        }
    }
    assert forall|j: int| #![trigger lr[j]] 0 <= j < lr.len() implies {
        &&& lr[j] < b.len()
        &&& b[lr[j] as int].next_4k == (if j + 1 < lr.len() { Some(lr[j + 1]) } else { None })
        &&& b[lr[j] as int].prev_4k == (if j == 0 { None } else { Some(lr[j - 1]) })
    } by {
        let jj = if j < k { j } else { j + 1 };
        assert(lr[j] == l[jj]);
        if j + 1 < lr.len() {
            let j1 = if j + 1 < k { j + 1 } else { j + 2 };
            assert(lr[j + 1] == l[j1]);
        }
        if j > 0 {
            let j0 = if j - 1 < k { j - 1 } else { j };
            assert(lr[j - 1] == l[j0]);
        }
        assert(l[jj] != l[k]);
        if k > 0 && jj != k - 1 {
            assert(l[jj] != l[k - 1]);
        }
        if k + 1 < l.len() && jj != k + 1 {
            assert(l[jj] != l[k + 1]);
        }
    }
    assert(lr.no_duplicates()) by {
        assert forall|x: int, y: int| 0 <= x < lr.len() && 0 <= y < lr.len() && x != y implies lr[x] != lr[y] by {
            let xx = if x < k { x } else { x + 1 };
            let yy = if y < k { y } else { y + 1 };
            assert(lr[x] == l[xx] && lr[y] == l[yy]);
        }
    }
    if k == 0 && l.len() > 1 {
        assert(lr[0] == l[1]);
    }
    assert forall|x: int| 0 <= x < a.len() implies fits_page(a, (#[trigger] b[x]).next_4k) && fits_page(a, b[x].prev_4k) by {
        assert(fits_page(a, a[p].next_4k) && fits_page(a, a[p].prev_4k));
    }
}

/// Taking page `o + n - 1` out of the list of the pages of `l` that survive
/// unlinking the first `n - 1` pages leaves those that survive `n`.
proof fn lemma_unlink_filter_step(l: Seq<usize>, lp: Seq<usize>, k: int, o: int, freed: int, n: nat)
    requires
        n > 0,
        lp == l.filter(|x: usize| !(o <= x < o + (n - 1) as nat && x != freed)),
        lp.no_duplicates(),
        0 <= k < lp.len(),
        lp[k] as int == o + n - 1,
        o + n - 1 != freed,
    ensures
        lp.remove(k) == l.filter(|x: usize| !(o <= x < o + n && x != freed)),
{
    let v = lp[k];
    let pre = |x: usize| !(o <= x < o + (n - 1) as nat && x != freed);
    let q = |x: usize| x != v;
    let both = |x: usize| !(o <= x < o + n && x != freed);
    lemma_filter_out_one(lp, k);
    assert((|x: usize| x != lp[k]) =~= q);
    assert(lp == l.filter(pre));
    lemma_filter_twice(l, pre, q);
    assert((|x: usize| pre(x) && q(x)) =~= both);
    assert(lp.remove(k) == l.filter(pre).filter(q));
}

/// Unlinking, in address order, the first `n` pages of the superpage at `o`
/// except `freed`, all of them on the 4 KiB list `l`, leaves a list of exactly
/// the other pages of `l` and changes nothing but 4 KiB links.
pub proof fn lemma_unlink_block(
    a: Seq<PageArrayElement>,
    head: Option<usize>,
    l: Seq<usize>,
    o: int,
    freed: int,
    n: nat,
) -> (ln: Seq<usize>)
    requires
        links_4k(a, head, l),
        a.len() <= usize::MAX,
        0 <= o,
        o + n <= a.len(),
        n <= PAGES_PER_SUPERPAGE,
        forall|j: int| 0 <= j < n && o + j != freed ==> #[trigger] l.contains((o + j) as usize),
        forall|x: int| 0 <= x < a.len() ==> fits_page(a, (#[trigger] a[x]).next_4k) && fits_page(a, a[x].prev_4k),
    ensures
        links_4k(unlink_block(a, head, o, freed, n).0, unlink_block(a, head, o, freed, n).1, ln),
        same_but_4k_links(a, unlink_block(a, head, o, freed, n).0),
        forall|x: int| 0 <= x < a.len() ==> fits_page(a, (#[trigger] unlink_block(a, head, o, freed, n).0[x]).next_4k)
            && fits_page(a, unlink_block(a, head, o, freed, n).0[x].prev_4k),
        forall|x: usize| #[trigger] ln.contains(x) <==> l.contains(x) && !(o <= x < o + n && x != freed),
        ln == l.filter(|x: usize| !(o <= x < o + n && x != freed)),
    decreases n,
{
    if n == 0 {
        lemma_filter_all(l, |x: usize| !(o <= x < o + n && x != freed));
        l
    } else {
        let lp = lemma_unlink_block(a, head, l, o, freed, (n - 1) as nat);
        let (b, hb) = unlink_block(a, head, o, freed, (n - 1) as nat);
        let p = o + n - 1;
        if p == freed {
            assert forall|x: usize| #[trigger] lp.contains(x) <==> l.contains(x) && !(o <= x < o + n && x != freed) by {}
            assert((|x: usize| !(o <= x < o + (n - 1) as nat && x != freed)) =~= (|x: usize| !(o <= x < o + n && x != freed)));
            lp
        } else {
            assert(l.contains(p as usize)) by {
                assert(l.contains((o + (n - 1)) as usize));
            }
            assert(lp.contains(p as usize));
            let k = choose|k: int| 0 <= k < lp.len() && lp[k] == p as usize;
            assert forall|x: int| 0 <= x < b.len() implies fits_page(b, (#[trigger] b[x]).next_4k) && fits_page(b, b[x].prev_4k) by {
                assert(fits_page(a, b[x].next_4k));
            }
            lemma_unlink_one(b, hb, lp, k);
            let lr = lp.remove(k);
            lemma_unlink_filter_step(l, lp, k, o, freed, n);
            assert forall|x: usize| #[trigger] lr.contains(x) <==> l.contains(x) && !(o <= x < o + n && x != freed) by {
                if lr.contains(x) {
                    let j = choose|j: int| 0 <= j < lr.len() && lr[j] == x;
                    let jj = if j < k { j } else { j + 1 };
                    assert(lp[jj] == x);
                    assert(lp.contains(x));
                    assert(jj != k);
                    assert(lp[jj] != lp[k]);
                }
                if l.contains(x) && !(o <= x < o + n && x != freed) {
                    assert(lp.contains(x));
                    let j = choose|j: int| 0 <= j < lp.len() && lp[j] == x;
                    assert(j != k);
                    let jr = if j < k { j } else { j - 1 };
                    assert(lr[jr] == x);
                }
            }
            assert forall|x: int| 0 <= x < a.len() implies {
                &&& (#[trigger] unlink_4k(b, hb, p).0[x]).state == a[x].state
                &&& unlink_4k(b, hb, p).0[x].count == a[x].count
                &&& unlink_4k(b, hb, p).0[x].next_2mb == a[x].next_2mb
                &&& unlink_4k(b, hb, p).0[x].prev_2mb == a[x].prev_2mb
            } by {
                assert(b[x].state == a[x].state);
            }
            assert forall|x: int| 0 <= x < a.len() implies fits_page(a, (#[trigger] unlink_4k(b, hb, p).0[x]).next_4k)
                && fits_page(a, unlink_4k(b, hb, p).0[x].prev_4k) by {
                assert(fits_page(b, unlink_4k(b, hb, p).0[x].next_4k));
            }
            lr
        }
    }
}

/// Record-level effect of pushing the superpage at `o` onto the 2 MiB list
/// whose head is `g0`.
proof fn lemma_push_superpage_pages(a: Seq<PageArrayElement>, o: int, g0: Option<usize>)
    requires
        0 <= o,
        o + PAGES_PER_SUPERPAGE <= a.len(),
        a.len() <= usize::MAX,
        g0 matches Some(g) ==> g < a.len() && !(o <= g < o + PAGES_PER_SUPERPAGE),
    ensures
        push_superpage(a, o, g0).len() == a.len(),
        forall|x: int| 0 <= x < a.len() && !(o <= x < o + PAGES_PER_SUPERPAGE) ==> {
            &&& (#[trigger] push_superpage(a, o, g0)[x]).state == a[x].state
            &&& push_superpage(a, o, g0)[x].count == a[x].count
            &&& push_superpage(a, o, g0)[x].next_4k == a[x].next_4k
            &&& push_superpage(a, o, g0)[x].prev_4k == a[x].prev_4k
            &&& push_superpage(a, o, g0)[x].next_2mb == a[x].next_2mb
            &&& push_superpage(a, o, g0)[x].prev_2mb == (if g0 == Some(x as usize) { Some(o as usize) } else { a[x].prev_2mb })
        },
        forall|x: int| o <= x < o + PAGES_PER_SUPERPAGE ==> {
            &&& (#[trigger] push_superpage(a, o, g0)[x]).state == State::Free2MB
            &&& push_superpage(a, o, g0)[x].count == (if x == o { PAGES_PER_SUPERPAGE as i32 } else { a[x].count })
            &&& push_superpage(a, o, g0)[x].next_4k is None
            &&& push_superpage(a, o, g0)[x].prev_4k is None
            &&& push_superpage(a, o, g0)[x].next_2mb == (if x == o { g0 } else { None })
            &&& push_superpage(a, o, g0)[x].prev_2mb == (if x == o { None } else { Some(o as usize) })
        },
{
    let a1 = crate::model::link_before_head(a, g0, o);
    assert(a1.len() == a.len());
    assert forall|x: int| 0 <= x < a.len() implies #[trigger] push_superpage(a, o, g0)[x] == (if o <= x < o + PAGES_PER_SUPERPAGE {
        crate::model::pushed_page(o, g0, x, a1[x])
    } else {
        a1[x]
    }) by {}
}

/// Merging for returning page `i`: the superpage's other pages are on the
/// 4 KiB list, and the state after the merge is shaped with the list left
/// after unlinking them and the superpage at the front of the 2 MiB list.
#[verifier::rlimit(100)]
#[verifier::spinoff_prover]
proof fn lemma_merge_core(
    s: AllocState,
    l4: Seq<usize>,
    l2: Seq<usize>,
    own: Seq<Option<usize>>,
    i: int,
    o: int,
    b1: Seq<PageArrayElement>,
    h4: Option<usize>,
    ln: Seq<usize>,
    c: Seq<PageArrayElement>,
)
    requires
        shaped(s, l4, l2, own),
        0 <= i < s.pages.len(),
        s.pages[i].state == State::Alloc4K,
        own[i] == Some(o as usize),
        own[o] == Some(o as usize),
        0 <= o,
        o + PAGES_PER_SUPERPAGE <= s.pages.len(),
        forall|j: int| 0 <= j < PAGES_PER_SUPERPAGE && o + j != i ==> (#[trigger] s.pages[o + j]).state == State::Free4K,
        b1.len() == s.pages.len(),
        forall|x: int| 0 <= x < s.pages.len() ==> {
            &&& (#[trigger] b1[x]).state == (if x == i { State::Free4K } else { s.pages[x].state })
            &&& b1[x].count == (if x == o { PAGES_PER_SUPERPAGE as i32 } else { s.pages[x].count })
            &&& b1[x].next_2mb == s.pages[x].next_2mb
            &&& b1[x].prev_2mb == s.pages[x].prev_2mb
        },
        links_4k(b1, h4, ln),
        forall|x: int| 0 <= x < b1.len() ==> fits_page(b1, (#[trigger] b1[x]).next_4k) && fits_page(b1, b1[x].prev_4k),
        fits_page(b1, h4),
        forall|x: usize| #[trigger] ln.contains(x) <==> l4.contains(x) && !(o <= x < o + PAGES_PER_SUPERPAGE && x != i),
        c.len() == s.pages.len(),
        forall|x: int| 0 <= x < s.pages.len() && !(o <= x < o + PAGES_PER_SUPERPAGE) ==> {
            &&& (#[trigger] c[x]).state == b1[x].state
            &&& c[x].count == b1[x].count
            &&& c[x].next_4k == b1[x].next_4k
            &&& c[x].prev_4k == b1[x].prev_4k
            &&& c[x].next_2mb == b1[x].next_2mb
            &&& c[x].prev_2mb == (if s.head_2mb == Some(x as usize) { Some(o as usize) } else { b1[x].prev_2mb })
        },
        forall|x: int| o <= x < o + PAGES_PER_SUPERPAGE ==> {
            &&& (#[trigger] c[x]).state == State::Free2MB
            &&& c[x].count == (if x == o { PAGES_PER_SUPERPAGE as i32 } else { b1[x].count })
            &&& c[x].next_4k is None
            &&& c[x].prev_4k is None
            &&& c[x].next_2mb == (if x == o { s.head_2mb } else { None })
            &&& c[x].prev_2mb == (if x == o { None } else { Some(o as usize) })
        },
    ensures
        shaped(AllocState { pages: c, head_4k: h4, head_2mb: Some(o as usize) }, ln, seq![o as usize] + l2, own),
{
    let a = s.pages;
    let g0 = s.head_2mb;
    let l2n = seq![o as usize] + l2;
    assert(!l2.contains(o as usize)) by {
        if l2.contains(o as usize) {
            let k = choose|k: int| 0 <= k < l2.len() && l2[k] == o as usize;
            assert(a[l2[k] as int].state == State::Free2MB);
            assert(block_page_ok(a, o, i));
        }
    }
    if let Some(g) = g0 {
        assert(l2[0] == g);
        assert(own[g as int] == Some(g));
        lemma_blocks_disjoint(a, own, o, g as int);
    }
    assert forall|k: int| 0 <= k < l4.len() implies (#[trigger] l4[k]) as int != i by {
        assert(a[l4[k] as int].state == State::Free4K);
    }
    assert(!l4.contains(i as usize));
    // links in range
    assert forall|x: int| #![trigger c[x]] 0 <= x < c.len() implies {
        &&& fits_page(c, c[x].next_4k)
        &&& fits_page(c, c[x].prev_4k)
        &&& fits_superpage(c, c[x].next_2mb)
        &&& fits_superpage(c, c[x].prev_2mb)
        &&& (c[x].count == PAGES_PER_SUPERPAGE ==> x + PAGES_PER_SUPERPAGE <= c.len())
    } by {
        assert(a[x] == a[x]);
        assert(b1[x] == b1[x]);
    }
    // owners
    assert forall|x: int| #![trigger own[x]] 0 <= x < c.len() implies match own[x] {
        Some(h) => h <= x < h + PAGES_PER_SUPERPAGE && h + PAGES_PER_SUPERPAGE <= c.len() && own[h as int] == Some(h)
            && block_page_ok(c, h as int, x),
        None => single_page_ok(c[x]),
    } by {
        match own[x] {
            Some(h) => {
                assert(own[h as int] == Some(h));
                assert(block_page_ok(a, h as int, x));
                if h as int != o {
                    lemma_blocks_disjoint(a, own, o, h as int);
                    lemma_free_in_frame(a, c, h as int, o, PAGES_PER_SUPERPAGE as int);
                    assert(c[h as int].state == a[h as int].state);
                    if x != h as int {
                        assert(c[x].count == a[x].count);
                    }
                } else {
                    assert(block_page_ok(a, o, x));
                }
            },
            None => {
                if o <= x < o + PAGES_PER_SUPERPAGE {
                    assert(own[o + (x - o)] == Some(o as usize));
                }
                if let Some(g) = g0 {
                    if x == g as int {
                        assert(own[g as int] == Some(g));
                    }
                }
            },
        }
    }
    // 4 KiB list: what is left of it lies outside the merged superpage
    assert forall|k: int| 0 <= k < ln.len() implies {
        &&& !(o <= #[trigger] ln[k] < o + PAGES_PER_SUPERPAGE)
        &&& l4.contains(ln[k])
    } by {
        assert(ln.contains(ln[k]));
    }
    assert forall|k: int| #![trigger ln[k]] 0 <= k < ln.len() implies {
        &&& ln[k] < c.len()
        &&& c[ln[k] as int].next_4k == (if k + 1 < ln.len() { Some(ln[k + 1]) } else { None })
        &&& c[ln[k] as int].prev_4k == (if k == 0 { None } else { Some(ln[k - 1]) })
        &&& c[ln[k] as int].state == State::Free4K
    } by {
        let j = choose|j: int| 0 <= j < l4.len() && l4[j] == ln[k];
        assert(a[l4[j] as int].state == State::Free4K);
    }
    assert forall|x: int| 0 <= x < c.len() && c[x].state == State::Free4K implies #[trigger] ln.contains(x as usize) by {
        assert(a[x].state == State::Free4K);
        assert(l4.contains(x as usize));
    }
    // 2 MiB list
    assert forall|k: int| 0 <= k < l2.len() implies {
        &&& !(o <= #[trigger] l2[k] < o + PAGES_PER_SUPERPAGE)
        &&& c[l2[k] as int].next_2mb == a[l2[k] as int].next_2mb
        &&& (k > 0 ==> c[l2[k] as int].prev_2mb == a[l2[k] as int].prev_2mb)
        &&& c[l2[k] as int].state == State::Free2MB
    } by {
        assert(own[l2[k] as int] == Some(l2[k]));
        lemma_blocks_disjoint(a, own, o, l2[k] as int);
        if k > 0 {
            assert(l2[k] != l2[0]);
        }
    }
    assert(l2n.no_duplicates()) by {
        assert forall|p: int, q: int| 0 <= p < l2n.len() && 0 <= q < l2n.len() && p != q implies l2n[p] != l2n[q] by {
            if p > 0 && q > 0 {
                assert(l2n[p] == l2[p - 1] && l2n[q] == l2[q - 1]);
            } else if p == 0 {
                assert(l2n[q] == l2[q - 1]);
            } else {
                assert(l2n[p] == l2[p - 1]);
            }
        }
    }
    assert forall|k: int| 0 <= k < l2n.len() implies {
        &&& own[#[trigger] l2n[k] as int] == Some(l2n[k])
        &&& c[l2n[k] as int].state == State::Free2MB
    } by {
        if k > 0 {
            assert(l2n[k] == l2[k - 1]);
        }
    }
    assert forall|h: int|
        0 <= h < c.len() && own[h] == Some(h as usize) && c[h].state == State::Free2MB implies #[trigger] l2n.contains(
            h as usize,
        ) by {
        if h != o {
            lemma_blocks_disjoint(a, own, o, h);
            assert(l2.contains(h as usize));
            let k = choose|k: int| 0 <= k < l2.len() && l2[k] == h as usize;
            assert(l2n[k + 1] == h as usize);
        } else {
            assert(l2n[0] == h as usize);
        }
    }
    assert(links_2mb(c, Some(o as usize), l2n)) by {
        assert forall|k: int| #![trigger l2n[k]] 0 <= k < l2n.len() implies {
            &&& l2n[k] < c.len()
            &&& c[l2n[k] as int].next_2mb == (if k + 1 < l2n.len() { Some(l2n[k + 1]) } else { None })
            &&& c[l2n[k] as int].prev_2mb == (if k == 0 { None } else { Some(l2n[k - 1]) })
        } by {
            if k > 0 {
                assert(l2n[k] == l2[k - 1]);
                if k == 1 {
                    assert(g0 == Some(l2[0]));
                }
            }
            if k + 1 < l2n.len() {
                assert(l2n[k + 1] == l2[k]);
            }
        }
    }
}

/// Returning a small page that makes its superpage wholly free is allowed and
/// keeps the invariant: the superpage's other pages leave the 4 KiB list,
/// whose other pages keep their order, and the superpage goes to the front of
/// the 2 MiB list as one free superpage;
/// its pages, all free small pages but the returned one, become `Free2MB`;
/// no other page changes state.
pub proof fn lemma_free_4k_merge_shaped(s: AllocState, l4: Seq<usize>, l2: Seq<usize>, own: Seq<Option<usize>>, i: int) -> (ln: Seq<usize>)
    requires
        shaped(s, l4, l2, own),
        0 <= i < s.pages.len(),
        s.pages[i].state == State::Alloc4K,
        release_merges(s.pages, i),
    ensures
        free_4k_ok(s.pages, i),
        shaped(free_4k_step(s, i), ln, seq![own[i].unwrap()] + l2, own),
        own[i] is Some,
        ln == l4.filter(|x: usize| !(own[i].unwrap() as int <= x < own[i].unwrap() as int + PAGES_PER_SUPERPAGE as nat && x != i)),
        forall|j: int| 0 <= j < PAGES_PER_SUPERPAGE ==> {
            &&& (#[trigger] s.pages[own[i].unwrap() + j]).state == (if own[i].unwrap() + j == i { State::Alloc4K } else { State::Free4K })
            &&& free_4k_step(s, i).pages[own[i].unwrap() + j].state == State::Free2MB
        },
        forall|x: int| 0 <= x < s.pages.len() && !(own[i].unwrap() <= x < own[i].unwrap() + PAGES_PER_SUPERPAGE)
            ==> (#[trigger] free_4k_step(s, i).pages[x]).state == s.pages[x].state && free_4k_step(s, i).pages[x].count
            == s.pages[x].count,
{
    let a = s.pages;
    let a2 = release_4k(a, i);
    assert(a[i].prev_2mb is Some);
    assert(own[i] is Some) by {
        if own[i] is None {
            assert(single_page_ok(a[i]));
        }
    }
    let o = own[i].unwrap() as int;
    assert(block_page_ok(a, o, i));
    assert(own[o] == Some(o as usize));
    assert(block_page_ok(a, o, o));
    assert(o + PAGES_PER_SUPERPAGE <= a.len());
    assert(a[i].prev_2mb == Some(o as usize));
    lemma_free_in_bound(a, o, PAGES_PER_SUPERPAGE as nat);
    assert(a[o].count <= PAGES_PER_SUPERPAGE);
    let a1 = with_state(a, i, State::Free4K);
    assert(a1[i].prev_2mb == Some(o as usize));
    assert(a2 == with_count(a1, o, (a1[o].count + 1) as i32));
    assert forall|x: int| 0 <= x < a.len() implies {
        &&& (#[trigger] a2[x]).state == (if x == i { State::Free4K } else { a[x].state })
        &&& a2[x].count == (if x == o { a[o].count + 1 } else { a[x].count as int })
        &&& a2[x].next_2mb == a[x].next_2mb
        &&& a2[x].prev_2mb == a[x].prev_2mb
        &&& a2[x].next_4k == a[x].next_4k
        &&& a2[x].prev_4k == a[x].prev_4k
    } by {}
    lemma_free_in_change(a, a2, o, PAGES_PER_SUPERPAGE as nat, i);
    lemma_free_in_full(a2, o, PAGES_PER_SUPERPAGE as nat);
    assert(a2[o].count == PAGES_PER_SUPERPAGE);
    assert(a2[o + 0].state == State::Free4K);
    assert(free_4k_ok(a, i));
    assert forall|j: int| 0 <= j < PAGES_PER_SUPERPAGE && o + j != i implies (#[trigger] a[o + j]).state == State::Free4K by {
        assert(a2[o + j].state == State::Free4K);
    }
    assert forall|j: int| 0 <= j < PAGES_PER_SUPERPAGE && o + j != i implies #[trigger] l4.contains((o + j) as usize) by {
        assert(a[o + j].state == State::Free4K);
    }
    assert(links_4k(a2, s.head_4k, l4));
    assert forall|x: int| 0 <= x < a2.len() implies fits_page(a2, (#[trigger] a2[x]).next_4k) && fits_page(a2, a2[x].prev_4k) by {
        assert(a[x] == a[x]);
    }
    let ln = lemma_unlink_block(a2, s.head_4k, l4, o, i, PAGES_PER_SUPERPAGE as nat);
    let (b1, h4) = unlink_block(a2, s.head_4k, o, i, PAGES_PER_SUPERPAGE as nat);
    if let Some(g) = s.head_2mb {
        assert(l2[0] == g);
        assert(own[g as int] == Some(g));
        assert(a[g as int].state == State::Free2MB);
        lemma_blocks_disjoint(a, own, o, g as int);
    }
    lemma_push_superpage_pages(b1, o, s.head_2mb);
    let c = push_superpage(b1, o, s.head_2mb);
    assert(fits_page(b1, h4)) by {
        if let Some(q) = h4 {
            assert(ln[0] == q);
        }
    }
    lemma_merge_core(s, l4, l2, own, i, o, b1, h4, ln, c);
    assert(free_4k_step(s, i) == AllocState { pages: c, head_4k: h4, head_2mb: Some(o as usize) });
    ln
}

} // verus!
