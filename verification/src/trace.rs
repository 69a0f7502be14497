//! Runs of requests: from a valid allocator, whatever requests come, every
//! live allocation is handed out and no two live allocations overlap, so no
//! page is handed out twice.
use vstd::prelude::*;
use crate::page::{PageArrayElement, State, PAGE_SIZE, PAGES_PER_SUPERPAGE, page_index_of};
use crate::model::{AllocState, allocate_step, dealloc_step, wants_small};
use crate::shape::valid;
use crate::laws::{handed_out, is_free, law_allocate, law_alloc_2mb, law_dealloc};

verus! {

/// A request made of the allocator: memory of a size and an alignment, or
/// the return of the memory at an address.
pub enum Request {
    Allocate(usize, usize),
    Release(usize),
}

/// The allocator after serving `r`, and the address it answers (0 for a release).
pub open spec fn serve(s: AllocState, r: Request) -> (AllocState, usize) {
    match r {
        Request::Allocate(size, align) => allocate_step(s, size, align),
        Request::Release(ptr) => (dealloc_step(s, true, ptr), 0usize),
    }
}

/// The allocator after serving the requests `rs` in order.
pub open spec fn run(s: AllocState, rs: Seq<Request>) -> AllocState
    decreases rs.len(),
{
    if rs.len() == 0 {
        s
    } else {
        serve(run(s, rs.drop_last()), rs.last()).0
    }
}

/// First pages of the allocations live after `rs`: those answered with a
/// non-zero address and not returned since.
pub open spec fn live(s: AllocState, rs: Seq<Request>) -> Set<int>
    decreases rs.len(),
{
    if rs.len() == 0 {
        Set::empty()
    } else {
        let before = live(s, rs.drop_last());
        match rs.last() {
            Request::Allocate(size, align) => {
                let r = allocate_step(run(s, rs.drop_last()), size, align).1;
                if r != 0 {
                    before.insert((r / PAGE_SIZE) as int)
                } else {
                    before
                }
            },
            Request::Release(ptr) => before.remove((ptr / PAGE_SIZE) as int),
        }
    }
}

/// Whether every release in `rs` returns a live allocation by its address.
pub open spec fn proper(s: AllocState, rs: Seq<Request>) -> bool
    decreases rs.len(),
{
    if rs.len() == 0 {
        true
    } else {
        &&& proper(s, rs.drop_last())
        &&& rs.last() matches Request::Release(ptr) ==> {
            &&& ptr != 0
            &&& ptr % PAGE_SIZE == 0
            &&& live(s, rs.drop_last()).contains((ptr / PAGE_SIZE) as int)
        }
    }
}

/// Pages that the allocation starting at page `p` covers.
pub open spec fn extent(a: Seq<PageArrayElement>, p: int) -> int {
    if a[p].state == State::Alloc2MB {
        PAGES_PER_SUPERPAGE as int
    } else {
        1
    }
}

/// Every allocation in `l` starts at a small page or at the first page of a
/// superpage handed out whole, all its pages are handed out, and no two of
/// them share a page.
pub open spec fn live_ok(t: AllocState, l: Set<int>) -> bool {
    &&& forall|p: int|
        #[trigger] l.contains(p) ==> 0 <= p < t.pages.len() && (t.pages[p].state == State::Alloc4K || (t.pages[p].state
            == State::Alloc2MB && t.pages[p].count == PAGES_PER_SUPERPAGE))
    &&& forall|p: int, j: int|
        #![trigger l.contains(p), t.pages[p + j]]
        l.contains(p) && 0 <= j < extent(t.pages, p) ==> p + j < t.pages.len() && handed_out(t.pages[p + j])
    &&& forall|p: int, q: int|
        #![trigger l.contains(p), l.contains(q)]
        l.contains(p) && l.contains(q) && p != q ==> p + extent(t.pages, p) <= q || q + extent(t.pages, q) <= p
}

/// Serving a request keeps the live allocations handed out and apart.
#[verifier::rlimit(40)]
#[verifier::spinoff_prover]
proof fn lemma_serve_keeps_live(t: AllocState, l: Set<int>, r: Request)
    requires
        valid(t),
        live_ok(t, l),
        r matches Request::Release(ptr) ==> ptr != 0 && ptr % PAGE_SIZE == 0 && l.contains((ptr / PAGE_SIZE) as int),
    ensures
        valid(serve(t, r).0),
        live_ok(
            serve(t, r).0,
            match r {
                Request::Allocate(size, align) => if serve(t, r).1 != 0 {
                    l.insert((serve(t, r).1 / PAGE_SIZE) as int)
                } else {
                    l
                },
                Request::Release(ptr) => l.remove((ptr / PAGE_SIZE) as int),
            },
        ),
{
    let a = t.pages;
    match r {
        Request::Allocate(size, align) => {
            let (t2, addr) = allocate_step(t, size, align);
            let b = t2.pages;
            law_allocate(t, size, align);
            law_alloc_2mb(t);
            let i = (addr / PAGE_SIZE) as int;
            let l2 = if addr != 0 { l.insert(i) } else { l };
            assert forall|p: int| #[trigger] l.contains(p) implies b[p].state == a[p].state && extent(b, p) == extent(a, p)
                && (a[p].state == State::Alloc2MB ==> b[p].count == a[p].count) by {
                assert(handed_out(a[p]));
            }
            if addr != 0 {
                // the new allocation covers pages that were free
                let big = !wants_small(size, align);
                if big {
                    assert(t.head_2mb is Some);
                    assert(i == t.head_2mb.unwrap());
                }
                assert forall|j: int| 0 <= j < extent(b, i) implies i + j < a.len() && is_free(#[trigger] a[i + j])
                    && handed_out(b[i + j]) by {
                    if big {
                        assert(a[i + j].state == State::Free2MB);
                    }
                }
            }
            assert forall|p: int, j: int|
                #![trigger l2.contains(p), b[p + j]]
                l2.contains(p) && 0 <= j < extent(b, p) implies p + j < b.len() && handed_out(b[p + j]) by {
                if l.contains(p) {
                    assert(a[p + j] == a[p + j]);
                    assert(handed_out(a[p + j]));
                }
            }
            assert forall|p: int, q: int|
                #![trigger l2.contains(p), l2.contains(q)]
                l2.contains(p) && l2.contains(q) && p != q implies p + extent(b, p) <= q || q + extent(b, q) <= p by {
                if l.contains(p) && l.contains(q) {
                } else if l.contains(p) {
                    // q is the new allocation
                    if p <= q < p + extent(a, p) {
                        assert(handed_out(a[p + (q - p)]));
                        assert(is_free(a[q + 0]));
                    } else if q <= p < q + extent(b, q) {
                        assert(is_free(a[q + (p - q)]));
                    }
                } else if l.contains(q) {
                    if q <= p < q + extent(a, q) {
                        assert(handed_out(a[q + (p - q)]));
                        assert(is_free(a[p + 0]));
                    } else if p <= q < p + extent(b, p) {
                        assert(is_free(a[p + (q - p)]));
                    }
                }
            }
        },
        Request::Release(ptr) => {
            let p0 = (ptr / PAGE_SIZE) as int;
            assert(page_index_of(a.len(), ptr) == Some(p0 as usize));
            law_dealloc(t, true, ptr);
            let b = dealloc_step(t, true, ptr).pages;
            let l2 = l.remove(p0);
            assert forall|p: int| #[trigger] l2.contains(p) implies b[p].state == a[p].state && extent(b, p) == extent(a, p)
                && (a[p].state == State::Alloc2MB ==> b[p].count == a[p].count) by {
                assert(l.contains(p0) && l.contains(p) && p != p0);
                assert(handed_out(a[p]));
            }
            assert forall|p: int, j: int|
                #![trigger l2.contains(p), b[p + j]]
                l2.contains(p) && 0 <= j < extent(b, p) implies p + j < b.len() && handed_out(b[p + j]) by {
                assert(l.contains(p0) && l.contains(p) && p != p0);
                assert(handed_out(a[p + j]));
            }
            assert forall|p: int, q: int|
                #![trigger l2.contains(p), l2.contains(q)]
                l2.contains(p) && l2.contains(q) && p != q implies p + extent(b, p) <= q || q + extent(b, q) <= p by {
                assert(l.contains(p) && l.contains(q));
            }
        },
    }
}

/// From a valid allocator, serving any requests whose releases return live
/// allocations keeps the allocator valid, keeps every live allocation handed
/// out, and never lets two live allocations share a page: no page is handed
/// out twice.
pub proof fn law_live_allocations_disjoint(s: AllocState, rs: Seq<Request>)
    requires
        valid(s),
        proper(s, rs),
    ensures
        valid(run(s, rs)),
        live_ok(run(s, rs), live(s, rs)),
    decreases rs.len(),
{
    if rs.len() > 0 {
        let pre = rs.drop_last();
        law_live_allocations_disjoint(s, pre);
        lemma_serve_keeps_live(run(s, pre), live(s, pre), rs.last());
    }
}

} // verus!
