//! The allocator built at boot satisfies the central invariant: its 4 KiB
//! list holds exactly the single free pages, its 2 MiB list exactly the
//! superpages laid out after them.
use vstd::prelude::*;
use crate::page::{PageArrayElement, State, PAGES_PER_SUPERPAGE};
use crate::model::AllocState;
use crate::allocator::addressable;
use crate::boot::{
    initial_page, superpages_start, superpages_end, boot_head_4k, boot_head_2mb, lemma_initial_links_in_range,
};
use crate::shape::{shaped, valid, links_4k, links_2mb, owners_ok, block_page_ok, single_page_ok};

verus! {

/// The allocator state right after boot, for a page array of `a` with `nu`
/// unusable pages and `rem` single free pages.
pub open spec fn boot_state(a: Seq<PageArrayElement>, nu: int, rem: int) -> AllocState {
    AllocState {
        pages: a,
        head_4k: boot_head_4k(a.len() as int, nu, rem),
        head_2mb: boot_head_2mb(a.len() as int, nu, rem),
    }
}

/// The boot 4 KiB list: the single free pages in address order.
pub open spec fn boot_list_4k(len: int, nu: int, rem: int) -> Seq<usize> {
    Seq::new((superpages_start(len, nu, rem) - nu) as nat, |k: int| (nu + k) as usize)
}

/// The boot 2 MiB list: the superpages in address order.
pub open spec fn boot_list_2mb(len: int, nu: int, rem: int) -> Seq<usize> {
    let base = superpages_start(len, nu, rem);
    Seq::new(((superpages_end(len, nu, rem) - base) / 512) as nat, |k: int| (base + 512 * k) as usize)
}

/// The boot superpage layout: each page of a superpage names its first page.
pub open spec fn boot_owners(len: int, nu: int, rem: int) -> Seq<Option<usize>> {
    let base = superpages_start(len, nu, rem);
    let end = superpages_end(len, nu, rem);
    Seq::new(len as nat, |i: int| if base <= i < end { Some((i - (i - base) % 512) as usize) } else { None })
}

/// Where page `i` of the superpage area starting at `base` lies.
proof fn lemma_in_block(base: int, end: int, i: int)
    requires
        base <= i < end,
        (end - base) % 512 == 0,
    ensures
        ({
            let s = i - (i - base) % 512;
            &&& base <= s <= i < s + 512 <= end
            &&& (s - base) % 512 == 0
            &&& (s - base) / 512 == (i - base) / 512
            &&& 0 <= (i - base) / 512 < (end - base) / 512
            &&& s == base + 512 * ((i - base) / 512)
        }),
{
    let x = i - base;
    vstd::arithmetic::div_mod::lemma_fundamental_div_mod(x, 512);
    vstd::arithmetic::div_mod::lemma_fundamental_div_mod(end - base, 512);
    let q = x / 512;
    vstd::arithmetic::div_mod::lemma_fundamental_div_mod_converse(512 * q, 512, q, 0);
    assert(512 * q + 512 <= end - base) by (nonlinear_arith)
        requires
            512 * q <= x,
            x < end - base,
            end - base == 512 * ((end - base) / 512),
            q >= 0,
    {
        if (end - base) / 512 <= q {
            assert(512 * ((end - base) / 512) <= 512 * q);
        }
    }
    assert(q < (end - base) / 512) by (nonlinear_arith)
        requires
            512 * q + 512 <= end - base,
            end - base == 512 * ((end - base) / 512),
    ;
}

/// The `k`-th superpage of the area starting at `base`.
proof fn lemma_block_start(base: int, end: int, k: int)
    requires
        0 <= k < (end - base) / 512,
        (end - base) % 512 == 0,
        base <= end,
    ensures
        ({
            let s = base + 512 * k;
            &&& base <= s
            &&& s + 512 <= end
            &&& (s - base) % 512 == 0
            &&& (s - base) / 512 == k
        }),
{
    vstd::arithmetic::div_mod::lemma_fundamental_div_mod(end - base, 512);
    vstd::arithmetic::div_mod::lemma_fundamental_div_mod_converse(512 * k, 512, k, 0);
    assert(512 * k + 512 <= end - base) by (nonlinear_arith)
        requires
            k < (end - base) / 512,
            end - base == 512 * ((end - base) / 512),
    ;
}

proof fn lemma_boot_layout_facts(len: int, nu: int, rem: int)
    requires
        0 <= nu <= len,
        0 <= rem,
    ensures
        nu <= superpages_start(len, nu, rem) <= superpages_end(len, nu, rem) <= len,
        (superpages_end(len, nu, rem) - superpages_start(len, nu, rem)) % 512 == 0,
        superpages_start(len, nu, rem) > nu <==> rem > 0 && nu < len,
        superpages_start(len, nu, rem) + 512 <= len <==> superpages_end(len, nu, rem) > superpages_start(len, nu, rem),
{
    let base = superpages_start(len, nu, rem);
    let q = (len - base) / 512;
    vstd::arithmetic::div_mod::lemma_fundamental_div_mod(len - base, 512);
    vstd::arithmetic::div_mod::lemma_fundamental_div_mod_converse(512 * q, 512, q, 0);
    if base + 512 <= len {
        assert(q >= 1);
    }
}

/// The superpage layout of the boot page array.
#[verifier::spinoff_prover]
proof fn lemma_boot_owners(a: Seq<PageArrayElement>, nu: int, rem: int)
    requires
        0 <= nu <= a.len(),
        0 <= rem,
        a.len() <= usize::MAX,
        forall|i: int| 0 <= i < a.len() ==> a[i] == initial_page(a.len() as int, nu, rem, i),
    ensures
        owners_ok(a, boot_owners(a.len() as int, nu, rem)),
{
    let len = a.len() as int;
    let base = superpages_start(len, nu, rem);
    let end = superpages_end(len, nu, rem);
    let own = boot_owners(len, nu, rem);
    lemma_boot_layout_facts(len, nu, rem);
    assert forall|i: int|
        #![trigger own[i]]
        0 <= i < a.len() implies match own[i] {
            Some(h) => h <= i < h + PAGES_PER_SUPERPAGE && h + PAGES_PER_SUPERPAGE <= a.len() && own[h as int] == Some(h)
                && block_page_ok(a, h as int, i),
            None => single_page_ok(a[i]),
        } by {
        assert(a[i] == initial_page(len, nu, rem, i));
        if base <= i < end {
            lemma_in_block(base, end, i);
            let h = i - (i - base) % 512;
            assert(a[h] == initial_page(len, nu, rem, h));
            lemma_in_block(base, end, h);
        }
    }
    assert forall|h: int, j: int|
        #![trigger own[h], own[h + j]]
        0 <= h < a.len() && own[h] == Some(h as usize) && 0 <= j < PAGES_PER_SUPERPAGE implies own[h + j] == Some(
            h as usize,
        ) by {
        assert(base <= h < end);
        lemma_in_block(base, end, h);
        assert((h - base) % 512 == 0);
        assert(base <= h + j < end);
        lemma_in_block(base, end, h + j);
        crate::boot::lemma_block_offset(h - base, j);
    }
}

/// The 4 KiB list of the boot page array.
#[verifier::spinoff_prover]
proof fn lemma_boot_list_4k(a: Seq<PageArrayElement>, nu: int, rem: int)
    requires
        0 <= nu <= a.len(),
        0 <= rem,
        a.len() <= usize::MAX,
        forall|i: int| 0 <= i < a.len() ==> a[i] == initial_page(a.len() as int, nu, rem, i),
    ensures
        ({
            let s = boot_state(a, nu, rem);
            let l4 = boot_list_4k(a.len() as int, nu, rem);
            &&& links_4k(a, s.head_4k, l4)
            &&& forall|k: int| 0 <= k < l4.len() ==> a[#[trigger] l4[k] as int].state == State::Free4K
            &&& forall|i: int| 0 <= i < a.len() && a[i].state == State::Free4K ==> #[trigger] l4.contains(i as usize)
        }),
{
    let len = a.len() as int;
    let base = superpages_start(len, nu, rem);
    let end = superpages_end(len, nu, rem);
    let l4 = boot_list_4k(len, nu, rem);
    lemma_boot_layout_facts(len, nu, rem);
    assert forall|k: int| #![trigger l4[k]] 0 <= k < l4.len() implies {
        &&& l4[k] < a.len()
        &&& a[l4[k] as int].next_4k == (if k + 1 < l4.len() { Some(l4[k + 1]) } else { None })
        &&& a[l4[k] as int].prev_4k == (if k == 0 { None } else { Some(l4[k - 1]) })
        &&& a[l4[k] as int].state == State::Free4K
    } by {
        assert(a[nu + k] == initial_page(len, nu, rem, nu + k));
    }
    assert forall|i: int| 0 <= i < a.len() && a[i].state == State::Free4K implies #[trigger] l4.contains(i as usize) by {
        assert(a[i] == initial_page(len, nu, rem, i));
        if base <= i < end {
            lemma_in_block(base, end, i);
        }
        assert(l4[i - nu] == i as usize);
    }
}

/// The 2 MiB list of the boot page array.
#[verifier::spinoff_prover]
proof fn lemma_boot_list_2mb(a: Seq<PageArrayElement>, nu: int, rem: int)
    requires
        0 <= nu <= a.len(),
        0 <= rem,
        a.len() <= usize::MAX,
        forall|i: int| 0 <= i < a.len() ==> a[i] == initial_page(a.len() as int, nu, rem, i),
    ensures
        ({
            let s = boot_state(a, nu, rem);
            let l2 = boot_list_2mb(a.len() as int, nu, rem);
            let own = boot_owners(a.len() as int, nu, rem);
            &&& links_2mb(a, s.head_2mb, l2)
            &&& forall|k: int|
                0 <= k < l2.len() ==> own[#[trigger] l2[k] as int] == Some(l2[k]) && a[l2[k] as int].state == State::Free2MB
            &&& forall|h: int|
                0 <= h < a.len() && own[h] == Some(h as usize) && a[h].state == State::Free2MB ==> #[trigger] l2.contains(
                    h as usize,
                )
        }),
{
    let len = a.len() as int;
    let base = superpages_start(len, nu, rem);
    let end = superpages_end(len, nu, rem);
    let l2 = boot_list_2mb(len, nu, rem);
    let own = boot_owners(len, nu, rem);
    lemma_boot_layout_facts(len, nu, rem);
    assert forall|k: int| #![trigger l2[k]] 0 <= k < l2.len() implies {
        &&& l2[k] < a.len()
        &&& a[l2[k] as int].next_2mb == (if k + 1 < l2.len() { Some(l2[k + 1]) } else { None })
        &&& a[l2[k] as int].prev_2mb == (if k == 0 { None } else { Some(l2[k - 1]) })
        &&& own[l2[k] as int] == Some(l2[k])
        &&& a[l2[k] as int].state == State::Free2MB
    } by {
        lemma_block_start(base, end, k);
        let s = base + 512 * k;
        assert(a[s] == initial_page(len, nu, rem, s));
        if k + 1 < l2.len() {
            lemma_block_start(base, end, k + 1);
        }
    }
    assert(l2.no_duplicates()) by {
        assert forall|p: int, q: int| 0 <= p < l2.len() && 0 <= q < l2.len() && p != q implies l2[p] != l2[q] by {
            lemma_block_start(base, end, p);
            lemma_block_start(base, end, q);
        }
    }
    assert forall|h: int|
        0 <= h < a.len() && own[h] == Some(h as usize) && a[h].state == State::Free2MB implies #[trigger] l2.contains(
            h as usize,
        ) by {
        lemma_in_block(base, end, h);
        let k = (h - base) / 512;
        assert(l2[k] == h as usize);
    }
}

/// The allocator built at boot is valid: its 4 KiB list holds exactly the
/// single free pages in address order, its 2 MiB list exactly the laid-out
/// superpages in address order.
#[verifier::rlimit(60)]
#[verifier::spinoff_prover]
pub proof fn law_boot_allocator_valid(a: Seq<PageArrayElement>, nu: int, rem: int)
    requires
        0 <= nu <= a.len(),
        0 <= rem,
        addressable(a.len()),
        forall|i: int| 0 <= i < a.len() ==> a[i] == initial_page(a.len() as int, nu, rem, i),
    ensures
        shaped(
            boot_state(a, nu, rem),
            boot_list_4k(a.len() as int, nu, rem),
            boot_list_2mb(a.len() as int, nu, rem),
            boot_owners(a.len() as int, nu, rem),
        ),
        valid(boot_state(a, nu, rem)),
{
    let len = a.len() as int;
    assert(len <= usize::MAX) by (nonlinear_arith)
        requires
            len * 4096 <= usize::MAX + 1,
            len >= 0,
    ;
    let s = boot_state(a, nu, rem);
    let l4 = boot_list_4k(len, nu, rem);
    let l2 = boot_list_2mb(len, nu, rem);
    let own = boot_owners(len, nu, rem);
    assert(shaped(s, l4, l2, own)) by {
        lemma_boot_layout_facts(len, nu, rem);
        lemma_initial_links_in_range(a, nu, rem);
        lemma_boot_owners(a, nu, rem);
        lemma_boot_list_4k(a, nu, rem);
        lemma_boot_list_2mb(a, nu, rem);
    }
}

/// The boot page array, laid out with the remainder the boot plan computes
/// (`rem` is what is left of the `len - nu` useful pages after whole
/// superpages): the first `nu` pages are unavailable, the next `rem` pages
/// are single free pages, and every page after them is part of a free
/// superpage, the first page of each superpage (one in every 512 pages from
/// `nu + rem`) holding a full count. No useful page is lost and none of the
/// reserved pages is handed to the free lists.
pub proof fn law_boot_layout(a: Seq<PageArrayElement>, nu: int, rem: int)
    requires
        0 <= nu <= a.len(),
        rem == (a.len() - nu) % 512,
        forall|i: int| 0 <= i < a.len() ==> a[i] == initial_page(a.len() as int, nu, rem, i),
    ensures
        forall|i: int| 0 <= i < nu ==> (#[trigger] a[i]).state == State::Unavail,
        forall|i: int| nu <= i < nu + rem ==> (#[trigger] a[i]).state == State::Free4K,
        forall|i: int| nu + rem <= i < a.len() ==> (#[trigger] a[i]).state == State::Free2MB,
        forall|i: int|
            nu + rem <= i < a.len() ==> ((#[trigger] a[i]).count == PAGES_PER_SUPERPAGE <==> (i - nu - rem) % 512 == 0),
        nu + rem <= a.len(),
        (a.len() - nu - rem) % 512 == 0,
{
    let len = a.len() as int;
    vstd::arithmetic::div_mod::lemma_fundamental_div_mod(len - nu, 512);
    lemma_boot_layout_facts(len, nu, rem);
    let base = superpages_start(len, nu, rem);
    let end = superpages_end(len, nu, rem);
    assert(base == nu + rem);
    vstd::arithmetic::div_mod::lemma_fundamental_div_mod(len - base, 512);
    assert(len - base == 512 * ((len - nu) / 512));
    vstd::arithmetic::div_mod::lemma_fundamental_div_mod_converse(len - base, 512, (len - nu) / 512, 0);
    assert(end == len);
    assert forall|i: int| 0 <= i < len implies {
        &&& (i < nu ==> (#[trigger] a[i]).state == State::Unavail)
        &&& (nu <= i < base ==> a[i].state == State::Free4K)
        &&& (base <= i ==> a[i].state == State::Free2MB && (a[i].count == PAGES_PER_SUPERPAGE <==> (i - base) % 512 == 0))
    } by {
        assert(a[i] == initial_page(len, nu, rem, i));
        if base <= i {
            lemma_in_block(base, end, i);
        }
    }
}

/// Past the last whole superpage: a page at or after `end` whose superpage
/// would start at or after `end` does not fit before `len`.
proof fn lemma_past_blocks(base: int, len: int, i: int)
    requires
        0 <= base <= i < len,
        base + (len - base) / 512 * 512 <= i,
    ensures
        i - (i - base) % 512 + 512 > len,
{
    vstd::arithmetic::div_mod::lemma_fundamental_div_mod(len - base, 512);
    vstd::arithmetic::div_mod::lemma_fundamental_div_mod(i - base, 512);
    let q = (len - base) / 512;
    let qi = (i - base) / 512;
    assert(qi >= q) by (nonlinear_arith)
        requires
            512 * q <= i - base,
            i - base == 512 * qi + (i - base) % 512,
            0 <= (i - base) % 512 < 512,
    {
        if qi < q {
            assert(512 * qi + 512 <= 512 * q);
        }
    }
    assert(512 * qi >= 512 * q) by (nonlinear_arith)
        requires
            qi >= q,
    ;
}

/// The boot page array for any number `rem` of single pages: the first `nu`
/// pages are unavailable; the next `rem` (as far as memory goes) are single
/// free pages; after them, a page is part of a free superpage exactly when
/// its whole superpage (512 pages counted from the end of the single pages)
/// fits in memory, with a full count on the superpage's first page; the pages
/// left over at the end are blank, unavailable pages.
pub proof fn law_boot_layout_any(a: Seq<PageArrayElement>, nu: int, rem: int)
    requires
        0 <= nu <= a.len(),
        0 <= rem,
        forall|i: int| 0 <= i < a.len() ==> a[i] == initial_page(a.len() as int, nu, rem, i),
    ensures
        forall|i: int| 0 <= i < nu ==> (#[trigger] a[i]).state == State::Unavail,
        forall|i: int| nu <= i < nu + rem && i < a.len() ==> (#[trigger] a[i]).state == State::Free4K,
        forall|i: int|
            nu + rem <= i < a.len() ==> {
                &&& ((#[trigger] a[i]).state == State::Free2MB <==> i - (i - nu - rem) % 512 + 512 <= a.len())
                &&& (a[i].state != State::Free2MB ==> a[i] == PageArrayElement::spec_blank())
                &&& (a[i].count == PAGES_PER_SUPERPAGE <==> a[i].state == State::Free2MB && (i - nu - rem) % 512 == 0)
            },
{
    let len = a.len() as int;
    lemma_boot_layout_facts(len, nu, rem);
    let base = superpages_start(len, nu, rem);
    let end = superpages_end(len, nu, rem);
    assert forall|i: int| 0 <= i < len implies {
        &&& (i < nu ==> (#[trigger] a[i]).state == State::Unavail)
        &&& (nu <= i < nu + rem ==> a[i].state == State::Free4K)
        &&& (nu + rem <= i ==> {
            &&& (a[i].state == State::Free2MB <==> i - (i - nu - rem) % 512 + 512 <= len)
            &&& (a[i].state != State::Free2MB ==> a[i] == PageArrayElement::spec_blank())
            &&& (a[i].count == PAGES_PER_SUPERPAGE <==> a[i].state == State::Free2MB && (i - nu - rem) % 512 == 0)
        })
    } by {
        assert(a[i] == initial_page(len, nu, rem, i));
        if nu + rem <= i {
            assert(base == nu + rem);
            if i < end {
                lemma_in_block(base, end, i);
            } else {
                lemma_past_blocks(base, len, i);
            }
        }
    }
}

} // verus!
