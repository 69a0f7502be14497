//! Boot-time layout of the page array: counting the pages of the memory map,
//! placing the page array after the kernel, and laying out the free lists.
use vstd::prelude::*;
use crate::page::{PageArrayElement, State, PAGES_PER_SUPERPAGE};
use crate::allocator::{PhysicalAllocator, links_in_range, addressable, fits_page, fits_superpage};
use crate::model::{AllocState, alloc_4k_ok, alloc_2mb_ok};

verus! {

/// Add the number of whole 4 KiB pages of a memory area of `area_size` bytes
/// to `page_count`.
pub fn count_4k_pages(area_size: u64, page_count: &mut u64)
    requires
        *old(page_count) + area_size / 4096 <= u64::MAX,
    ensures
        *final(page_count) == *old(page_count) + area_size / 4096,
        (*final(page_count) - *old(page_count)) * 4096 <= area_size,
        area_size < (*final(page_count) - *old(page_count)) * 4096 + 4096,
{
    proof {
        vstd::arithmetic::div_mod::lemma_fundamental_div_mod(area_size as int, 4096);
    }
    *page_count += area_size / 4096;
}

/// Number of whole 4 KiB pages in memory areas of the given sizes.
pub open spec fn total_4k_pages(sizes: Seq<u64>) -> int
    decreases sizes.len(),
{
    if sizes.len() == 0 {
        0
    } else {
        total_4k_pages(sizes.drop_last()) + sizes.last() / 4096
    }
}

/// The pages of a memory map are the pages of its areas, each counted apart:
/// the count for two lists of areas together is the sum of their counts, and
/// one area of `size` bytes counts its whole 4 KiB pages.
pub proof fn law_total_4k_pages(s1: Seq<u64>, s2: Seq<u64>, size: u64)
    ensures
        total_4k_pages(s1 + s2) == total_4k_pages(s1) + total_4k_pages(s2),
        total_4k_pages(seq![size]) * 4096 <= size < total_4k_pages(seq![size]) * 4096 + 4096,
    decreases s2.len(),
{
    vstd::arithmetic::div_mod::lemma_fundamental_div_mod(size as int, 4096);
    assert(seq![size].drop_last() =~= Seq::<u64>::empty());
    assert(total_4k_pages(Seq::<u64>::empty()) == 0);
    assert(total_4k_pages(seq![size]) == size / 4096);
    if s2.len() > 0 {
        law_total_4k_pages(s1, s2.drop_last(), size);
        assert((s1 + s2).drop_last() =~= s1 + s2.drop_last());
        assert((s1 + s2).last() == s2.last());
    } else {
        assert(s1 + s2 =~= s1);
    }
}

/// Page counts that decide the boot layout.
#[derive(Clone, Copy, Debug, PartialEq, Eq, Structural)]
pub struct BootPlan {
    /// Number of 4 KiB pages of physical memory.
    pub four_k_page_count: u64,
    /// Number of whole superpages in that memory.
    pub two_mb_page_count: u64,
    /// Number of pages the page array itself occupies.
    pub page_array_pages: usize,
    /// Number of pages up to the end of the kernel image, rounded up.
    pub pages_up_to_kernel_end: u64,
    /// Number of pages after the kernel and the page array.
    pub useful_pages_count: u64,
    /// Number of pages before the first useful page.
    pub not_useful_pages_count: u64,
    /// Number of useful pages that cannot be part of a whole superpage.
    pub remainder: u64,
}

/// Pages needed to hold `count` page-array records of `element_size` bytes.
pub open spec fn page_array_pages_for(count: int, element_size: int) -> int {
    (count * element_size + 4095) / 4096
}

/// Pages that the kernel image ending at address `kernel_end` touches: the
/// end rounded up to a page boundary.
pub open spec fn kernel_pages(kernel_end: u64) -> int {
    if kernel_end % 4096 == 0 {
        (kernel_end / 4096) as int
    } else {
        kernel_end / 4096 + 1
    }
}

/// Inputs on which the boot layout is defined: the page array's size fits a
/// `usize` and the kernel and the page array fit in physical memory.
pub open spec fn plan_ok(four_k_page_count: u64, kernel_end: u64, element_size: usize) -> bool {
    &&& four_k_page_count <= usize::MAX
    &&& four_k_page_count * element_size + 4095 <= usize::MAX
    &&& kernel_pages(kernel_end) + page_array_pages_for(four_k_page_count as int, element_size as int) <= four_k_page_count
}

/// The boot plan computed for the given counts.
pub open spec fn is_boot_plan(plan: BootPlan, four_k_page_count: u64, kernel_end: u64, element_size: usize) -> bool {
    &&& plan.four_k_page_count == four_k_page_count
    &&& plan.two_mb_page_count == four_k_page_count / 512
    &&& plan.page_array_pages == page_array_pages_for(four_k_page_count as int, element_size as int)
    &&& plan.pages_up_to_kernel_end == kernel_pages(kernel_end)
    &&& plan.useful_pages_count == four_k_page_count - kernel_pages(kernel_end) - plan.page_array_pages
    &&& plan.not_useful_pages_count == four_k_page_count - plan.useful_pages_count
    &&& plan.remainder == plan.useful_pages_count % 512
}

/// What a boot plan is, stated by what each count must satisfy rather than by
/// how it is computed: the plan covers all `four_k_page_count` pages; the
/// number of 2 MiB pages is how many whole 2 MiB pages the memory holds,
/// whatever the kernel and the page array take; the kernel's pages are the
/// fewest that reach `kernel_end`; the page array's pages are the fewest that
/// hold one record per page; the useful pages are what the kernel and the page
/// array leave, and the unusable pages are exactly those two; the remainder is
/// what is left of the useful pages after whole superpages.
pub proof fn law_boot_plan(plan: BootPlan, four_k_page_count: u64, kernel_end: u64, element_size: usize)
    requires
        plan_ok(four_k_page_count, kernel_end, element_size),
        is_boot_plan(plan, four_k_page_count, kernel_end, element_size),
    ensures
        plan.four_k_page_count == four_k_page_count,
        plan.two_mb_page_count * 512 <= four_k_page_count < plan.two_mb_page_count * 512 + 512,
        plan.pages_up_to_kernel_end * 4096 >= kernel_end,
        plan.pages_up_to_kernel_end * 4096 < kernel_end + 4096,
        plan.page_array_pages * 4096 >= four_k_page_count * element_size,
        plan.page_array_pages * 4096 < four_k_page_count * element_size + 4096,
        plan.useful_pages_count + plan.pages_up_to_kernel_end + plan.page_array_pages == four_k_page_count,
        plan.not_useful_pages_count == plan.pages_up_to_kernel_end + plan.page_array_pages,
        plan.remainder < 512,
        plan.remainder <= plan.useful_pages_count,
        (plan.useful_pages_count - plan.remainder) % 512 == 0,
{
    let n = four_k_page_count as int;
    let k = kernel_end as int;
    let b = four_k_page_count * element_size;
    vstd::arithmetic::div_mod::lemma_fundamental_div_mod(n, 512);
    vstd::arithmetic::div_mod::lemma_fundamental_div_mod(k, 4096);
    vstd::arithmetic::div_mod::lemma_fundamental_div_mod(b + 4095, 4096);
    vstd::arithmetic::div_mod::lemma_fundamental_div_mod(plan.useful_pages_count as int, 512);
    let u = plan.useful_pages_count as int;
    vstd::arithmetic::div_mod::lemma_mod_multiples_basic(u / 512, 512);
    assert(u - u % 512 == (u / 512) * 512);
}

/// Compute the boot layout for `four_k_page_count` pages of memory, a kernel
/// ending at address `kernel_end` and page-array records of `element_size` bytes.
pub fn plan_boot(four_k_page_count: u64, kernel_end: u64, element_size: usize) -> (plan: BootPlan)
    requires
        plan_ok(four_k_page_count, kernel_end, element_size),
    ensures
        is_boot_plan(plan, four_k_page_count, kernel_end, element_size),
        plan.two_mb_page_count * 512 <= four_k_page_count < plan.two_mb_page_count * 512 + 512,
        plan.pages_up_to_kernel_end * 4096 >= kernel_end,
        plan.pages_up_to_kernel_end * 4096 < kernel_end + 4096,
        plan.useful_pages_count + plan.pages_up_to_kernel_end + plan.page_array_pages == four_k_page_count,
        plan.not_useful_pages_count == plan.pages_up_to_kernel_end + plan.page_array_pages,
{
    let page_array_size_bytes = four_k_page_count as usize * element_size;
    let page_array_pages = (page_array_size_bytes + 4095) / 4096;
    let two_mb_page_count = four_k_page_count / 512;
    let pages_up_to_kernel_end: u64 = if kernel_end % 4096 == 0 {
        kernel_end / 4096
    } else {
        kernel_end / 4096 + 1
    };
    let useful_pages_count: u64 = four_k_page_count - pages_up_to_kernel_end - (page_array_pages as u64);
    let not_useful_pages_count: u64 = four_k_page_count - useful_pages_count;
    let remainder: u64 = useful_pages_count % 512;
    let plan = BootPlan {
        four_k_page_count,
        two_mb_page_count,
        page_array_pages,
        pages_up_to_kernel_end,
        useful_pages_count,
        not_useful_pages_count,
        remainder,
    };
    proof {
        law_boot_plan(plan, four_k_page_count, kernel_end, element_size);
    }
    plan
}

/// First page after the pages that cannot be whole superpages: the useful
/// pages start at `nu` and the first `rem` of them (as far as the array goes)
/// are single pages.
pub open spec fn superpages_start(len: int, nu: int, rem: int) -> int {
    if rem <= len - nu {
        nu + rem
    } else {
        len
    }
}

/// End of the last whole superpage laid out from `superpages_start`.
pub open spec fn superpages_end(len: int, nu: int, rem: int) -> int {
    let base = superpages_start(len, nu, rem);
    base + (len - base) / 512 * 512
}

/// Record of page `i` in a page array of `len` pages whose superpages are laid
/// out from `superpages_start` up to `end`:
/// pages before `nu` are `Unavail` and chained through their 4 KiB links to
/// their neighbours among them; the next ones up to the superpages are
/// `Free4K` and chained the same way among themselves, so that they form the
/// 4 KiB free list; each superpage's first page is `Free2MB` with a full count and
/// is chained through its 2 MiB links to the neighbouring superpages, and its
/// other pages are `Free2MB` and name it as owner; the pages after `end` are
/// blank.
pub open spec fn laid_out_page(len: int, nu: int, rem: int, end: int, i: int) -> PageArrayElement {
    let base = superpages_start(len, nu, rem);
    if i < base {
        let first = if i < nu { 0 } else { nu };
        let last = if i < nu { nu } else { base };
        PageArrayElement {
            next_4k: if i + 1 < last { Some((i + 1) as usize) } else { None },
            prev_4k: if i == first { None } else { Some((i - 1) as usize) },
            next_2mb: None,
            prev_2mb: None,
            state: if i < nu { State::Unavail } else { State::Free4K },
            count: 0,
        }
    } else if i < end {
        let j = (i - base) % 512;
        let start = i - j;
        if j == 0 {
            PageArrayElement {
                next_4k: None,
                prev_4k: None,
                next_2mb: if start + 512 < end { Some((start + 512) as usize) } else { None },
                prev_2mb: if start == base { None } else { Some((start - 512) as usize) },
                state: State::Free2MB,
                count: 512,
            }
        } else {
            PageArrayElement {
                next_4k: None,
                prev_4k: None,
                next_2mb: None,
                prev_2mb: Some(start as usize),
                state: State::Free2MB,
                count: 0,
            }
        }
    } else {
        PageArrayElement::spec_blank()
    }
}

/// Record of page `i` of the boot page array of `len` pages with `nu` pages
/// before the first useful one and `rem` single useful pages.
pub open spec fn initial_page(len: int, nu: int, rem: int, i: int) -> PageArrayElement {
    laid_out_page(len, nu, rem, superpages_end(len, nu, rem), i)
}

pub proof fn lemma_block_offset(x: int, j: int)
    requires
        x >= 0,
        x % 512 == 0,
        0 <= j < 512,
    ensures
        (x + j) % 512 == j,
        (x + j) - j == x,
{
    vstd::arithmetic::div_mod::lemma_fundamental_div_mod(x, 512);
    vstd::arithmetic::div_mod::lemma_fundamental_div_mod_converse_mod(x + j, 512, x / 512, j);
}

/// Build the boot page array of `len` pages: the first `not_useful` pages are
/// unavailable, the next `remainder` pages are single free pages, and the
/// rest is cut into free superpages as far as whole ones fit.
pub fn build_page_array(len: usize, not_useful: usize, remainder: usize) -> (v: Vec<PageArrayElement>)
    requires
        not_useful <= len,
    ensures
        v@.len() == len,
        forall|i: int| 0 <= i < len ==> v@[i] == initial_page(len as int, not_useful as int, remainder as int, i),
{
    let ghost nu = not_useful as int;
    let ghost rm = remainder as int;
    let ghost base = superpages_start(len as int, nu, rm);
    let mut v: Vec<PageArrayElement> = Vec::new();
    // every record starts blank
    for idx in 0..len
        invariant
            v@.len() == idx,
            forall|i: int| 0 <= i < idx ==> v@[i] == PageArrayElement::spec_blank(),
    {
        v.push(PageArrayElement::blank());
    }
    // the pages before the first useful one are unavailable
    for idx in 0..not_useful
        invariant
            not_useful <= len,
            v@.len() == len,
            base == superpages_start(len as int, nu, rm),
            nu == not_useful,
            base >= nu,
            forall|i: int| 0 <= i < idx ==> v@[i] == laid_out_page(len as int, nu, rm, base, i),
            forall|i: int| idx <= i < len ==> v@[i] == PageArrayElement::spec_blank(),
    {
        let mut e = v[idx];
        e.state = State::Unavail;
        e.prev_4k = if idx == 0 { None } else { Some(idx - 1) };
        e.next_4k = if idx + 1 >= not_useful { None } else { Some(idx + 1) };
        v.set(idx, e);
    }
    // the useful pages that cannot be part of a superpage are free single pages
    let mut idx = not_useful;
    let mut rem = remainder;
    while rem > 0 && idx < len
        invariant
            not_useful <= idx <= len,
            v@.len() == len,
            nu == not_useful,
            rm == remainder,
            base == superpages_start(len as int, nu, rm),
            idx - nu + rem == rm,
            rem <= remainder,
            forall|i: int| 0 <= i < idx ==> v@[i] == laid_out_page(len as int, nu, rm, base, i),
            forall|i: int| idx <= i < len ==> v@[i] == PageArrayElement::spec_blank(),
        decreases rem,
    {
        let mut e = v[idx];
        e.state = State::Free4K;
        e.prev_4k = if idx == not_useful { None } else { Some(idx - 1) };
        e.next_4k = if rem == 1 || idx + 1 >= len { None } else { Some(idx + 1) };
        v.set(idx, e);
        idx += 1;
        rem -= 1;
    }
    assert(idx == base);
    // the rest is cut into whole superpages
    let mut counter_2mb_pages_init: usize = 0;
    while len >= 512 && idx <= len - 512
        invariant
            base <= idx <= len,
            v@.len() == len,
            nu == not_useful,
            rm == remainder,
            base == superpages_start(len as int, nu, rm),
            idx == base + 512 * counter_2mb_pages_init,
            forall|i: int| 0 <= i < idx ==> v@[i] == laid_out_page(len as int, nu, rm, idx as int, i),
            forall|i: int| idx <= i < len ==> v@[i] == PageArrayElement::spec_blank(),
        decreases len - idx,
    {
        proof {
            vstd::arithmetic::div_mod::lemma_fundamental_div_mod_converse_mod(idx - base, 512, counter_2mb_pages_init as int, 0);
        }
        let head = idx;
        if counter_2mb_pages_init == 0 {
            let mut e = v[head];
            e.prev_2mb = None;
            v.set(head, e);
        } else {
            let mut e = v[head];
            e.prev_2mb = Some(idx - 512);
            v.set(head, e);
            let mut f = v[idx - 512];
            f.next_2mb = Some(head);
            v.set(idx - 512, f);
        }
        let mut e = v[head];
        e.state = State::Free2MB;
        e.count = 512;
        v.set(head, e);
        let ghost mid_v = v@;
        proof {
            assert forall|i: int| 0 <= i < idx implies mid_v[i] == laid_out_page(len as int, nu, rm, idx + 512, i) by {
                if base <= i {
                    let x = i - base;
                    vstd::arithmetic::div_mod::lemma_fundamental_div_mod(x, 512);
                    if i == idx - 512 {
                        vstd::arithmetic::div_mod::lemma_fundamental_div_mod_converse_mod(
                            x,
                            512,
                            counter_2mb_pages_init - 1,
                            0,
                        );
                    }
                }
            }
        }
        let mut j: usize = 0;
        while j < 512
            invariant
                j <= 512,
                base <= idx,
                idx + 512 <= len,
                v@.len() == len,
                mid_v.len() == len,
                head == idx,
                (idx - base) % 512 == 0,
                forall|i: int| 0 <= i < idx ==> v@[i] == laid_out_page(len as int, nu, rm, idx + 512, i),
                forall|i: int| idx + j <= i < len ==> v@[i] == mid_v[i],
                forall|i: int| idx < i < len ==> mid_v[i] == PageArrayElement::spec_blank(),
                forall|i: int| idx <= i < idx + j ==> v@[i] == laid_out_page(len as int, nu, rm, idx + 512, i),
                base == superpages_start(len as int, nu, rm),
                mid_v[idx as int].prev_2mb == (if idx == base { None } else { Some((idx - 512) as usize) }),
                mid_v[idx as int].next_2mb is None,
            decreases 512 - j,
        {
            let pidx = idx + j;
            let mut e = v[pidx];
            e.state = State::Free2MB;
            e.count = if j == 0 { 512 } else { 0 };
            e.prev_4k = None;
            e.next_4k = None;
            if j != 0 {
                e.prev_2mb = Some(head);
                e.next_2mb = None;
            }
            v.set(pidx, e);
            proof {
                lemma_block_offset(idx - base, j as int);
            }
            j += 1;
        }
        assert forall|i: int| idx + 512 <= i < len implies v@[i] == PageArrayElement::spec_blank() by {
            assert(v@[i] == mid_v[i]);
            assert(idx < i < len);
            assert(mid_v[i] == PageArrayElement::spec_blank());
        }
        counter_2mb_pages_init += 1;
        idx += 512;
    }
    proof {
        vstd::arithmetic::div_mod::lemma_fundamental_div_mod_converse_div(
            len - base,
            512,
            counter_2mb_pages_init as int,
            len - idx,
        );
        assert(idx == superpages_end(len as int, nu, rm));
    }
    v
}

/// Every page of the boot page array has its links inside the array.
pub proof fn lemma_initial_links_in_range(a: Seq<PageArrayElement>, nu: int, rem: int)
    requires
        0 <= nu <= a.len(),
        0 <= rem,
        addressable(a.len()),
        forall|i: int| 0 <= i < a.len() ==> a[i] == initial_page(a.len() as int, nu, rem, i),
    ensures
        links_in_range(a),
{
    let len = a.len() as int;
    let base = superpages_start(len, nu, rem);
    let end = superpages_end(len, nu, rem);
    vstd::arithmetic::div_mod::lemma_fundamental_div_mod(len - base, 512);
    assert(end <= len);
    assert forall|i: int| #![trigger a[i]] 0 <= i < a.len() implies {
        &&& fits_page(a, a[i].next_4k)
        &&& fits_page(a, a[i].prev_4k)
        &&& fits_superpage(a, a[i].next_2mb)
        &&& fits_superpage(a, a[i].prev_2mb)
        &&& (a[i].count == PAGES_PER_SUPERPAGE ==> i + PAGES_PER_SUPERPAGE <= a.len())
    } by {
        if base <= i < end {
            let x = i - base;
            vstd::arithmetic::div_mod::lemma_fundamental_div_mod(x, 512);
            assert(x % 512 >= 0);
            assert(x / 512 < (len - base) / 512);
        }
    }
}

/// Where the free lists of the boot page array start: the first `Free4K`
/// page is the first useful page when there are single pages, and the first
/// free superpage starts where the single pages end, when a whole one fits.
pub proof fn lemma_initial_first_free(a: Seq<PageArrayElement>, nu: int, rem: int)
    requires
        0 <= nu <= a.len(),
        0 <= rem,
        forall|i: int| 0 <= i < a.len() ==> a[i] == initial_page(a.len() as int, nu, rem, i),
    ensures
        rem > 0 && nu < a.len() ==> a[nu].state == State::Free4K && forall|j: int| 0 <= j < nu ==> a[j].state != State::Free4K,
        !(rem > 0 && nu < a.len()) ==> forall|j: int| 0 <= j < a.len() ==> a[j].state != State::Free4K,
        superpages_start(a.len() as int, nu, rem) + 512 <= a.len() ==> crate::allocator::is_superpage_head(
            a[superpages_start(a.len() as int, nu, rem)],
        ) && forall|j: int|
            0 <= j < superpages_start(a.len() as int, nu, rem) ==> !crate::allocator::is_superpage_head(#[trigger] a[j]),
        superpages_start(a.len() as int, nu, rem) + 512 > a.len() ==> forall|j: int|
            0 <= j < a.len() ==> !crate::allocator::is_superpage_head(#[trigger] a[j]),
{
    let len = a.len() as int;
    let base = superpages_start(len, nu, rem);
    let end = superpages_end(len, nu, rem);
    vstd::arithmetic::div_mod::lemma_fundamental_div_mod(len - base, 512);
    if !(rem > 0 && nu < len) {
        assert forall|j: int| 0 <= j < len implies a[j].state != State::Free4K by {
            if base <= j < end {
                vstd::arithmetic::div_mod::lemma_fundamental_div_mod(j - base, 512);
            }
        }
    }
    if base + 512 <= len {
        assert((base - base) % 512 == 0);
        assert(a[base] == initial_page(len, nu, rem, base));
    } else {
        assert(end == base) by {
            assert((len - base) / 512 == 0);
        }
    }
}

/// List head of the boot allocator's 4 KiB list: the first useful page when
/// there are single free pages.
pub open spec fn boot_head_4k(len: int, nu: int, rem: int) -> Option<usize> {
    if rem > 0 && nu < len {
        Some(nu as usize)
    } else {
        None
    }
}

/// List head of the boot allocator's 2 MiB list: the first superpage, when a
/// whole one fits.
pub open spec fn boot_head_2mb(len: int, nu: int, rem: int) -> Option<usize> {
    if superpages_start(len, nu, rem) + 512 <= len {
        Some(superpages_start(len, nu, rem) as usize)
    } else {
        None
    }
}

/// The heads that installation picks in the boot page array.
proof fn lemma_boot_heads(a: Seq<PageArrayElement>, nu: int, rem: int, h4: Option<usize>, h2: Option<usize>)
    requires
        0 <= nu <= a.len(),
        0 <= rem,
        forall|i: int| 0 <= i < a.len() ==> a[i] == initial_page(a.len() as int, nu, rem, i),
        rem > 0 && nu < a.len() ==> a[nu].state == State::Free4K && forall|j: int| 0 <= j < nu ==> a[j].state != State::Free4K,
        !(rem > 0 && nu < a.len()) ==> forall|j: int| 0 <= j < a.len() ==> a[j].state != State::Free4K,
        superpages_start(a.len() as int, nu, rem) + 512 <= a.len() ==> crate::allocator::is_superpage_head(
            a[superpages_start(a.len() as int, nu, rem)],
        ) && forall|j: int|
            0 <= j < superpages_start(a.len() as int, nu, rem) ==> !crate::allocator::is_superpage_head(#[trigger] a[j]),
        superpages_start(a.len() as int, nu, rem) + 512 > a.len() ==> forall|j: int|
            0 <= j < a.len() ==> !crate::allocator::is_superpage_head(#[trigger] a[j]),
        match h4 {
            Some(i) => i < a.len() && a[i as int].state == State::Free4K
                && forall|j: int| 0 <= j < i ==> a[j].state != State::Free4K,
            None => forall|j: int| 0 <= j < a.len() ==> a[j].state != State::Free4K,
        },
        match h2 {
            Some(i) => i < a.len() && crate::allocator::is_superpage_head(a[i as int])
                && forall|j: int| 0 <= j < i ==> !crate::allocator::is_superpage_head(a[j]),
            None => forall|j: int| 0 <= j < a.len() ==> !crate::allocator::is_superpage_head(a[j]),
        },
    ensures
        h4 == boot_head_4k(a.len() as int, nu, rem),
        h2 == boot_head_2mb(a.len() as int, nu, rem),
{
    let base = superpages_start(a.len() as int, nu, rem);
    if let Some(i) = h2 {
        if base + 512 <= a.len() {
            assert(!(i < base));
            assert(!(i > base));
        }
    } else {
        if base + 512 <= a.len() {
            assert(crate::allocator::is_superpage_head(a[base]));
        }
    }
}

/// Prefix sums of page counts never exceed the total.
proof fn lemma_total_prefix(s: Seq<u64>, i: int)
    requires
        0 <= i < s.len(),
    ensures
        total_4k_pages(s.take(i + 1)) == total_4k_pages(s.take(i)) + s[i] / 4096,
        total_4k_pages(s.take(i + 1)) <= total_4k_pages(s),
    decreases s.len() - i,
{
    assert(s.take(i + 1).drop_last() =~= s.take(i));
    if i + 1 < s.len() {
        lemma_total_prefix(s, i + 1);
    } else {
        assert(s.take(i + 1) =~= s);
    }
}

/// Inputs on which boot initialization is defined: the page count of the
/// memory map fits a `u64` and the layout is defined for it.
pub open spec fn init_ok(area_sizes: Seq<u64>, kernel_end: u64, element_size: usize) -> bool {
    &&& total_4k_pages(area_sizes) <= u64::MAX
    &&& plan_ok(total_4k_pages(area_sizes) as u64, kernel_end, element_size)
}

/// Build the allocator at boot from the sizes of the usable memory areas, the
/// end address of the kernel image and the size of a page-array record: count
/// the pages, plan the layout, lay out the page array and install it.
/// Returns the allocator and the plan it was built from.
pub fn init_alloc(area_sizes: &Vec<u64>, kernel_end: u64, element_size: usize) -> (r: (PhysicalAllocator, BootPlan))
    requires
        init_ok(area_sizes@, kernel_end, element_size),
    ensures
        is_boot_plan(r.1, total_4k_pages(area_sizes@) as u64, kernel_end, element_size),
        r.1.two_mb_page_count * 512 <= total_4k_pages(area_sizes@) < r.1.two_mb_page_count * 512 + 512,
        r.0.pages().len() == total_4k_pages(area_sizes@),
        forall|i: int| 0 <= i < r.0.pages().len() ==> r.0.pages()[i] == initial_page(
            r.0.pages().len() as int,
            r.1.not_useful_pages_count as int,
            r.1.remainder as int,
            i,
        ),
        r.0.is_initialized(),
        r.0.first_usable() == r.1.not_useful_pages_count,
        r.0.head_4k() == boot_head_4k(r.0.pages().len() as int, r.1.not_useful_pages_count as int, r.1.remainder as int),
        r.0.head_2mb() == boot_head_2mb(r.0.pages().len() as int, r.1.not_useful_pages_count as int, r.1.remainder as int),
        addressable(r.0.pages().len()) ==> r.0.wf(),
        addressable(r.0.pages().len()) ==> crate::shape::valid(r.0.model()),
        forall|i: int| 0 <= i < r.0.pages().len() ==> (#[trigger] r.0.pages()[i]).state == (if i < r.1.not_useful_pages_count {
            State::Unavail
        } else if i < r.1.not_useful_pages_count + r.1.remainder {
            State::Free4K
        } else {
            State::Free2MB
        }),
{
    let mut four_k_page_count: u64 = 0;
    let n = area_sizes.len();
    for k in 0..n
        invariant
            n == area_sizes@.len(),
            init_ok(area_sizes@, kernel_end, element_size),
            four_k_page_count == total_4k_pages(area_sizes@.take(k as int)),
    {
        proof {
            lemma_total_prefix(area_sizes@, k as int);
        }
        count_4k_pages(area_sizes[k], &mut four_k_page_count);
    }
    proof {
        assert(area_sizes@.take(n as int) =~= area_sizes@);
    }
    let plan = plan_boot(four_k_page_count, kernel_end, element_size);
    let len = four_k_page_count as usize;
    let not_useful = plan.not_useful_pages_count as usize;
    let remainder = plan.remainder as usize;
    let page_array = build_page_array(len, not_useful, remainder);
    let ghost a = page_array@;
    let mut allocator = PhysicalAllocator::new_empty();
    allocator.install_page_array(page_array, not_useful);
    proof {
        if addressable(len as nat) {
            lemma_initial_links_in_range(a, not_useful as int, remainder as int);
        }
        lemma_initial_first_free(a, not_useful as int, remainder as int);
        lemma_boot_heads(a, not_useful as int, remainder as int, allocator.head_4k(), allocator.head_2mb());
        assert(remainder as int == (len - not_useful) % 512);
        crate::boot_shape::law_boot_layout(a, not_useful as int, remainder as int);
        if addressable(len as nat) {
            crate::boot_shape::law_boot_allocator_valid(a, not_useful as int, remainder as int);
            assert(allocator.model() == crate::boot_shape::boot_state(a, not_useful as int, remainder as int));
        }
    }
    (allocator, plan)
}

/// The allocator built at boot can serve its first 4 KiB and its first 2 MiB
/// request: both lie within the preconditions of `alloc_4k` and `alloc_2mb`.
pub proof fn law_boot_allocator_serves_first_requests(a: Seq<PageArrayElement>, nu: int, rem: int)
    requires
        0 <= nu <= a.len(),
        0 <= rem,
        forall|i: int| 0 <= i < a.len() ==> a[i] == initial_page(a.len() as int, nu, rem, i),
        a.len() <= usize::MAX,
    ensures
        ({
            let s = AllocState {
                pages: a,
                head_4k: boot_head_4k(a.len() as int, nu, rem),
                head_2mb: boot_head_2mb(a.len() as int, nu, rem),
            };
            alloc_4k_ok(s, true) && alloc_2mb_ok(s)
        }),
{
    let len = a.len() as int;
    let base = superpages_start(len, nu, rem);
    if base + 512 <= len {
        lemma_boot_first_superpage(a, nu, rem);
    }
    if rem > 0 && nu < len {
        assert(a[nu] == initial_page(len, nu, rem, nu));
        assert(a[nu].prev_2mb is None);
    } else if base + 512 <= len {
        let a2 = crate::model::split_and_detach(a, base);
        let h = base + 511;
        assert(a2[h].prev_2mb == Some(base as usize));
        assert(a2[h].next_2mb is None);
        assert(a2[base].count == 512);
    }
}

/// The first superpage of the boot page array is a full free superpage whose
/// other pages name it as owner.
proof fn lemma_boot_first_superpage(a: Seq<PageArrayElement>, nu: int, rem: int)
    requires
        0 <= nu <= a.len(),
        0 <= rem,
        forall|i: int| 0 <= i < a.len() ==> a[i] == initial_page(a.len() as int, nu, rem, i),
        superpages_start(a.len() as int, nu, rem) + 512 <= a.len(),
        a.len() <= usize::MAX,
    ensures
        crate::model::split_ok(a, superpages_start(a.len() as int, nu, rem)),
        a[superpages_start(a.len() as int, nu, rem) + 511].prev_2mb == Some(superpages_start(a.len() as int, nu, rem) as usize),
        a[superpages_start(a.len() as int, nu, rem) + 511].next_2mb is None,
        a[superpages_start(a.len() as int, nu, rem)].next_2mb != Some((superpages_start(a.len() as int, nu, rem) + 511) as usize),
{
    let len = a.len() as int;
    let base = superpages_start(len, nu, rem);
    let end = superpages_end(len, nu, rem);
    vstd::arithmetic::div_mod::lemma_fundamental_div_mod(len - base, 512);
    assert(end >= base + 512) by {
        assert((len - base) / 512 >= 1);
    }
    lemma_block_offset(0, 0);
    assert(a[base] == initial_page(len, nu, rem, base));
    assert forall|j: int| 0 < j < PAGES_PER_SUPERPAGE implies (#[trigger] a[base + j]).prev_2mb == Some(base as usize) by {
        lemma_block_offset(0, j);
        assert(a[base + j] == initial_page(len, nu, rem, base + j));
    }
    assert(a[base + 511] == initial_page(len, nu, rem, base + 511));
}

} // verus!
