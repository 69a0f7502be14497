use physalloc::allocator::PhysicalAllocator;
use physalloc::boot::{build_page_array, count_4k_pages, init_alloc, plan_boot};
use physalloc::page::{PageArrayElement, State};
use physalloc::selftest::{large_vec, simple_allocation, small_vec};

const PAGE: usize = 4096;

/// 1200 pages, kernel up to page 20, 40-byte records: 12 pages of page
/// array, 32 pages unusable, 144 single pages, superpages at 176 and 688.
fn boot_with_singles() -> PhysicalAllocator {
    let (a, _plan) = init_alloc(&vec![600 * 4096, 600 * 4096], 20 * 4096, 40);
    a
}

/// 1100 pages, 52 of them unusable, no single pages: superpages at 52 and 564.
fn boot_without_singles() -> PhysicalAllocator {
    let mut a = PhysicalAllocator::new_empty();
    a.install_page_array(build_page_array(1100, 52, 0), 52);
    a
}

#[test]
fn new_empty_is_empty() {
    let mut a = PhysicalAllocator::new_empty();
    assert_eq!(a.page_array_len(), 0);
    assert_eq!(a.free_4k_head(), None);
    assert_eq!(a.free_2mb_head(), None);
    assert!(!a.initialized());
    assert_eq!(a.first_usable_page_index(), 0);
    assert_eq!(a.alloc_4k(), 0);
    assert_eq!(a.alloc_2mb(), 0);
}

#[test]
fn free_before_install_is_ignored() {
    let mut a = PhysicalAllocator::new_empty();
    a.free_4k(4096);
    a.free_2mb(4096);
    a.dealloc(4096);
    assert_eq!(a.free_4k_head(), None);
    assert_eq!(a.free_2mb_head(), None);
}

#[test]
fn index_for_ptr_checks_alignment_and_range() {
    let a = boot_with_singles();
    assert_eq!(a.index_for_ptr(0), Some(0));
    assert_eq!(a.index_for_ptr(4096 * 7), Some(7));
    assert_eq!(a.index_for_ptr(4096 * 7 + 1), None);
    assert_eq!(a.index_for_ptr(4096 * 1199), Some(1199));
    assert_eq!(a.index_for_ptr(4096 * 1200), None);
}

#[test]
fn phys_for_index_round_trip() {
    let a = boot_with_singles();
    for i in [0usize, 1, 31, 32, 176, 1199] {
        let addr = a.phys_for_index(i);
        assert_eq!(addr, i * PAGE);
        assert_eq!(a.index_for_ptr(addr), Some(i));
    }
}

#[test]
fn count_pages_adds_whole_pages() {
    let mut n: u64 = 5;
    count_4k_pages(4096 * 3 + 4095, &mut n);
    assert_eq!(n, 8);
    count_4k_pages(100, &mut n);
    assert_eq!(n, 8);
}

#[test]
fn plan_boot_values() {
    // the kernel ends 10 bytes into page 20, so pages 0..=20 are the kernel's
    let p = plan_boot(1200, 20 * 4096 + 10, 40);
    assert_eq!(p.four_k_page_count, 1200);
    assert_eq!(p.two_mb_page_count, 2);
    assert_eq!(p.page_array_pages, 12);
    assert_eq!(p.pages_up_to_kernel_end, 21);
    assert_eq!(p.useful_pages_count, 1167);
    assert_eq!(p.not_useful_pages_count, 33);
    assert_eq!(p.remainder, 143);
    // a kernel ending on a page boundary takes no extra page
    let q = plan_boot(1200, 20 * 4096, 40);
    assert_eq!(q.pages_up_to_kernel_end, 20);
    assert_eq!(q.not_useful_pages_count, 32);
}

#[test]
fn boot_never_hands_out_the_page_array() {
    // kernel ends 4000 bytes into page 10; 1100 records of 40 bytes fill
    // pages 11..=21, so the first page handed out is 22
    let (mut a, plan) = init_alloc(&vec![1100 * 4096], 10 * 4096 + 4000, 40);
    assert_eq!(plan.pages_up_to_kernel_end, 11);
    assert_eq!(plan.page_array_pages, 11);
    assert_eq!(plan.not_useful_pages_count, 22);
    assert_eq!(a.page_element_for_index(21).state, State::Unavail);
    assert_eq!(a.free_4k_head(), Some(22));
    assert_eq!(a.alloc_4k(), 22 * PAGE);
}

#[test]
fn boot_layout_of_page_array() {
    let (a, plan) = init_alloc(&vec![600 * 4096, 600 * 4096], 20 * 4096, 40);
    assert_eq!(plan.not_useful_pages_count, 32);
    assert_eq!(plan.remainder, 144);
    assert_eq!(a.page_array_len(), 1200);
    assert!(a.initialized());
    assert_eq!(a.first_usable_page_index(), 32);
    assert_eq!(a.free_4k_head(), Some(32));
    assert_eq!(a.free_2mb_head(), Some(176));
    let p0 = a.page_element_for_index(0);
    assert_eq!(p0.state, State::Unavail);
    assert_eq!(p0.prev_4k, None);
    assert_eq!(p0.next_4k, Some(1));
    let p31 = a.page_element_for_index(31);
    assert_eq!(p31.state, State::Unavail);
    assert_eq!(p31.prev_4k, Some(30));
    assert_eq!(p31.next_4k, None);
    let p32 = a.page_element_for_index(32);
    assert_eq!(p32.state, State::Free4K);
    assert_eq!(p32.prev_4k, None);
    assert_eq!(p32.next_4k, Some(33));
    // the 4 KiB list ends at the last single page
    let p175 = a.page_element_for_index(175);
    assert_eq!(p175.state, State::Free4K);
    assert_eq!(p175.prev_4k, Some(174));
    assert_eq!(p175.next_4k, None);
    let h1 = a.page_element_for_index(176);
    assert_eq!(h1.state, State::Free2MB);
    assert_eq!(h1.count, 512);
    assert_eq!(h1.prev_2mb, None);
    assert_eq!(h1.next_2mb, Some(688));
    assert_eq!(h1.next_4k, None);
    let sub = a.page_element_for_index(177);
    assert_eq!(sub.state, State::Free2MB);
    assert_eq!(sub.count, 0);
    assert_eq!(sub.prev_2mb, Some(176));
    assert_eq!(sub.next_2mb, None);
    let h2 = a.page_element_for_index(688);
    assert_eq!(h2.count, 512);
    assert_eq!(h2.prev_2mb, Some(176));
    assert_eq!(h2.next_2mb, None);
    let last = a.page_element_for_index(1199);
    assert_eq!(last.state, State::Free2MB);
    assert_eq!(last.prev_2mb, Some(688));
}

#[test]
fn boot_layout_leaves_partial_superpage_blank() {
    let v = build_page_array(1000, 10, 3);
    assert_eq!(v.len(), 1000);
    assert_eq!(v[12].state, State::Free4K);
    assert_eq!(v[13].state, State::Free2MB);
    assert_eq!(v[13].count, 512);
    assert_eq!(v[524].state, State::Free2MB);
    assert_eq!(v[525], PageArrayElement::blank());
    assert_eq!(v[999], PageArrayElement::blank());
}

#[test]
fn boot_layout_with_short_memory() {
    // fewer useful pages than single pages requested: the rest stays blank
    let v = build_page_array(20, 15, 9);
    assert_eq!(v[14].state, State::Unavail);
    assert_eq!(v[19].state, State::Free4K);
    assert_eq!(v[19].next_4k, None);
    let mut a = PhysicalAllocator::new_empty();
    a.install_page_array(v, 15);
    assert_eq!(a.free_4k_head(), Some(15));
    assert_eq!(a.free_2mb_head(), None);
}

#[test]
fn alloc_4k_pops_single_pages_in_order() {
    let mut a = boot_with_singles();
    assert_eq!(a.alloc_4k(), 32 * PAGE);
    assert_eq!(a.page_element_for_index(32).state, State::Alloc4K);
    assert_eq!(a.free_4k_head(), Some(33));
    assert_eq!(a.page_element_for_index(33).prev_4k, None);
    assert_eq!(a.alloc_4k(), 33 * PAGE);
    assert_eq!(a.free_2mb_head(), Some(176));
}

#[test]
fn alloc_4k_splits_a_superpage_when_no_single_page_is_left() {
    let mut a = boot_without_singles();
    assert_eq!(a.free_4k_head(), None);
    assert_eq!(a.free_2mb_head(), Some(52));
    let addr = a.alloc_4k();
    assert_eq!(addr, (52 + 511) * PAGE);
    assert_eq!(a.free_4k_head(), Some(52 + 510));
    assert_eq!(a.free_2mb_head(), Some(564));
    assert_eq!(a.page_element_for_index(564).prev_2mb, None);
    assert_eq!(a.page_element_for_index(52 + 511).state, State::Alloc4K);
    // the owner counts its free pages, its own first page included
    assert_eq!(a.page_element_for_index(52).count, 511);
    let head = a.page_element_for_index(52);
    assert_eq!(head.state, State::Free4K);
    assert_eq!(head.next_4k, None);
    assert_eq!(head.prev_4k, Some(53));
    let mid = a.page_element_for_index(300);
    assert_eq!(mid.state, State::Free4K);
    assert_eq!(mid.next_4k, Some(299));
    assert_eq!(mid.prev_4k, Some(301));
    assert_eq!(a.alloc_4k(), (52 + 510) * PAGE);
    assert_eq!(a.page_element_for_index(52).count, 510);
}

#[test]
fn consecutive_4k_allocations_differ() {
    let mut a = boot_without_singles();
    let mut seen = Vec::new();
    for n in 0..1024usize {
        let p = a.alloc_4k();
        // superpage n / 512, counted down from its last page
        assert_eq!(p, (52 + 512 * (n / 512) + 511 - n % 512) * PAGE);
        assert!(!seen.contains(&p));
        seen.push(p);
    }
    // both superpages are used up
    assert_eq!(a.free_4k_head(), None);
    assert_eq!(a.free_2mb_head(), None);
    assert_eq!(a.alloc_4k(), 0);
}

#[test]
fn free_4k_undoes_alloc_4k() {
    let mut a = boot_without_singles();
    a.alloc_4k();
    let before: Vec<PageArrayElement> = (0..a.page_array_len()).map(|i| a.page_element_for_index(i)).collect();
    let h4 = a.free_4k_head();
    let h2 = a.free_2mb_head();
    let p = a.alloc_4k();
    assert_eq!(p, (52 + 510) * PAGE);
    a.free_4k(p);
    let after: Vec<PageArrayElement> = (0..a.page_array_len()).map(|i| a.page_element_for_index(i)).collect();
    assert_eq!(a.free_4k_head(), h4);
    assert_eq!(a.free_2mb_head(), h2);
    assert!(before == after);
}

#[test]
fn free_4k_merges_superpage_when_count_is_full() {
    let mut a = boot_without_singles();
    let p = a.alloc_4k();
    assert_eq!(a.page_element_for_index(52).count, 511);
    a.free_4k(p);
    // the count is full again: the whole superpage goes back on the 2 MiB list
    assert_eq!(a.free_2mb_head(), Some(52));
    let head = a.page_element_for_index(52);
    assert_eq!(head.state, State::Free2MB);
    assert_eq!(head.count, 512);
    assert_eq!(head.next_2mb, Some(564));
    assert_eq!(head.prev_2mb, None);
    assert_eq!(a.page_element_for_index(564).prev_2mb, Some(52));
    // all its pages leave the 4 KiB list, the freed one too
    assert_eq!(a.free_4k_head(), None);
    for i in 52..564 {
        let e = a.page_element_for_index(i);
        assert_eq!(e.state, State::Free2MB);
        assert_eq!(e.next_4k, None);
        assert_eq!(e.prev_4k, None);
        if i != 52 {
            assert_eq!(e.prev_2mb, Some(52));
            assert_eq!(e.count, 0);
        }
    }
}

#[test]
fn merge_unlinks_the_superpage_from_a_longer_4k_list() {
    // single pages 52..60 lie on the 4 KiB list before the superpage's pages
    let mut a = PhysicalAllocator::new_empty();
    a.install_page_array(build_page_array(1100, 52, 8), 52);
    for i in 52..60 {
        assert_eq!(a.alloc_4k(), i * PAGE);
    }
    let p = a.alloc_4k();
    assert_eq!(p, (60 + 511) * PAGE);
    a.free_4k(52 * PAGE);
    a.free_4k(55 * PAGE);
    // 4 KiB list: 55, 52, then the superpage's pages 570 down to 60
    assert_eq!(a.free_4k_head(), Some(55));
    a.free_4k(p);
    assert_eq!(a.free_2mb_head(), Some(60));
    assert_eq!(a.free_4k_head(), Some(55));
    let e55 = a.page_element_for_index(55);
    assert_eq!(e55.next_4k, Some(52));
    assert_eq!(e55.prev_4k, None);
    let e52 = a.page_element_for_index(52);
    assert_eq!(e52.next_4k, None);
    assert_eq!(e52.prev_4k, Some(55));
    assert_eq!(a.alloc_4k(), 55 * PAGE);
    assert_eq!(a.alloc_4k(), 52 * PAGE);
    // then the merged superpage is split again, from its last page
    assert_eq!(a.alloc_4k(), (60 + 511) * PAGE);
}

#[test]
fn free_4k_after_split_restores_the_boot_allocator() {
    let mut a = boot_without_singles();
    let before = snapshot(&a);
    let (h4, h2) = (a.free_4k_head(), a.free_2mb_head());
    let p = a.alloc_4k();
    a.free_4k(p);
    assert!(snapshot(&a) == before);
    assert_eq!((a.free_4k_head(), a.free_2mb_head()), (h4, h2));
}

#[test]
fn merged_superpage_is_not_handed_out_twice() {
    let mut a = boot_without_singles();
    let p = a.alloc_4k();
    a.free_4k(p);
    let big = a.alloc_2mb();
    assert_eq!(big, 52 * PAGE);
    // the next small page comes from the other superpage, outside the live block
    let small = a.alloc_4k();
    assert_eq!(small, (564 + 511) * PAGE);
    assert!(small < big || small >= big + 512 * PAGE);
    assert_eq!(a.page_element_for_index(52 + 511).state, State::Alloc2MB);
}

#[test]
fn count_tracks_every_free_page_of_a_split_superpage() {
    let mut a = boot_without_singles();
    for n in 0..511usize {
        assert_eq!(a.alloc_4k(), (52 + 511 - n) * PAGE);
    }
    // only the first page is left free, and the count says so
    assert_eq!(a.page_element_for_index(52).count, 1);
    assert_eq!(a.alloc_4k(), 52 * PAGE);
    assert_eq!(a.page_element_for_index(52).state, State::Alloc4K);
    assert_eq!(a.page_element_for_index(52).count, 0);
    // returning the first page raises the count again without a merge
    a.free_4k(52 * PAGE);
    assert_eq!(a.page_element_for_index(52).count, 1);
    assert_eq!(a.free_4k_head(), Some(52));
    assert_eq!(a.free_2mb_head(), Some(564));
}

#[test]
fn last_freed_pages_are_reused_first() {
    let mut a = boot_with_singles();
    let p = a.alloc_4k();
    let q = a.alloc_4k();
    a.free_4k(p);
    assert_eq!(a.alloc_4k(), p);
    let big1 = a.alloc_2mb();
    let big2 = a.alloc_2mb();
    assert_eq!((big1, big2), (176 * PAGE, 688 * PAGE));
    a.free_2mb(big1);
    assert_eq!(a.alloc_2mb(), big1);
    a.free_4k(q);
    assert_eq!(a.alloc_4k(), q);
}

#[test]
fn alloc_2mb_takes_the_first_superpage() {
    let mut a = boot_with_singles();
    let addr = a.alloc_2mb();
    assert_eq!(addr, 176 * PAGE);
    assert_eq!(a.free_2mb_head(), Some(688));
    assert_eq!(a.page_element_for_index(688).prev_2mb, None);
    for i in 176..688 {
        let e = a.page_element_for_index(i);
        assert_eq!(e.state, State::Alloc2MB);
        assert_eq!(e.next_4k, None);
        assert_eq!(e.prev_4k, None);
    }
    assert_eq!(a.alloc_2mb(), 688 * PAGE);
    assert_eq!(a.free_2mb_head(), None);
    assert_eq!(a.alloc_2mb(), 0);
    assert_eq!(a.free_4k_head(), Some(32));
}

#[test]
fn free_2mb_undoes_alloc_2mb() {
    let mut a = boot_without_singles();
    let before: Vec<PageArrayElement> = (0..a.page_array_len()).map(|i| a.page_element_for_index(i)).collect();
    let p = a.alloc_2mb();
    assert_eq!(p, 52 * PAGE);
    a.free_2mb(p);
    let after: Vec<PageArrayElement> = (0..a.page_array_len()).map(|i| a.page_element_for_index(i)).collect();
    assert_eq!(a.free_2mb_head(), Some(52));
    assert_eq!(a.free_4k_head(), None);
    assert!(before == after);
}

#[test]
fn free_2mb_ignores_addresses_outside_the_array() {
    let mut a = boot_without_singles();
    a.free_2mb(4096 * 5000);
    a.free_2mb(4096 * 3 + 8);
    assert_eq!(a.free_2mb_head(), Some(52));
}

#[test]
fn allocate_dispatches_on_size() {
    let mut a = boot_with_singles();
    assert_eq!(a.allocate(0, 1), 0);
    assert_eq!(a.allocate(2 * 1024 * 1024 + 1, 8), 0);
    assert_eq!(a.allocate(100, 8), 32 * PAGE);
    assert_eq!(a.allocate(4096, 4096), 33 * PAGE);
    assert_eq!(a.allocate(4097, 8), 176 * PAGE);
    assert_eq!(a.allocate(2 * 1024 * 1024, 4096), 688 * PAGE);
    assert_eq!(a.allocate(5000, 8), 0);
}

#[test]
fn allocate_honours_alignment() {
    let mut a = boot_with_singles();
    // more than page alignment: a superpage, if the head one is aligned
    assert_eq!(a.allocate(64, 8192), 176 * PAGE);
    assert_eq!(a.free_2mb_head(), Some(688));
    // the next superpage starts at page 688, which is not 2 MiB aligned
    assert_eq!(a.allocate(64, 2 * 1024 * 1024), 0);
    assert_eq!(a.free_2mb_head(), Some(688));
    assert_eq!(a.allocate(64, 4 * 1024 * 1024), 0);
    assert_eq!(a.allocate(64, 16), 32 * PAGE);
    // a superpage that starts on a 2 MiB boundary serves a 2 MiB alignment
    let mut b = PhysicalAllocator::new_empty();
    b.install_page_array(build_page_array(2100, 52, 460), 52);
    assert_eq!(b.free_2mb_head(), Some(512));
    let big = b.allocate(2 * 1024 * 1024, 2 * 1024 * 1024);
    assert_eq!(big, 512 * PAGE);
    assert_eq!(big % (2 * 1024 * 1024), 0);
}

#[test]
fn dealloc_dispatches_on_state() {
    let mut a = boot_with_singles();
    let small = a.allocate(64, 8);
    let big = a.allocate(8192, 8);
    a.dealloc(0);
    a.dealloc(small);
    assert_eq!(a.free_4k_head(), Some(32));
    assert_eq!(a.page_element_for_index(32).state, State::Free4K);
    a.dealloc(big);
    assert_eq!(a.free_2mb_head(), Some(176));
    assert_eq!(a.page_element_for_index(177).state, State::Free2MB);
    // a free page, an unavailable page and an address past the array are ignored
    a.dealloc(40 * PAGE);
    a.dealloc(3 * PAGE);
    a.dealloc(5000 * PAGE);
    assert_eq!(a.free_4k_head(), Some(32));
    assert_eq!(a.page_element_for_index(40).state, State::Free4K);
}

#[test]
fn self_checks_pass() {
    assert!(simple_allocation());
    assert!(small_vec());
    assert!(large_vec());
}

#[test]
fn single_pages_come_first_then_superpages_are_split() {
    let mut a = boot_with_singles();
    for i in 32..176 {
        assert_eq!(a.alloc_4k(), i * PAGE);
    }
    // the single pages are used up: the first superpage is split
    assert_eq!(a.free_4k_head(), None);
    assert_eq!(a.alloc_4k(), (176 + 511) * PAGE);
    assert_eq!(a.free_2mb_head(), Some(688));
    assert_eq!(a.page_element_for_index(176).state, State::Free4K);
    // the split superpage is never handed out whole
    assert_eq!(a.alloc_2mb(), 688 * PAGE);
    assert_eq!(a.alloc_2mb(), 0);
}

/// The kernel's allocator self test, without the memory writes: a page, a
/// superpage, two pages of page tables and two rounds of 512 pages that must
/// never repeat, then everything is freed again. The layout has single pages
/// before its superpages, the first of which starts on a 2 MiB boundary.
#[test]
fn allocator_self_test_sequence() {
    let mut a = PhysicalAllocator::new_empty();
    a.install_page_array(build_page_array(2100, 52, 460), 52);
    let before = snapshot(&a);
    let test_page_4k = a.allocate(4096, 4096);
    let test_page_2m = a.allocate(512 * 4096, 512 * 4096);
    assert_ne!(test_page_4k, 0);
    assert_ne!(test_page_2m, 0);
    let arr_p = a.allocate(4096, 4096);
    let arr_p2 = a.allocate(4096, 4096);
    let mut arr = Vec::new();
    for _ in 0..512 {
        let page = a.allocate(4096, 4096);
        assert_ne!(page, 0);
        arr.push(page);
    }
    let mut arr2 = Vec::new();
    for _ in 0..512 {
        let page = a.allocate(4096, 4096);
        assert_ne!(page, 0);
        assert!(!arr.contains(&page));
        arr2.push(page);
    }
    let mut all = vec![test_page_4k, arr_p, arr_p2];
    all.extend(arr.iter());
    all.extend(arr2.iter());
    for (i, p) in all.iter().enumerate() {
        assert!(!all[i + 1..].contains(p));
        assert!(*p < test_page_2m || *p >= test_page_2m + 512 * 4096);
    }
    for i in 0..256 {
        a.dealloc(arr[i]);
    }
    for i in 0..256 {
        a.dealloc(arr2[i]);
    }
    for i in 256..512 {
        a.dealloc(arr[i]);
    }
    for i in 256..512 {
        a.dealloc(arr2[i]);
    }
    a.dealloc(test_page_4k);
    a.dealloc(test_page_2m);
    a.dealloc(arr_p);
    a.dealloc(arr_p2);
    let idx = a.index_for_ptr(test_page_2m).unwrap();
    assert_eq!(a.page_element_for_index(idx).state, State::Free2MB);
    // every page is free again, and every split superpage merged
    let after = snapshot(&a);
    for i in 0..2100 {
        assert_eq!(after[i].state, before[i].state);
    }
}

fn snapshot(a: &PhysicalAllocator) -> Vec<PageArrayElement> {
    (0..a.page_array_len()).map(|i| a.page_element_for_index(i)).collect()
}

#[test]
fn dealloc_undoes_allocate() {
    let mut a = boot_without_singles();
    a.allocate(10, 8);
    let before = snapshot(&a);
    let (h4, h2) = (a.free_4k_head(), a.free_2mb_head());
    let small = a.allocate(4000, 8);
    assert_eq!(small, (52 + 510) * PAGE);
    a.dealloc(small);
    assert!(snapshot(&a) == before);
    assert_eq!((a.free_4k_head(), a.free_2mb_head()), (h4, h2));
    let big = a.allocate(1 << 20, 8);
    assert_eq!(big, 564 * PAGE);
    a.dealloc(big);
    assert!(snapshot(&a) == before);
    assert_eq!((a.free_4k_head(), a.free_2mb_head()), (h4, h2));
}
