use early_boot::align::{align_down, align_up, is_power_of_two};
use early_boot::bump::{AllocError, EarlyAllocator};

fn region(start: usize, size: usize) -> EarlyAllocator<4096> {
    let mut a = EarlyAllocator::<4096>::new();
    a.init(start, size);
    a
}

#[test]
fn powers_of_two_are_recognized() {
    assert!(!is_power_of_two(0));
    assert!(is_power_of_two(1));
    assert!(is_power_of_two(2));
    assert!(!is_power_of_two(3));
    assert!(is_power_of_two(4096));
    assert!(!is_power_of_two(4097));
    assert!(!is_power_of_two(6));
    assert!(is_power_of_two(1 << (usize::BITS - 1)));
    assert!(!is_power_of_two(usize::MAX));
}

#[test]
fn align_up_rounds_to_next_multiple() {
    assert_eq!(align_up(0, 8), 0);
    assert_eq!(align_up(1, 8), 8);
    assert_eq!(align_up(8, 8), 8);
    assert_eq!(align_up(17, 16), 32);
    assert_eq!(align_up(0x1001, 0x1000), 0x2000);
    assert_eq!(align_up(12345, 1), 12345);
}

#[test]
fn align_up_at_the_top_of_the_address_space() {
    assert_eq!(align_up(usize::MAX - 15, 16), usize::MAX - 15);
    assert_eq!(align_up(usize::MAX, 1), usize::MAX);
}

#[test]
fn align_down_rounds_to_previous_multiple() {
    assert_eq!(align_down(0, 8), 0);
    assert_eq!(align_down(7, 8), 0);
    assert_eq!(align_down(8, 8), 8);
    assert_eq!(align_down(17, 16), 16);
    assert_eq!(align_down(0x1fff, 0x1000), 0x1000);
    assert_eq!(align_down(usize::MAX, 1), usize::MAX);
    assert_eq!(align_down(usize::MAX, 2), usize::MAX - 1);
}

#[test]
fn new_allocator_owns_nothing() {
    let mut a = EarlyAllocator::<4096>::new();
    assert_eq!(a.total_bytes(), 0);
    assert_eq!(a.used_bytes(), 0);
    assert_eq!(a.available_bytes(), 0);
    assert_eq!(a.live_allocations(), 0);
    assert_eq!(a.alloc_bytes(1, 1), Err(AllocError::NoMemory));
    assert_eq!(a.alloc_pages(1, 4096), Err(AllocError::NoMemory));
}

#[test]
fn init_makes_the_whole_region_available() {
    let a = region(0x8000_0000, 0x10_0000);
    assert_eq!(a.total_bytes(), 0x10_0000);
    assert_eq!(a.available_bytes(), 0x10_0000);
    assert_eq!(a.used_bytes(), 0);
    assert_eq!(a.live_allocations(), 0);
}

#[test]
fn init_with_empty_region() {
    let a = region(0x4000, 0);
    assert_eq!(a.total_bytes(), 0);
    assert_eq!(a.available_bytes(), 0);
    assert_eq!(a.used_bytes(), 0);
}

#[test]
fn init_again_discards_allocations() {
    let mut a = region(0x1000, 0x1000);
    assert_eq!(a.alloc_bytes(100, 4), Ok(0x1000));
    assert_eq!(a.alloc_pages(1, 0x1000), Ok(0x2000));
    a.init(0x10000, 0x2000);
    assert_eq!(a.total_bytes(), 0x2000);
    assert_eq!(a.available_bytes(), 0x2000);
    assert_eq!(a.used_bytes(), 0);
    assert_eq!(a.live_allocations(), 0);
    assert_eq!(a.alloc_bytes(1, 1), Ok(0x10000));
}

#[test]
fn byte_allocations_are_aligned_and_follow_each_other() {
    let mut a = region(0x1000, 0x1000);
    assert_eq!(a.alloc_bytes(10, 8), Ok(0x1000));
    assert_eq!(a.alloc_bytes(4, 8), Ok(0x1010));
    assert_eq!(a.alloc_bytes(1, 1), Ok(0x1014));
    assert_eq!(a.alloc_bytes(3, 64), Ok(0x1040));
    assert_eq!(a.used_bytes(), 0x43);
    assert_eq!(a.available_bytes(), 0x1000 - 0x43);
    assert_eq!(a.live_allocations(), 4);
}

#[test]
fn byte_allocations_do_not_overlap() {
    let mut a = region(0x2003, 0x4000);
    let requests: [(usize, usize); 8] =
        [(1, 1), (7, 2), (16, 16), (3, 4), (0, 8), (100, 32), (5, 1), (64, 64)];
    let mut blocks: Vec<(usize, usize)> = Vec::new();
    for (size, align) in requests {
        let addr = a.alloc_bytes(size, align).unwrap();
        assert_eq!(addr % align, 0);
        assert!(addr >= 0x2003);
        assert!(addr + size <= 0x2003 + 0x4000);
        blocks.push((addr, size));
    }
    for i in 0..blocks.len() {
        for j in (i + 1)..blocks.len() {
            assert!(blocks[i].0 + blocks[i].1 <= blocks[j].0);
        }
    }
}

#[test]
fn zero_sized_allocation_counts_but_takes_no_room() {
    let mut a = region(0x1000, 0x10);
    assert_eq!(a.alloc_bytes(0, 1), Ok(0x1000));
    assert_eq!(a.used_bytes(), 0);
    assert_eq!(a.live_allocations(), 1);
    assert_eq!(a.alloc_bytes(0x10, 1), Ok(0x1000));
    assert_eq!(a.alloc_bytes(0, 1), Ok(0x1010));
    assert_eq!(a.live_allocations(), 3);
}

#[test]
fn allocation_may_fill_the_region_exactly() {
    let mut a = region(0x1000, 0x100);
    assert_eq!(a.alloc_bytes(0x100, 1), Ok(0x1000));
    assert_eq!(a.available_bytes(), 0);
    assert_eq!(a.alloc_bytes(1, 1), Err(AllocError::NoMemory));
    assert_eq!(a.alloc_bytes(0, 1), Ok(0x1100));
}

#[test]
fn exhaustion_is_reported_and_changes_nothing() {
    let mut a = region(0x1000, 0x100);
    assert_eq!(a.alloc_bytes(0x80, 1), Ok(0x1000));
    assert_eq!(a.alloc_bytes(0x81, 1), Err(AllocError::NoMemory));
    assert_eq!(a.used_bytes(), 0x80);
    assert_eq!(a.available_bytes(), 0x80);
    assert_eq!(a.live_allocations(), 1);
    assert_eq!(a.alloc_bytes(0x80, 1), Ok(0x1080));
}

#[test]
fn padding_counts_toward_exhaustion() {
    let mut a = region(0x1001, 0x20);
    // 15 bytes of padding up to 0x1010, then 0x11 bytes would end at 0x1021.
    assert_eq!(a.available_bytes(), 0x20);
    assert_eq!(a.alloc_bytes(0x12, 16), Err(AllocError::NoMemory));
    assert_eq!(a.alloc_bytes(0x11, 16), Ok(0x1010));
    assert_eq!(a.available_bytes(), 0);
}

#[test]
fn allocation_near_the_top_of_the_address_space_fails_cleanly() {
    let mut a = region(usize::MAX - 15, 15);
    assert_eq!(a.alloc_bytes(1, 1), Ok(usize::MAX - 15));
    // The next multiple of 32 is beyond the last address.
    assert_eq!(a.alloc_bytes(1, 32), Err(AllocError::NoMemory));
    assert_eq!(a.alloc_bytes(usize::MAX, 1), Err(AllocError::NoMemory));
    assert_eq!(a.used_bytes(), 1);
    assert_eq!(a.live_allocations(), 1);
}

#[test]
fn byte_area_is_reclaimed_when_last_allocation_is_released() {
    let mut a = region(0x1000, 0x1000);
    let x = a.alloc_bytes(24, 8).unwrap();
    let y = a.alloc_bytes(40, 8).unwrap();
    let z = a.alloc_bytes(8, 8).unwrap();
    assert_eq!(a.used_bytes(), 72);
    a.dealloc(y, 40);
    assert_eq!(a.used_bytes(), 72);
    assert_eq!(a.live_allocations(), 2);
    a.dealloc(z, 8);
    assert_eq!(a.used_bytes(), 72);
    a.dealloc(x, 24);
    assert_eq!(a.used_bytes(), 0);
    assert_eq!(a.live_allocations(), 0);
    assert_eq!(a.available_bytes(), 0x1000);
    assert_eq!(a.alloc_bytes(1, 1), Ok(0x1000));
}

#[test]
fn release_order_does_not_matter() {
    let orders: [[usize; 3]; 6] =
        [[0, 1, 2], [0, 2, 1], [1, 0, 2], [1, 2, 0], [2, 0, 1], [2, 1, 0]];
    for order in orders {
        let mut a = region(0x5000, 0x800);
        let sizes: [usize; 3] = [10, 20, 30];
        let mut addrs: [usize; 3] = [0; 3];
        for i in 0..3 {
            addrs[i] = a.alloc_bytes(sizes[i], 4).unwrap();
        }
        for i in order {
            a.dealloc(addrs[i], sizes[i]);
        }
        assert_eq!(a.used_bytes(), 0);
        assert_eq!(a.available_bytes(), 0x800);
    }
}

#[test]
fn release_ignores_which_block_is_named() {
    let mut a = region(0x1000, 0x100);
    a.alloc_bytes(16, 1).unwrap();
    a.alloc_bytes(16, 1).unwrap();
    a.dealloc(0xdead_0000, 12345);
    assert_eq!(a.used_bytes(), 32);
    a.dealloc(0, 0);
    assert_eq!(a.used_bytes(), 0);
}

#[test]
fn page_allocation_takes_the_aligned_end() {
    let mut a = region(0x1000, 0x4800);
    assert_eq!(a.alloc_pages(1, 0x1000), Ok(0x5000));
    assert_eq!(a.available_bytes(), 0x4000);
    assert_eq!(a.total_bytes(), 0x4800);
    assert_eq!(a.used_bytes(), 0);
}

#[test]
fn page_allocation_stays_above_the_forward_cursor() {
    let mut a = region(0x1000, 0x3000);
    assert_eq!(a.alloc_bytes(0x1800, 1), Ok(0x1000));
    // Forward cursor at 0x2800: 0x4000 and 0x3000 lie above it, 0x2000 does not.
    assert_eq!(a.alloc_pages(1, 0x1000), Ok(0x4000));
    assert_eq!(a.alloc_pages(1, 0x2000), Ok(0x4000));
    assert_eq!(a.alloc_pages(1, 0x4000), Ok(0x4000));
    assert_eq!(a.alloc_pages(1, 0x8000), Err(AllocError::NoMemory));
    assert_eq!(a.alloc_bytes(0x800, 1), Ok(0x2800));
    assert_eq!(a.alloc_bytes(0x1000, 1), Ok(0x3000));
    assert_eq!(a.alloc_pages(1, 0x1000), Err(AllocError::NoMemory));
}

#[test]
fn page_allocation_at_the_cursor_is_refused() {
    let mut a = region(0x1000, 0x1000);
    assert_eq!(a.alloc_bytes(0x1000, 1), Ok(0x1000));
    assert_eq!(a.alloc_pages(1, 0x1000), Err(AllocError::NoMemory));
    assert_eq!(a.available_bytes(), 0);
}

#[test]
fn page_allocation_with_alignment_beyond_the_region_fails() {
    let mut a = region(0x1000, 0x3000);
    assert_eq!(a.alloc_pages(1, 0x8000), Err(AllocError::NoMemory));
    assert_eq!(a.alloc_pages(1, 1 << 40), Err(AllocError::NoMemory));
    assert_eq!(a.available_bytes(), 0x3000);
    let mut b = region(0x4000, 0x1000);
    assert_eq!(b.alloc_pages(1, 0x4000), Err(AllocError::NoMemory));
}

#[test]
fn page_allocation_with_alignment_above_the_size_may_fit() {
    // The region [0x1000, 0x2000) is smaller than the alignment, but its end
    // is a multiple of it.
    let mut a = region(0x1000, 0x1000);
    assert_eq!(a.alloc_pages(1, 0x2000), Ok(0x2000));
    assert_eq!(a.available_bytes(), 0x1000);
}

#[test]
fn page_allocation_ignores_the_page_count() {
    let mut a = region(0x10000, 0x10000);
    assert_eq!(a.alloc_pages(4, 0x1000), Ok(0x20000));
    assert_eq!(a.alloc_pages(1, 0x1000), Ok(0x20000));
    assert_eq!(a.used_pages(), 0);
}

#[test]
fn page_allocation_lowers_the_limit_of_byte_allocations() {
    let mut a = region(0x1000, 0x27ff);
    assert_eq!(a.alloc_pages(1, 0x1000), Ok(0x3000));
    assert_eq!(a.available_bytes(), 0x2000);
    assert_eq!(a.alloc_bytes(0x2001, 1), Err(AllocError::NoMemory));
    assert_eq!(a.alloc_bytes(0x2000, 1), Ok(0x1000));
}

#[test]
fn pages_are_never_given_back() {
    let mut a = region(0x1000, 0x2800);
    assert_eq!(a.alloc_pages(1, 0x1000), Ok(0x3000));
    let before = (a.available_bytes(), a.used_pages(), a.available_pages());
    a.dealloc_pages(0x3000, 1);
    assert_eq!((a.available_bytes(), a.used_pages(), a.available_pages()), before);
}

#[test]
fn byte_release_leaves_the_page_area_alone() {
    let mut a = region(0x1000, 0x2800);
    assert_eq!(a.alloc_pages(1, 0x1000), Ok(0x3000));
    let x = a.alloc_bytes(0x100, 1).unwrap();
    a.dealloc(x, 0x100);
    assert_eq!(a.available_bytes(), 0x2000);
    assert_eq!(a.alloc_bytes(0x2001, 1), Err(AllocError::NoMemory));
}

#[test]
fn page_counts_are_in_whole_pages() {
    let mut a = region(0x1000, 0x5800);
    assert_eq!(a.total_pages(), 5);
    assert_eq!(a.used_pages(), 0);
    assert_eq!(a.available_pages(), 5);
    assert_eq!(a.alloc_pages(2, 0x2000), Ok(0x6000));
    assert_eq!(a.total_pages(), 5);
    assert_eq!(a.used_pages(), 0);
    assert_eq!(a.available_pages(), 5);
    assert_eq!(a.alloc_pages(2, 0x4000), Ok(0x4000));
    assert_eq!(a.used_pages(), 2);
    assert_eq!(a.available_pages(), 3);
    assert_eq!(a.alloc_bytes(0x1001, 1), Ok(0x1000));
    assert_eq!(a.available_pages(), 1);
}

#[test]
fn region_cannot_be_extended() {
    let mut a = region(0x1000, 0x1000);
    a.alloc_bytes(8, 8).unwrap();
    assert_eq!(a.add_memory(0x2000, 0x1000), Err(AllocError::Unsupported));
    assert_eq!(a.total_bytes(), 0x1000);
    assert_eq!(a.used_bytes(), 8);
    assert_eq!(a.available_bytes(), 0x1000 - 8);
    assert_eq!(a.live_allocations(), 1);
}

#[test]
fn page_counts_go_by_the_page_size_of_the_allocator() {
    let mut a = EarlyAllocator::<0x2000>::new();
    a.init(0x2000, 0x9000);
    assert_eq!(a.total_pages(), 4);
    assert_eq!(a.available_pages(), 4);
    assert_eq!(a.alloc_pages(1, 0x4000), Ok(0x8000));
    assert_eq!(a.used_pages(), 1);
    assert_eq!(a.available_pages(), 3);
    let mut b = EarlyAllocator::<1>::new();
    b.init(0x2000, 0x9000);
    assert_eq!(b.total_pages(), 0x9000);
    assert_eq!(b.alloc_bytes(5, 1), Ok(0x2000));
    assert_eq!(b.available_pages(), 0x9000 - 5);
}
