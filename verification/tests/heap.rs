use buddyalloc::{AllocationError, AllocationSizeError, Heap, HeapError, MIN_HEAP_ALIGN};

/// An address that is aligned as the base of a heap has to be.
const MEM: usize = 16 * 4096;

#[test]
fn test_allocation_size_and_order() {
    let heap_size = 256;
    let mem = MEM;
    let heap: Heap<5> = Heap::new(mem, heap_size).unwrap();

    // Can't align beyond MIN_HEAP_ALIGN.
    assert_eq!(
        Err(AllocationSizeError::BadAlignment),
        heap.allocation_size(256, 8192)
    );

    // Can't align beyond heap_size.
    assert_eq!(
        Err(AllocationSizeError::TooLarge),
        heap.allocation_size(256, 256 * 2)
    );

    // Simple allocations just round up to next block size.
    assert_eq!(Ok(16), heap.allocation_size(0, 1));
    assert_eq!(Ok(16), heap.allocation_size(1, 1));
    assert_eq!(Ok(16), heap.allocation_size(16, 1));
    assert_eq!(Ok(32), heap.allocation_size(17, 1));
    assert_eq!(Ok(32), heap.allocation_size(32, 32));
    assert_eq!(Ok(256), heap.allocation_size(256, 256));

    // Aligned allocations use alignment as block size.
    assert_eq!(Ok(64), heap.allocation_size(16, 64));

    // Block orders.
    assert_eq!(Ok(0), heap.allocation_order(0, 1));
    assert_eq!(Ok(0), heap.allocation_order(1, 1));
    assert_eq!(Ok(0), heap.allocation_order(16, 16));
    assert_eq!(Ok(1), heap.allocation_order(32, 32));
    assert_eq!(Ok(2), heap.allocation_order(64, 64));
    assert_eq!(Ok(3), heap.allocation_order(128, 128));
    assert_eq!(Ok(4), heap.allocation_order(256, 256));
    assert_eq!(
        Err(AllocationSizeError::TooLarge),
        heap.allocation_order(512, 512)
    );
}

#[test]
fn test_buddy() {
    let heap_size = 256;
    let mem = MEM;
    let heap: Heap<5> = Heap::new(mem, heap_size).unwrap();

    let block_16_0 = mem;
    let block_16_1 = mem + 16;
    assert_eq!(Some(block_16_1), heap.buddy(0, block_16_0));
    assert_eq!(Some(block_16_0), heap.buddy(0, block_16_1));

    let block_32_0 = mem;
    let block_32_1 = mem + 32;
    assert_eq!(Some(block_32_1), heap.buddy(1, block_32_0));
    assert_eq!(Some(block_32_0), heap.buddy(1, block_32_1));

    let block_32_2 = mem + 64;
    let block_32_3 = mem + 96;
    assert_eq!(Some(block_32_3), heap.buddy(1, block_32_2));
    assert_eq!(Some(block_32_2), heap.buddy(1, block_32_3));

    let block_256_0 = mem;
    assert_eq!(None, heap.buddy(4, block_256_0));
}

#[test]
fn test_alloc_and_dealloc() {
    let heap_size = 256;
    let mem = MEM;
    let mut heap: Heap<5> = Heap::new(mem, heap_size).unwrap();

    let block_16_0 = heap.allocate(8, 8).unwrap();
    assert_eq!(mem, block_16_0);

    let bigger_than_heap = heap.allocate(heap_size, 4096);
    assert_eq!(
        Err(AllocationError::InvalidSize(AllocationSizeError::TooLarge)),
        bigger_than_heap
    );

    let bigger_than_free = heap.allocate(heap_size, heap_size);
    assert_eq!(Err(AllocationError::HeapExhausted), bigger_than_free);

    let block_16_1 = heap.allocate(8, 8).unwrap();
    assert_eq!(mem + 16, block_16_1);

    let block_16_2 = heap.allocate(8, 8).unwrap();
    assert_eq!(mem + 32, block_16_2);

    let block_32_2 = heap.allocate(32, 32).unwrap();
    assert_eq!(mem + 64, block_32_2);

    let block_16_3 = heap.allocate(8, 8).unwrap();
    assert_eq!(mem + 48, block_16_3);

    let block_128_1 = heap.allocate(128, 128).unwrap();
    assert_eq!(mem + 128, block_128_1);

    let too_fragmented = heap.allocate(64, 64);
    assert_eq!(Err(AllocationError::HeapExhausted), too_fragmented);

    heap.deallocate(block_32_2, 32, 32);
    heap.deallocate(block_16_0, 8, 8);
    heap.deallocate(block_16_3, 8, 8);
    heap.deallocate(block_16_1, 8, 8);
    heap.deallocate(block_16_2, 8, 8);

    let block_128_0 = heap.allocate(128, 128).unwrap();
    assert_eq!(mem, block_128_0);

    heap.deallocate(block_128_1, 128, 128);
    heap.deallocate(block_128_0, 128, 128);

    // And allocate the whole heap, just to make sure everything
    // got cleaned up correctly.
    let block_256_0 = heap.allocate(256, 256).unwrap();
    assert_eq!(mem, block_256_0);
}

#[test]
fn new_rejects_a_misaligned_base() {
    assert!(matches!(
        Heap::<5>::new(MEM + 1, 256),
        Err(HeapError::BadBaseAlignment)
    ));
    assert!(matches!(
        Heap::<5>::new(MEM + 2048, 256),
        Err(HeapError::BadBaseAlignment)
    ));
    assert!(matches!(
        Heap::<5>::new(1, 256),
        Err(HeapError::BadBaseAlignment)
    ));
}

#[test]
fn new_rejects_a_small_minimum_block() {
    // 64 >> 4 is 4, which has no room for a link on a 64-bit machine;
    // 16 >> 4 is 1, which has room for none on any machine.
    assert!(matches!(
        Heap::<5>::new(MEM, 16),
        Err(HeapError::MinBlockTooSmall)
    ));
    assert!(matches!(
        Heap::<5>::new(MEM, 0),
        Err(HeapError::MinBlockTooSmall)
    ));
    assert!(matches!(
        Heap::<1>::new(MEM, 2),
        Err(HeapError::MinBlockTooSmall)
    ));
    let smallest = core::mem::size_of::<usize>();
    assert!(Heap::<1>::new(MEM, smallest).is_ok());
    assert!(Heap::<5>::new(MEM, smallest << 4).is_ok());
    assert!(matches!(
        Heap::<5>::new(MEM, smallest << 3),
        Err(HeapError::MinBlockTooSmall)
    ));
}

#[test]
fn new_rejects_a_size_that_is_no_power_of_two() {
    assert!(matches!(
        Heap::<5>::new(MEM, 384),
        Err(HeapError::BadSizeAlignment)
    ));
    assert!(matches!(
        Heap::<1>::new(MEM, 4095),
        Err(HeapError::BadSizeAlignment)
    ));
    assert!(matches!(
        Heap::<3>::new(MEM, 4096 + 64),
        Err(HeapError::BadSizeAlignment)
    ));
}

#[test]
fn new_tests_its_conditions_in_order() {
    // A misaligned base is reported before anything about the size.
    assert!(matches!(
        Heap::<5>::new(MEM + 8, 16),
        Err(HeapError::BadBaseAlignment)
    ));
    assert!(matches!(
        Heap::<5>::new(MEM + 8, 384),
        Err(HeapError::BadBaseAlignment)
    ));
    // A minimum block that is too small is reported before a size that is
    // no power of two: 24 >> 4 is 1.
    assert!(matches!(
        Heap::<5>::new(MEM, 24),
        Err(HeapError::MinBlockTooSmall)
    ));
}

#[test]
fn new_takes_more_orders_than_a_word_has_bits() {
    assert!(matches!(
        Heap::<65>::new(MEM, 1 << 20),
        Err(HeapError::MinBlockTooSmall)
    ));
    assert!(matches!(
        Heap::<200>::new(MEM, 1 << 20),
        Err(HeapError::MinBlockTooSmall)
    ));
    assert!(matches!(
        Heap::<200>::new(MEM + 1, 1 << 20),
        Err(HeapError::BadBaseAlignment)
    ));
}

#[test]
fn new_heap_is_one_free_block() {
    let mut heap: Heap<5> = Heap::new(MEM, 256).unwrap();
    assert_eq!(Ok(MEM), heap.allocate(256, 256));
    assert_eq!(Err(AllocationError::HeapExhausted), heap.allocate(256, 256));
    assert_eq!(Err(AllocationError::HeapExhausted), heap.allocate(1, 1));
}

#[test]
fn heap_of_a_single_order() {
    let mut heap: Heap<1> = Heap::new(MEM, 64).unwrap();
    assert_eq!(Ok(64), heap.allocation_size(1, 1));
    assert_eq!(Ok(0), heap.allocation_order(1, 1));
    assert_eq!(64, heap.order_size(0));
    assert_eq!(None, heap.buddy(0, MEM));
    assert_eq!(Ok(MEM), heap.allocate(1, 1));
    assert_eq!(Err(AllocationError::HeapExhausted), heap.allocate(1, 1));
    heap.deallocate(MEM, 1, 1);
    assert_eq!(Ok(MEM), heap.allocate(64, 64));
}

#[test]
fn order_size_doubles_with_the_order() {
    let heap: Heap<5> = Heap::new(MEM, 256).unwrap();
    assert_eq!(16, heap.order_size(0));
    assert_eq!(32, heap.order_size(1));
    assert_eq!(64, heap.order_size(2));
    assert_eq!(128, heap.order_size(3));
    assert_eq!(256, heap.order_size(4));

    let heap: Heap<10> = Heap::new(MEM, 16384).unwrap();
    assert_eq!(32, heap.order_size(0));
    assert_eq!(16384, heap.order_size(9));
}

#[test]
fn allocation_size_names_the_error() {
    let heap: Heap<5> = Heap::new(MEM, 256).unwrap();
    assert_eq!(Err(AllocationSizeError::BadAlignment), heap.allocation_size(16, 0));
    assert_eq!(Err(AllocationSizeError::BadAlignment), heap.allocation_size(16, 3));
    assert_eq!(Err(AllocationSizeError::BadAlignment), heap.allocation_size(16, 24));
    assert_eq!(
        Err(AllocationSizeError::BadAlignment),
        heap.allocation_size(16, MIN_HEAP_ALIGN * 2)
    );
    // An alignment that is no power of two is reported before a size that
    // is too large.
    assert_eq!(Err(AllocationSizeError::BadAlignment), heap.allocation_size(1000, 3));
    assert_eq!(Err(AllocationSizeError::TooLarge), heap.allocation_size(257, 1));
    assert_eq!(Err(AllocationSizeError::TooLarge), heap.allocation_size(1, 512));
    assert_eq!(Err(AllocationSizeError::TooLarge), heap.allocation_size(1, MIN_HEAP_ALIGN));
    assert_eq!(Ok(256), heap.allocation_size(129, 1));
    assert_eq!(Ok(256), heap.allocation_size(1, 256));
}

#[test]
fn allocation_size_of_the_largest_requests() {
    let heap: Heap<5> = Heap::new(MEM, 256).unwrap();
    assert_eq!(Err(AllocationSizeError::TooLarge), heap.allocation_size(usize::MAX, 1));
    assert_eq!(
        Err(AllocationSizeError::TooLarge),
        heap.allocation_size((1 << (usize::BITS - 1)) + 1, 8)
    );
    assert_eq!(
        Err(AllocationSizeError::TooLarge),
        heap.allocation_order(usize::MAX, 4096)
    );
    assert_eq!(
        Err(AllocationSizeError::BadAlignment),
        heap.allocation_size(usize::MAX, usize::MAX)
    );
}

#[test]
fn allocation_order_follows_allocation_size() {
    let heap: Heap<5> = Heap::new(MEM, 256).unwrap();
    let mut size: usize = 0;
    while size <= 300 {
        let mut align: usize = 1;
        while align <= 512 {
            match heap.allocation_size(size, align) {
                Ok(block_size) => {
                    let order = heap.allocation_order(size, align).unwrap();
                    assert_eq!(block_size, heap.order_size(order));
                    assert!(block_size >= size);
                    assert!(block_size >= align);
                    assert!(block_size >= 16);
                    assert!(block_size.is_power_of_two());
                    assert!(block_size == 16 || block_size / 2 < size.max(align));
                }
                Err(e) => assert_eq!(Err(e), heap.allocation_order(size, align)),
            }
            align *= 2;
        }
        size += 1;
    }
}

#[test]
fn request_sizes_resolve_to_orders() {
    let mut heap: Heap<5> = Heap::new(MEM, 256).unwrap();
    assert_eq!(Ok(0), heap.allocation_order(0, 1));
    assert_eq!(Ok(0), heap.allocation_order(1, 1));
    assert_eq!(Ok(16), heap.allocation_size(0, 1));
    assert_eq!(Ok(16), heap.allocation_size(1, 1));
    assert_eq!(Ok(1), heap.allocation_order(17, 1));
    assert_eq!(Ok(32), heap.allocation_size(17, 1));
    assert_eq!(Ok(2), heap.allocation_order(16, 64));
    assert_eq!(Ok(64), heap.allocation_size(16, 64));

    assert_eq!(Ok(MEM), heap.allocate(256, 256));
    assert_eq!(Err(AllocationError::HeapExhausted), heap.allocate(256, 256));
}

#[test]
fn fragmented_heap_is_exhausted() {
    let mut heap: Heap<5> = Heap::new(MEM, 256).unwrap();
    assert_eq!(Ok(MEM), heap.allocate(8, 1));
    assert_eq!(Ok(MEM + 16), heap.allocate(8, 1));
    assert_eq!(Ok(MEM + 32), heap.allocate(8, 1));
    assert_eq!(Ok(MEM + 64), heap.allocate(32, 1));
    assert_eq!(Ok(MEM + 48), heap.allocate(8, 1));
    assert_eq!(Ok(MEM + 128), heap.allocate(128, 1));
    // The 32 addresses from 96 are all that is free.
    assert_eq!(Err(AllocationError::HeapExhausted), heap.allocate(64, 1));
    assert_eq!(Ok(MEM + 96), heap.allocate(32, 1));
    assert_eq!(Err(AllocationError::HeapExhausted), heap.allocate(1, 1));

    // Two free blocks of 16 that are no buddies do not serve a request
    // for 32.
    heap.deallocate(MEM + 16, 8, 1);
    heap.deallocate(MEM + 32, 8, 1);
    assert_eq!(Err(AllocationError::HeapExhausted), heap.allocate(32, 1));
    assert_eq!(Ok(MEM + 32), heap.allocate(16, 1));
    assert_eq!(Ok(MEM + 16), heap.allocate(16, 1));
}

#[test]
fn allocated_blocks_are_aligned_and_apart() {
    let requests: [(usize, usize); 9] = [
        (1, 1),
        (24, 8),
        (16, 64),
        (3, 2),
        (100, 4),
        (33, 16),
        (0, 32),
        (7, 128),
        (64, 1),
    ];
    let heap_size: usize = 1024;
    let mut heap: Heap<7> = Heap::new(MEM, heap_size).unwrap();
    let mut blocks: Vec<(usize, usize)> = Vec::new();
    for (size, align) in requests {
        let block_size = heap.allocation_size(size, align).unwrap();
        match heap.allocate(size, align) {
            Ok(block) => {
                assert_eq!(0, block % align);
                assert_eq!(0, (block - MEM) % block_size);
                assert!(block_size >= size);
                assert!(MEM <= block);
                assert!(block + block_size <= MEM + heap_size);
                for (other, other_size) in &blocks {
                    assert!(block + block_size <= *other || *other + *other_size <= block);
                }
                blocks.push((block, block_size));
            }
            Err(e) => assert_eq!(AllocationError::HeapExhausted, e),
        }
    }
    assert_eq!(9, blocks.len());
}

#[test]
fn order_is_the_same_before_and_after_allocating() {
    let mut heap: Heap<5> = Heap::new(MEM, 256).unwrap();
    let before = [
        heap.allocation_order(8, 8),
        heap.allocation_order(40, 2),
        heap.allocation_order(16, 128),
        heap.allocation_order(300, 1),
        heap.allocation_order(1, 3),
    ];
    let first = heap.allocate(8, 8).unwrap();
    let second = heap.allocate(40, 2).unwrap();
    let after = [
        heap.allocation_order(8, 8),
        heap.allocation_order(40, 2),
        heap.allocation_order(16, 128),
        heap.allocation_order(300, 1),
        heap.allocation_order(1, 3),
    ];
    assert_eq!(before, after);
    heap.deallocate(first, 8, 8);
    heap.deallocate(second, 40, 2);
    let at_the_end = [
        heap.allocation_order(8, 8),
        heap.allocation_order(40, 2),
        heap.allocation_order(16, 128),
        heap.allocation_order(300, 1),
        heap.allocation_order(1, 3),
    ];
    assert_eq!(before, at_the_end);
    assert_eq!(
        [
            Ok(0),
            Ok(2),
            Ok(3),
            Err(AllocationSizeError::TooLarge),
            Err(AllocationSizeError::BadAlignment)
        ],
        before
    );
}

#[test]
fn heap_comes_back_whole_whatever_the_order_of_release() {
    let orders_of_release: [[usize; 4]; 6] = [
        [0, 1, 2, 3],
        [3, 2, 1, 0],
        [1, 3, 0, 2],
        [2, 0, 3, 1],
        [0, 2, 1, 3],
        [3, 0, 2, 1],
    ];
    for order_of_release in orders_of_release {
        let mut heap: Heap<5> = Heap::new(MEM, 256).unwrap();
        let requests: [(usize, usize); 4] = [(16, 1), (100, 8), (32, 32), (1, 1)];
        let mut blocks: [usize; 4] = [0; 4];
        for i in 0..4 {
            blocks[i] = heap.allocate(requests[i].0, requests[i].1).unwrap();
        }
        assert_eq!(Err(AllocationError::HeapExhausted), heap.allocate(256, 1));
        for i in order_of_release {
            heap.deallocate(blocks[i], requests[i].0, requests[i].1);
        }
        // Only a heap that is one free block again can serve this.
        assert_eq!(Ok(MEM), heap.allocate(256, 1));
        heap.deallocate(MEM, 256, 1);
        // And it serves the same requests at the same addresses again.
        for i in 0..4 {
            assert_eq!(Ok(blocks[i]), heap.allocate(requests[i].0, requests[i].1));
        }
    }
}

#[test]
fn buddy_of_the_buddy_is_the_block() {
    let heap: Heap<5> = Heap::new(MEM, 256).unwrap();
    for order in 0..4 {
        let block_size = heap.order_size(order);
        let mut block = MEM;
        while block < MEM + 256 {
            let buddy = heap.buddy(order, block).unwrap();
            assert_ne!(block, buddy);
            assert!(MEM <= buddy && buddy < MEM + 256);
            assert_eq!(block_size, block.max(buddy) - block.min(buddy));
            assert_eq!(0, (block.min(buddy) - MEM) % (2 * block_size));
            assert_eq!(Some(block), heap.buddy(order, buddy));
            block += block_size;
        }
    }
    assert_eq!(None, heap.buddy(4, MEM));
}

#[test]
fn buddy_is_taken_relative_to_the_base() {
    // The base is a multiple of 4096 and of nothing larger, and the heap
    // is longer than that.
    let base: usize = 3 * 4096;
    let heap: Heap<4> = Heap::new(base, 16384).unwrap();
    assert_eq!(2048, heap.order_size(0));
    assert_eq!(Some(base + 8192), heap.buddy(2, base));
    assert_eq!(Some(base), heap.buddy(2, base + 8192));
    assert_eq!(Some(base + 4096), heap.buddy(1, base));
    assert_eq!(Some(base + 12288), heap.buddy(1, base + 8192));
    assert_eq!(Some(base + 2048), heap.buddy(0, base));
    assert_eq!(None, heap.buddy(3, base));
}

#[test]
fn invalid_requests_leave_the_heap_as_it_was() {
    let mut heap: Heap<5> = Heap::new(MEM, 256).unwrap();
    assert_eq!(Ok(MEM), heap.allocate(16, 1));
    assert_eq!(
        Err(AllocationError::InvalidSize(AllocationSizeError::BadAlignment)),
        heap.allocate(16, 3)
    );
    assert_eq!(
        Err(AllocationError::InvalidSize(AllocationSizeError::BadAlignment)),
        heap.allocate(16, 8192)
    );
    assert_eq!(
        Err(AllocationError::InvalidSize(AllocationSizeError::BadAlignment)),
        heap.allocate(16, 0)
    );
    assert_eq!(
        Err(AllocationError::InvalidSize(AllocationSizeError::TooLarge)),
        heap.allocate(257, 1)
    );
    assert_eq!(
        Err(AllocationError::InvalidSize(AllocationSizeError::TooLarge)),
        heap.allocate(usize::MAX, 1)
    );
    assert_eq!(Err(AllocationError::HeapExhausted), heap.allocate(256, 1));
    // The free blocks are still those that the first request left.
    assert_eq!(Ok(MEM + 16), heap.allocate(16, 1));
    assert_eq!(Ok(MEM + 32), heap.allocate(32, 1));
    assert_eq!(Ok(MEM + 64), heap.allocate(64, 1));
    assert_eq!(Ok(MEM + 128), heap.allocate(128, 1));
    assert_eq!(Err(AllocationError::HeapExhausted), heap.allocate(1, 1));
}

#[test]
fn freed_blocks_are_reused_last_in_first_out() {
    let mut heap: Heap<5> = Heap::new(MEM, 256).unwrap();
    for i in 0..4 {
        assert_eq!(Ok(MEM + 16 * i), heap.allocate(16, 1));
    }
    heap.deallocate(MEM + 16, 16, 1);
    heap.deallocate(MEM + 48, 16, 1);
    assert_eq!(Ok(MEM + 48), heap.allocate(16, 1));
    assert_eq!(Ok(MEM + 16), heap.allocate(16, 1));
    heap.deallocate(MEM + 48, 16, 1);
    heap.deallocate(MEM + 16, 16, 1);
    assert_eq!(Ok(MEM + 16), heap.allocate(16, 1));
    assert_eq!(Ok(MEM + 48), heap.allocate(16, 1));
}

#[test]
fn split_leaves_the_upper_halves_free() {
    let mut heap: Heap<5> = Heap::new(MEM, 256).unwrap();
    assert_eq!(Ok(MEM), heap.allocate(16, 1));
    // The halves from 16, 32, 64 and 128 are free, one of each order.
    assert_eq!(Ok(MEM + 128), heap.allocate(128, 1));
    assert_eq!(Ok(MEM + 64), heap.allocate(64, 1));
    assert_eq!(Ok(MEM + 32), heap.allocate(32, 1));
    assert_eq!(Ok(MEM + 16), heap.allocate(16, 1));
    assert_eq!(Err(AllocationError::HeapExhausted), heap.allocate(16, 1));
}

#[test]
fn release_merges_with_a_buddy_inside_its_list() {
    let mut heap: Heap<5> = Heap::new(MEM, 256).unwrap();
    for i in 0..4 {
        assert_eq!(Ok(MEM + 16 * i), heap.allocate(16, 1));
    }
    // 0 and 32 are no buddies: both wait on the list of the lowest order,
    // 32 at its head.
    heap.deallocate(MEM, 16, 1);
    heap.deallocate(MEM + 32, 16, 1);
    // 16 finds its buddy 0 behind the head and becomes one block with it.
    heap.deallocate(MEM + 16, 16, 1);
    assert_eq!(Ok(MEM), heap.allocate(32, 1));
    assert_eq!(Ok(MEM + 32), heap.allocate(16, 1));
    // Nothing of the lowest order is left: the next one is cut from 64.
    assert_eq!(Ok(MEM + 64), heap.allocate(16, 1));
}

#[test]
fn release_merges_over_several_orders() {
    let mut heap: Heap<5> = Heap::new(MEM, 256).unwrap();
    let first = heap.allocate(16, 1).unwrap();
    let second = heap.allocate(16, 1).unwrap();
    assert_eq!(MEM, first);
    assert_eq!(MEM + 16, second);
    heap.deallocate(first, 16, 1);
    // The buddy of the second block is free, and so is every upper half
    // above them.
    heap.deallocate(second, 16, 1);
    assert_eq!(Ok(MEM), heap.allocate(256, 1));
}

#[test]
fn release_stops_where_the_buddy_is_in_use() {
    let mut heap: Heap<5> = Heap::new(MEM, 256).unwrap();
    let low = heap.allocate(64, 1).unwrap();
    let high = heap.allocate(64, 1).unwrap();
    assert_eq!(MEM, low);
    assert_eq!(MEM + 64, high);
    heap.deallocate(low, 64, 1);
    assert_eq!(Err(AllocationError::HeapExhausted), heap.allocate(256, 1));
    assert_eq!(Ok(MEM + 128), heap.allocate(128, 1));
    assert_eq!(Err(AllocationError::HeapExhausted), heap.allocate(128, 1));
    assert_eq!(Ok(MEM), heap.allocate(64, 1));
}

#[test]
fn heap_works_at_the_top_of_the_address_space() {
    let size: usize = 4096;
    let base: usize = usize::MAX - 4095 - size;
    assert_eq!(0, base % MIN_HEAP_ALIGN);
    let mut heap: Heap<3> = Heap::new(base, size).unwrap();
    assert_eq!(Ok(base), heap.allocate(1024, 1));
    assert_eq!(Ok(base + 1024), heap.allocate(1024, 1));
    assert_eq!(Ok(base + 2048), heap.allocate(2048, 1));
    assert_eq!(Some(base + 3072), heap.buddy(0, base + 2048));
    heap.deallocate(base + 2048, 2048, 1);
    heap.deallocate(base, 1024, 1);
    heap.deallocate(base + 1024, 1024, 1);
    assert_eq!(Ok(base), heap.allocate(4096, 4096));
}

fn takes_what_can_move_between_threads<T: Send>(value: T) -> T {
    value
}

#[test]
fn heap_moves_between_threads() {
    let heap: Heap<5> = Heap::new(MEM, 256).unwrap();
    let mut heap = takes_what_can_move_between_threads(heap);
    assert_eq!(Ok(MEM), heap.allocate(16, 16));
    heap.deallocate(MEM, 16, 16);
    assert_eq!(Ok(MEM), heap.allocate(256, 256));
}

#[test]
fn long_run_of_requests_and_returns() {
    let heap_size: usize = 1 << 16;
    let mut heap: Heap<12> = Heap::new(MEM, heap_size).unwrap();
    assert_eq!(32, heap.order_size(0));
    // What is handed out: address, size and alignment asked for, and the
    // length of the block.
    let mut out: Vec<(usize, usize, usize, usize)> = Vec::new();
    let mut state: u64 = 0x2545_f491_4f6c_dd1d;
    let mut served = 0;
    let mut exhausted = 0;
    for _ in 0..4000 {
        state = state
            .wrapping_mul(6364136223846793005)
            .wrapping_add(1442695040888963407);
        let draw = (state >> 33) as usize;
        if draw % 3 != 0 || out.is_empty() {
            let size = (draw >> 2) % 3000;
            let align = 1usize << ((draw >> 14) % 8);
            let block_size = heap.allocation_size(size, align).unwrap();
            match heap.allocate(size, align) {
                Ok(block) => {
                    assert_eq!(0, block % align);
                    assert_eq!(0, (block - MEM) % block_size);
                    assert!(MEM <= block && block + block_size <= MEM + heap_size);
                    for (other, _, _, other_size) in &out {
                        assert!(block + block_size <= *other || *other + *other_size <= block);
                    }
                    out.push((block, size, align, block_size));
                    served += 1;
                }
                Err(e) => {
                    assert_eq!(AllocationError::HeapExhausted, e);
                    // No free block is as long as this one would be.
                    let in_use: usize = out.iter().map(|b| b.3).sum();
                    assert!(in_use + block_size > heap_size || block_size > 32);
                    exhausted += 1;
                }
            }
        } else {
            let (block, size, align, _) = out.swap_remove((draw >> 5) % out.len());
            heap.deallocate(block, size, align);
        }
    }
    assert!(served > 1000);
    assert!(exhausted > 0);
    while let Some((block, size, align, _)) = out.pop() {
        heap.deallocate(block, size, align);
    }
    assert_eq!(Ok(MEM), heap.allocate(heap_size, 1));
}
