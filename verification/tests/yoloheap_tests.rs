//! The heap's regression tests: metadata codec, arena construction,
//! first-fit search and splitting, allocation, release and coalescing, and
//! bounded writes.

use yolovm::yoloheap::{
    Heap, HeapError, _Footer, _Header, BOTTOM_OF_HEAP, B_ALLOCED, FOOTER_SIZE, HEADER_FOOTER_SIZE,
    HEADER_SIZE, PB_ALLOCED, PB_B_ALLOCED,
};

#[test]
fn test_header_from_bytes() {
    let h_n_n = _Header::_new(12, 0, 0);
    let h_y_n = _Header::_new(12, 1, 0);
    let h_n_y = _Header::_new(12, 0, 1);
    let h_y_y = _Header::_new(12, 1, 1);

    assert_eq!(h_n_n, _Header::_from_byte(&(12)));
    assert_eq!(h_y_n, _Header::_from_byte(&(12 + B_ALLOCED)));
    assert_eq!(h_n_y, _Header::_from_byte(&(12 + PB_ALLOCED)));
    assert_eq!(h_y_y, _Header::_from_byte(&(12 + PB_B_ALLOCED)));
}

#[test]
fn test_header_to_bytes() {
    let h_n_n = _Header::_new(12, 0, 0);
    let h_y_n = _Header::_new(12, 1, 0);
    let h_n_y = _Header::_new(12, 0, 1);
    let h_y_y = _Header::_new(12, 1, 1);

    assert_eq!(h_n_n._to_byte(), 12);
    assert_eq!(h_y_n._to_byte(), 12 + B_ALLOCED);
    assert_eq!(h_n_y._to_byte(), 12 + PB_ALLOCED);
    assert_eq!(h_y_y._to_byte(), 12 + PB_B_ALLOCED);
}

#[test]
fn test_new_heap() {
    let heap = Heap::new_heap(32);
    assert_eq!(heap.size, 32);
}

#[test]
fn test_new_heap_round() {
    let heap = Heap::new_heap(29);
    assert_eq!(heap.size, 32);
}

#[test]
fn test_right_init_header_footer() {
    let heap = Heap::new_heap(32);
    let h = _Header::_from_byte(&heap.heap[BOTTOM_OF_HEAP]);
    let f = _Footer::_from_byte(&heap.heap[heap.size - FOOTER_SIZE]);
    assert_eq!(h, f);
}

#[test]
fn test_write_header_footer() {
    let mut heap = Heap::new_heap(32);
    let h = _Header::_new(32, 1, 0);
    let f = _Footer::_from_byte(&heap.heap[heap.size - FOOTER_SIZE]);
    assert_ne!(h, f);

    heap._write_header_footer(&h, 0);
    let f1 = _Footer::_from_byte(&heap.heap[heap.size - FOOTER_SIZE]);
    let h1 = _Header::_from_byte(&heap.heap[BOTTOM_OF_HEAP]);
    assert_eq!(h, f1);
    assert_eq!(h1, f1);
}

#[test]
fn test_find_free_block_init_nomodify() {
    let heap_size = 32;
    let mut heap = Heap::new_heap(heap_size);
    let fb_not = heap._find_free_block(heap_size);
    assert_eq!(fb_not, None);

    let fb_yes = heap._find_free_block(28);
    assert_eq!(fb_yes, Some((0, heap_size)));
}

#[test]
fn test_find_free_block_squish() {
    let heap_size = 32;
    let mut heap = Heap::new_heap(heap_size);
    let fb_not = heap._find_free_block(10);
    assert_eq!(fb_not, Some((0, 10 + HEADER_FOOTER_SIZE)));
    assert_eq!(
        heap.heap[10 + HEADER_FOOTER_SIZE] as usize,
        heap_size - (10 + HEADER_FOOTER_SIZE)
    );
    assert_eq!(
        heap.heap[heap_size - FOOTER_SIZE] as usize,
        heap_size - (10 + HEADER_FOOTER_SIZE)
    );
}

#[test]
fn test_find_free_block_squish_largest() {
    let heap_size = 32;
    let mut heap = Heap::new_heap(heap_size);
    let fb_not = heap._find_free_block(24);
    assert_eq!(fb_not, Some((0, 24 + 2 + HEADER_FOOTER_SIZE)));
    assert_eq!(
        heap.heap[24 + 2 + HEADER_FOOTER_SIZE] as usize,
        heap_size - (24 + 2 + HEADER_FOOTER_SIZE)
    );
    assert_eq!(
        heap.heap[heap_size - FOOTER_SIZE] as usize,
        heap_size - (24 + 2 + HEADER_FOOTER_SIZE)
    );
}

#[test]
fn test_allocate_simple() {
    let heap_size = 12;
    let mut heap = Heap::new_heap(heap_size);
    let mut old_heap = heap.clone();

    let _ = old_heap._find_free_block(4);
    let ptr = heap.allocate(4);

    // All elements are initialized as 0, should point to first element.
    assert_eq!(heap.heap[ptr.unwrap()], 0);

    let alloc_h = _Header::_from_byte(&heap.heap[BOTTOM_OF_HEAP]);
    let noalloc_h = _Header::_from_byte(&old_heap.heap[BOTTOM_OF_HEAP]);

    assert_eq!(alloc_h.block_size, noalloc_h.block_size);
    assert_eq!(alloc_h.pblock_alloc, noalloc_h.pblock_alloc);
    assert_ne!(alloc_h.block_alloc, noalloc_h.block_alloc);
}

#[test]
fn test_allocate_no_space() {
    let heap_size = 12;
    let mut heap = Heap::new_heap(heap_size);
    let old_heap = heap.clone();
    let ptr = heap.allocate(12);

    assert_eq!(ptr, None);
    assert_eq!(heap.heap, old_heap.heap);
}

#[test]
fn test_multi_allocate() {
    let heap_size = 20;
    let mut heap = Heap::new_heap(heap_size);
    let ptr1 = heap.allocate(4).unwrap();
    let ptr2 = heap.allocate(6).unwrap(); // Becomes 8 with rounding

    assert_eq!(heap.heap[ptr1 - HEADER_SIZE], 8 + 1); // Size 8 with rounding + 1 for allocation
    assert_eq!(heap.heap[ptr2 - HEADER_SIZE], 8 + 1 + 2); // We ask for 6, round to 8 (+2), alloc +1 and prev alloc +2.

    let p_alloc_h = _Header::_from_byte(&heap.heap[ptr2 - HEADER_SIZE]);
    assert_eq!(p_alloc_h.block_alloc, 1);
    assert_eq!(p_alloc_h.pblock_alloc, 1);
}

#[test]
fn test_multi_allocate_nospace() {
    let heap_size = 20;
    let mut heap = Heap::new_heap(heap_size);
    let ptr1 = heap.allocate(4).unwrap();
    assert_eq!(heap.heap[ptr1 - HEADER_SIZE], 8 + 1); // 8 + 1 for size rounded and allocated +1.

    let ptr2 = heap.allocate(12);
    assert!(ptr2.is_none());
}

#[test]
fn test_free_empty() {
    // We always allow a free except if the pointer is out of bounds.
}

#[test]
fn test_write_exact() {
    let heap_size = 20;
    let data = vec![1, 2, 3, 4];
    let data_size = data.len();

    let mut heap = Heap::new_heap(heap_size);
    let ptr = heap.allocate(4).unwrap();
    let wres = heap.write_bytes(&ptr, &data, data_size, 0);

    assert!(wres.is_ok());
    assert_eq!(heap.heap[ptr], data[0]);
    assert_eq!(heap.heap[ptr + 1], data[1]);
    assert_eq!(heap.heap[ptr + 2], data[2]);
    assert_eq!(heap.heap[ptr + 3], data[3]);
}

#[test]
fn test_write_less_then_block() {
    let heap_size = 20;
    let data = vec![1, 2, 3, 4];
    let data_size = data.len();

    let mut heap = Heap::new_heap(heap_size);
    let ptr = heap.allocate(6).unwrap();
    let wres = heap.write_bytes(&ptr, &data, data_size, 0);
    assert!(wres.is_ok());
    assert_eq!(heap.heap[ptr], data[0]);
    assert_eq!(heap.heap[ptr + 1], data[1]);
    assert_eq!(heap.heap[ptr + 2], data[2]);
    assert_eq!(heap.heap[ptr + 3], data[3]);
}

#[test]
fn test_write_more_then_block() {
    let heap_size = 20;
    let data = vec![1, 2, 3, 4, 5];
    let data_size = data.len();

    let mut heap = Heap::new_heap(heap_size);

    let ptr = heap.allocate(2).unwrap();

    let wres = heap.write_bytes(&ptr, &data, data_size, 0);

    assert!(wres.is_err());
}

#[test]
fn test_write_multiple() {
    let heap_size = 20;
    let data = vec![1, 2, 3];

    let data_size = data.len();

    let mut heap = Heap::new_heap(heap_size);
    let ptr = heap.allocate(6).unwrap();

    let wres = heap.write_bytes(&ptr, &data, data_size, 0);
    let wres_ = heap.write_bytes(&ptr, &data, data_size, data_size);

    assert!(wres.is_ok());
    assert!(wres_.is_ok());

    assert_eq!(heap.heap[ptr], data[0]);
    assert_eq!(heap.heap[ptr + 1], data[1]);
    assert_eq!(heap.heap[ptr + 2], data[2]);

    assert_eq!(heap.heap[ptr + 3], data[0]);
    assert_eq!(heap.heap[ptr + 4], data[1]);
    assert_eq!(heap.heap[ptr + 5], data[2]);
}

#[test]
fn write_data_zsize() {
    let heap_size = 20;
    let data: Vec<u8> = vec![];
    let data_size = data.len();

    let mut heap = Heap::new_heap(heap_size);
    let ptr = heap.allocate(4).unwrap();
    let wres = heap.write_bytes(&ptr, &data, data_size, 0);

    assert!(wres.is_err());
}

#[test]
fn test_free_single_block() {
    let mut heap = Heap::new_heap(16);
    let ptr = heap.allocate(4).unwrap(); // block size is 8
    let ptrr = ptr;

    heap.free(ptr).expect("Failed to free block");
    // After freeing, check if the block is correctly marked as free
    let header = _Header::_from_byte(&heap.heap[ptrr - HEADER_SIZE]);
    assert_eq!(header.block_alloc, 0, "Block should be marked as free");
}

#[test]
fn test_free_with_coalescing_adjacent_blocks() {
    let mut heap = Heap::new_heap(32);

    let ptr1 = heap.allocate(4).expect("Failed to allocate first block");
    let ptr2 = heap.allocate(4).expect("Failed to allocate second block");

    heap.free(ptr1).expect("Failed to free first block");
    heap.free(ptr2).expect("Failed to free second block");

    // Verify coalescing: the whole space should be free now
    let header = _Header::_from_byte(&heap.heap[BOTTOM_OF_HEAP]);
    assert_eq!(
        header.block_size, 32,
        "Blocks should be coalesced into a single large free block"
    );
    assert_eq!(header.block_alloc, 0, "Coalesced block should be marked as free");
    assert_eq!(
        header.pblock_alloc, 0,
        "Should also be zero, might as well check for debugging."
    );
}

#[test]
fn test_free_non_adjacent_blocks_no_coalescing() {
    let mut heap = Heap::new_heap(32);

    // Allocate three blocks
    let ptr1 = heap.allocate(4).expect("Failed to allocate first block");
    let _ptr2 = heap.allocate(4).expect("Failed to allocate second block");
    let ptr3 = heap.allocate(4).expect("Failed to allocate third block");

    // Free the first and third blocks, leaving the second allocated
    heap.free(ptr1).expect("Failed to free first block");
    heap.free(ptr3).expect("Failed to free third block");

    // Verify that no coalescing happened across the allocated middle block
    let header1 = _Header::_from_byte(&heap.heap[BOTTOM_OF_HEAP]);
    let header3 = _Header::_from_byte(&heap.heap[ptr3 - HEADER_SIZE]);

    assert_eq!(header1.block_alloc, 0, "First block should be marked as free");
    assert_eq!(header3.block_alloc, 0, "Third block should be marked as free");

    let mid_header = _Header::_from_byte(&heap.heap[_ptr2 - HEADER_SIZE]);
    assert_eq!(mid_header.block_alloc, 1, "Middle block should remain allocated");
}

#[test]
fn test_free_coalescing_multiple_adjacent_blocks() {
    let mut heap = Heap::new_heap(64);

    // Allocate four blocks
    let ptr1 = heap.allocate(4).expect("Failed to allocate first block");
    let ptr2 = heap.allocate(4).expect("Failed to allocate second block");
    let ptr3 = heap.allocate(4).expect("Failed to allocate third block");
    let ptr4 = heap.allocate(4).expect("Failed to allocate fourth block");

    // Free all blocks to test coalescing of multiple adjacent blocks
    heap.free(ptr1).expect("Failed to free first block");
    heap.free(ptr2).expect("Failed to free second block");
    heap.free(ptr3).expect("Failed to free third block");
    heap.free(ptr4).expect("Failed to free fourth block");

    // After freeing, the entire heap should be a single large free block
    let header = _Header::_from_byte(&heap.heap[BOTTOM_OF_HEAP]);
    assert_eq!(
        header.block_size, 64,
        "All blocks should be coalesced into a single large free block"
    );
    assert_eq!(header.block_alloc, 0, "Coalesced block should be marked as free");
}

#[test]
fn scenario_initial_block_first_fit() {
    // Capacity 32: the initial state is one free block of size 32, and a
    // request for 28 payload bytes takes it whole.
    let mut heap = Heap::new_heap(32);
    assert_eq!(heap._find_free_block(28), Some((0, 32)));
}

#[test]
fn scenario_first_allocation_header_byte() {
    // Capacity 32: the first 4-byte allocation lands at offset 1, and the
    // header byte at offset 0 reads size 8, allocated, previous free.
    let mut heap = Heap::new_heap(32);
    assert_eq!(heap.allocate(4), Some(1));
    assert_eq!(heap.heap[0], 9);
    let h = _Header::_from_byte(&heap.heap[0]);
    assert_eq!(h.block_size, 8);
    assert_eq!(h.block_alloc, 1);
    assert_eq!(h.pblock_alloc, 0);
}

#[test]
fn scenario_second_allocation_sees_allocated_neighbour() {
    // Capacity 20: after two allocations the second block's header knows
    // both itself and its predecessor are allocated.
    let mut heap = Heap::new_heap(20);
    let _p1 = heap.allocate(4).unwrap();
    let p2 = heap.allocate(6).unwrap();
    let h = _Header::_from_byte(&heap.heap[p2 - 1]);
    assert_eq!(h.block_alloc, 1);
    assert_eq!(h.pblock_alloc, 1);
}

#[test]
fn scenario_release_reabsorbs_whole_arena() {
    // Capacity 16: one allocation and its release leave one free block
    // spanning the whole arena again.
    let mut heap = Heap::new_heap(16);
    let p = heap.allocate(4).unwrap();
    heap.free(p).expect("free failed");
    let h = _Header::_from_byte(&heap.heap[0]);
    assert_eq!(h.block_size, 16);
    assert_eq!(h.block_alloc, 0);
}

#[test]
fn scenario_release_in_either_order_coalesces() {
    // Capacity 32: two 4-byte allocations released in either order always
    // leave a single free block of size 32.
    for first_then_second in [true, false] {
        let mut heap = Heap::new_heap(32);
        let p1 = heap.allocate(4).unwrap();
        let p2 = heap.allocate(4).unwrap();
        if first_then_second {
            heap.free(p1).expect("free failed");
            heap.free(p2).expect("free failed");
        } else {
            heap.free(p2).expect("free failed");
            heap.free(p1).expect("free failed");
        }
        let h = _Header::_from_byte(&heap.heap[0]);
        assert_eq!(h.block_size, 32);
        assert_eq!(h.block_alloc, 0);
    }
}

#[test]
fn scenario_oversized_write_changes_nothing() {
    // A write longer than the block's usable capacity fails and leaves
    // every byte of the arena exactly as it was.
    let mut heap = Heap::new_heap(20);
    let p = heap.allocate(4).unwrap();
    let before = heap.clone();
    let data = vec![9u8; 7];
    assert!(heap.write_bytes(&p, &data, 7, 0).is_err());
    assert_eq!(heap.heap, before.heap);
}

#[test]
fn free_then_allocate_same_size_succeeds() {
    // A release immediately followed by an allocation of the same size
    // succeeds and hands the freed region back out.
    let mut heap = Heap::new_heap(32);
    let p = heap.allocate(4).unwrap();
    heap.free(p).expect("free failed");
    assert_eq!(heap.allocate(4), Some(p));
}

#[test]
fn free_rejects_bad_pointers() {
    let mut heap = Heap::new_heap(32);
    let p = heap.allocate(10).unwrap(); // block of size 16 at offset 0

    // Out of bounds.
    assert_eq!(heap.free(100), Err(HeapError::InvalidPointer));
    // The bottom of the arena holds a header, never a payload.
    assert_eq!(heap.free(0), Err(HeapError::InvalidPointer));
    // Misaligned: payloads sit one past a multiple of four.
    assert_eq!(heap.free(2), Err(HeapError::InvalidPointer));
    // Aligned and in bounds, but inside a block rather than at its payload.
    assert_eq!(heap.free(5), Err(HeapError::InvalidPointer));

    // A proper release works, and releasing again is a double free.
    assert_eq!(heap.free(p), Ok(()));
    assert_eq!(heap.free(p), Err(HeapError::DoubleFree));
}

#[test]
fn write_rejects_zero_and_short_sources() {
    let mut heap = Heap::new_heap(20);
    let p = heap.allocate(4).unwrap();
    let data = vec![1u8, 2];
    // Zero-length writes are refused.
    assert_eq!(heap.write_bytes(&p, &data, 0, 0), Err(HeapError::InvalidRequest));
    // Asking for more bytes than the source provides is refused.
    assert_eq!(heap.write_bytes(&p, &data, 3, 0), Err(HeapError::InvalidRequest));
    // A write past the usable capacity is refused.
    assert_eq!(heap.write_bytes(&p, &data, 2, 5), Err(HeapError::InvalidPointer));
}

#[test]
fn read_back_what_was_written() {
    let mut heap = Heap::new_heap(20);
    let p = heap.allocate(6).unwrap();
    let data = vec![7u8, 8, 9];
    heap.write_bytes(&p, &data, 3, 1).expect("write failed");
    assert_eq!(heap.read_bytes(&p, 3, 1), Ok(vec![7, 8, 9]));
    // The same bounds checks guard reads.
    assert_eq!(heap.read_bytes(&p, 0, 0), Err(HeapError::InvalidRequest));
    assert_eq!(heap.read_bytes(&p, 7, 0), Err(HeapError::InvalidPointer));
}

#[test]
fn header_codec_extremes() {
    // The largest block a metadata byte can describe, with both bits set.
    let h = _Header::_new(252, 1, 1);
    assert_eq!(h._to_byte(), 255);
    let d = _Header::_from_byte(&255);
    assert_eq!(d.block_size, 252);
    assert_eq!(d.block_alloc, 1);
    assert_eq!(d.pblock_alloc, 1);

    // A byte's two low bits never contribute to the size.
    assert_eq!(_Header::_get_bsize_from_byte(&13), 12);
    assert_eq!(_Header::_get_alloc_val_from_byte(&13), 1);
    assert_eq!(_Header::_get_prev_alloc_val_from_byte(&13), 0);
    assert_eq!(_Header::_get_alloc_vals_from_byte(&15), 3);
    assert_eq!(_Header::_default(), _Header::_new(4, 0, 0));
}

/// Walks the arena's block chain, returning each block's offset, size, and
/// allocation bit.
fn walk_blocks(heap: &Heap) -> Vec<(usize, usize, u8)> {
    let mut blocks = Vec::new();
    let mut i = 0;
    while i < heap.size {
        let h = _Header::_from_byte(&heap.heap[i]);
        blocks.push((i, h.block_size, h.block_alloc));
        i += h.block_size;
    }
    blocks
}

#[test]
fn block_sizes_always_sum_to_capacity() {
    // Whatever sequence of operations ran, the blocks exactly tile the
    // arena: their sizes sum to its capacity.
    let mut heap = Heap::new_heap(64);
    let p1 = heap.allocate(4).unwrap();
    let p2 = heap.allocate(10).unwrap();
    let _p3 = heap.allocate(2).unwrap();
    heap.free(p1).expect("free failed");
    let sum: usize = walk_blocks(&heap).iter().map(|b| b.1).sum();
    assert_eq!(sum, 64);
    heap.free(p2).expect("free failed");
    let sum: usize = walk_blocks(&heap).iter().map(|b| b.1).sum();
    assert_eq!(sum, 64);
}

#[test]
fn no_two_adjacent_blocks_are_both_free() {
    // After any successful release, walking the chain never meets two free
    // blocks in a row.
    let mut heap = Heap::new_heap(64);
    let p1 = heap.allocate(4).unwrap();
    let p2 = heap.allocate(4).unwrap();
    let p3 = heap.allocate(4).unwrap();
    for p in [p2, p1, p3] {
        heap.free(p).expect("free failed");
        let blocks = walk_blocks(&heap);
        for w in blocks.windows(2) {
            assert!(w[0].2 == 1 || w[1].2 == 1, "adjacent free blocks at {:?}", w);
        }
    }
}

#[test]
fn allocation_never_lands_in_a_too_small_block() {
    // The block behind a returned offset is never smaller than the payload
    // plus a header and footer, rounded up to a multiple of four.
    let mut heap = Heap::new_heap(64);
    for (payload, minimum) in [(2usize, 4usize), (4, 8), (5, 8), (7, 12), (10, 12), (11, 16)] {
        let p = heap.allocate(payload).unwrap();
        let h = _Header::_from_byte(&heap.heap[p - 1]);
        assert!(h.block_size >= minimum, "payload {} got block {}", payload, h.block_size);
        heap.free(p).expect("free failed");
    }
}

#[test]
fn free_then_allocate_smaller_also_succeeds() {
    // Freeing a block guarantees room for any request no larger than it.
    let mut heap = Heap::new_heap(8);
    let p = heap.allocate(6).unwrap();
    assert_eq!(heap.allocate(2), None);
    heap.free(p).expect("free failed");
    assert!(heap.allocate(2).is_some());
}
