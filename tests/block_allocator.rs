use agb::block_allocator::BlockAllocator;
use agb::bump_allocator::{BumpAllocator, StartEnd};
use agb::free_list::Block;
use agb::layout::Layout;

fn layout(size: usize, align: usize) -> Layout {
    Layout::from_size_align(size, align).unwrap()
}

fn heap(start: usize, end: usize) -> BlockAllocator {
    BlockAllocator::new(StartEnd { start, end })
}

#[test]
fn either_layout_pads_to_header_and_granularity() {
    assert_eq!(Block::either_layout(layout(1, 1)), Layout { size: 8, align: 8 });
    assert_eq!(Block::either_layout(layout(0, 1)), Layout { size: 8, align: 8 });
    assert_eq!(Block::either_layout(layout(20, 4)), Layout { size: 24, align: 8 });
    assert_eq!(Block::either_layout(layout(32, 8)), Layout { size: 32, align: 8 });
    assert_eq!(Block::either_layout(layout(10, 16)), Layout { size: 16, align: 16 });
    assert_eq!(Block::either_layout(layout(0, 32)), Layout { size: 32, align: 32 });
    assert_eq!(Block::either_layout(layout(33, 16)), Layout { size: 48, align: 16 });
}

#[test]
fn layout_rejects_bad_alignment() {
    assert_eq!(Layout::from_size_align(8, 3), None);
    assert_eq!(Layout::from_size_align(8, 0), None);
    assert_eq!(Layout::from_size_align(8, 4), Some(Layout { size: 8, align: 4 }));
}

#[test]
fn bump_allocator_aligns_and_fails_past_the_end() {
    let mut bump = BumpAllocator::new(StartEnd { start: 0x1004, end: 0x1040 });
    assert_eq!(bump.alloc_critical(layout(8, 8)), Some(0x1008));
    assert_eq!(bump.current_tip(), 0x1010);
    assert_eq!(bump.alloc_critical(layout(16, 16)), Some(0x1010));
    assert_eq!(bump.alloc_critical(layout(33, 4)), None);
    assert_eq!(bump.current_tip(), 0x1020);
    assert_eq!(bump.alloc_critical(layout(32, 4)), Some(0x1020));
    assert_eq!(bump.current_tip(), 0x1040);
}

#[test]
fn fresh_allocations_come_from_the_tip() {
    let mut h = heap(0x2000, 0x3000);
    assert_eq!(h.allocate(layout(4, 4)), Some(0x2000));
    assert_eq!(h.allocate(layout(12, 4)), Some(0x2008));
    assert_eq!(h.allocate(layout(16, 16)), Some(0x2020));
    assert_eq!(h.current_tip(), 0x2030);
    // the 8 bytes skipped to align it were kept as a free block
    assert_eq!(h.number_of_blocks(), 1);
    assert_eq!(h.allocate(layout(8, 8)), Some(0x2018));
    assert_eq!(h.number_of_blocks(), 0);
}

#[test]
fn small_alignment_gap_on_an_unaligned_region_is_not_kept() {
    let mut h = heap(0x2004, 0x3000);
    assert_eq!(h.allocate(layout(8, 8)), Some(0x2008));
    assert_eq!(h.number_of_blocks(), 0);
    assert_eq!(h.current_tip(), 0x2010);
}

#[test]
fn allocations_honour_small_alignments() {
    let mut h = heap(0x2000, 0x3000);
    for align in [1usize, 2, 4, 8] {
        let p = h.allocate(layout(3, align)).unwrap();
        assert_eq!(p % align, 0);
        assert_eq!(p % 8, 0);
    }
    let big = h.allocate(layout(64, 32)).unwrap();
    assert_eq!(big % 32, 0);
}

#[test]
fn coalescing_two_neighbours() {
    let mut h = heap(0x2000, 0x3000);
    let a = h.allocate(layout(32, 4)).unwrap();
    let b = h.allocate(layout(32, 4)).unwrap();
    assert_eq!(b, a + 32);
    let tip = h.current_tip();
    h.dealloc(a, layout(32, 4));
    assert_eq!(h.number_of_blocks(), 1);
    h.dealloc(b, layout(32, 4));
    assert_eq!(h.number_of_blocks(), 1);
    assert_eq!(h.allocate(layout(64, 4)), Some(a));
    assert_eq!(h.current_tip(), tip);
    assert_eq!(h.number_of_blocks(), 0);
}

#[test]
fn coalescing_in_reverse_order_and_across_three() {
    let mut h = heap(0x2000, 0x3000);
    let a = h.allocate(layout(16, 8)).unwrap();
    let b = h.allocate(layout(16, 8)).unwrap();
    let c = h.allocate(layout(16, 8)).unwrap();
    let _guard = h.allocate(layout(8, 8)).unwrap();
    h.dealloc(c, layout(16, 8));
    h.dealloc(a, layout(16, 8));
    assert_eq!(h.number_of_blocks(), 2);
    h.dealloc(b, layout(16, 8));
    assert_eq!(h.number_of_blocks(), 1);
    assert_eq!(h.allocate(layout(48, 8)), Some(a));
}

#[test]
fn dealloc_without_normalising_keeps_neighbours_apart() {
    let mut h = heap(0x2000, 0x3000);
    let a = h.allocate(layout(16, 8)).unwrap();
    let b = h.allocate(layout(16, 8)).unwrap();
    h.dealloc_no_normalise(b, layout(16, 8));
    h.dealloc_no_normalise(a, layout(16, 8));
    assert_eq!(h.number_of_blocks(), 2);
    // an exact fit takes the first block in address order
    assert_eq!(h.allocate(layout(16, 8)), Some(a));
    assert_eq!(h.number_of_blocks(), 1);
}

#[test]
fn round_trip_restores_the_free_list() {
    let mut h = heap(0x2000, 0x3000);
    let a = h.allocate(layout(64, 8)).unwrap();
    let _guard = h.allocate(layout(8, 8)).unwrap();
    let c = h.allocate(layout(32, 8)).unwrap();
    let _guard2 = h.allocate(layout(8, 8)).unwrap();
    h.dealloc(a, layout(64, 8));
    h.dealloc(c, layout(32, 8));
    assert_eq!(h.number_of_blocks(), 2);
    let tip = h.current_tip();
    // served by splitting the first block
    let p = h.allocate(layout(24, 8)).unwrap();
    assert_eq!(p, a);
    assert_eq!(h.number_of_blocks(), 2);
    h.dealloc(p, layout(24, 8));
    assert_eq!(h.number_of_blocks(), 2);
    // the first block again, split in two exact halves
    assert_eq!(h.allocate(layout(32, 8)), Some(a));
    assert_eq!(h.allocate(layout(32, 8)), Some(a + 32));
    assert_eq!(h.number_of_blocks(), 1);
    // served exactly by the second block, then given back
    let q = h.allocate(layout(32, 8)).unwrap();
    assert_eq!(q, c);
    assert_eq!(h.number_of_blocks(), 0);
    h.dealloc(q, layout(32, 8));
    assert_eq!(h.number_of_blocks(), 1);
    assert_eq!(h.current_tip(), tip);
}

#[test]
fn split_leaves_the_remainder_in_place() {
    let mut h = heap(0x2000, 0x3000);
    let a = h.allocate(layout(64, 8)).unwrap();
    let _guard = h.allocate(layout(8, 8)).unwrap();
    h.dealloc(a, layout(64, 8));
    // 64 - 24 = 40 bytes remain, starting 24 bytes in
    assert_eq!(h.allocate(layout(20, 4)), Some(a));
    assert_eq!(h.number_of_blocks(), 1);
    assert_eq!(h.allocate(layout(40, 8)), Some(a + 24));
    assert_eq!(h.number_of_blocks(), 0);
}

#[test]
fn block_too_small_to_split_is_skipped() {
    let mut h = heap(0x2000, 0x3000);
    let a = h.allocate(layout(32, 8)).unwrap();
    let _guard = h.allocate(layout(8, 8)).unwrap();
    h.dealloc(a, layout(32, 8));
    let tip = h.current_tip();
    // 32 is neither exactly 24 + ... nor 24 plus a header: 32 - 24 = 8 is a header, so it splits
    assert_eq!(h.allocate(layout(24, 8)), Some(a));
    assert_eq!(h.number_of_blocks(), 1);
    // 8 bytes left: a request of 16 fits neither way and goes to the tip
    assert_eq!(h.allocate(layout(16, 8)), Some(tip));
    assert_eq!(h.number_of_blocks(), 1);
}

#[test]
fn exhaustion_and_reuse() {
    let mut h = heap(0x4000, 0x4100);
    let mut blocks = Vec::new();
    while let Some(p) = h.allocate(layout(32, 8)) {
        blocks.push(p);
    }
    assert_eq!(blocks.len(), 8);
    assert_eq!(h.allocate(layout(32, 8)), None);
    assert_eq!(h.current_tip(), 0x4100);
    h.dealloc(blocks[3], layout(32, 8));
    assert_eq!(h.allocate(layout(32, 8)), Some(blocks[3]));
    assert_eq!(h.allocate(layout(32, 8)), None);
}

#[test]
fn zero_copy_growth_at_the_tip() {
    let mut h = heap(0x2000, 0x3000);
    let _a = h.allocate(layout(16, 8)).unwrap();
    let p = h.allocate(layout(24, 8)).unwrap();
    let tip = h.current_tip();
    assert_eq!(h.growth(p, layout(24, 8), 100), Some(p));
    // 24 -> 104 bytes
    assert_eq!(h.current_tip(), tip + 80);
    assert_eq!(h.number_of_blocks(), 0);
}

#[test]
fn growth_at_the_tip_without_room_moves() {
    let mut h = heap(0x2000, 0x2040);
    let a = h.allocate(layout(16, 8)).unwrap();
    let p = h.allocate(layout(16, 8)).unwrap();
    h.dealloc(a, layout(16, 8));
    // no room past the tip; the free block at the front is too small
    assert_eq!(h.growth(p, layout(16, 8), 64), None);
    assert_eq!(h.current_tip(), 0x2020);
    assert_eq!(h.number_of_blocks(), 1);
    // a smaller growth still fits before the end
    assert_eq!(h.growth(p, layout(16, 8), 48), Some(p));
    assert_eq!(h.current_tip(), 0x2040);
}

#[test]
fn growth_into_the_next_free_block() {
    let mut h = heap(0x2000, 0x3000);
    let p = h.allocate(layout(16, 8)).unwrap();
    let b = h.allocate(layout(32, 8)).unwrap();
    let _guard = h.allocate(layout(8, 8)).unwrap();
    h.dealloc(b, layout(32, 8));
    let tip = h.current_tip();
    // 16 + 32 = 48: consumed whole
    assert_eq!(h.growth(p, layout(16, 8), 48), Some(p));
    assert_eq!(h.number_of_blocks(), 0);
    assert_eq!(h.current_tip(), tip);
}

#[test]
fn growth_splits_the_next_free_block() {
    let mut h = heap(0x2000, 0x3000);
    let p = h.allocate(layout(16, 8)).unwrap();
    let b = h.allocate(layout(64, 8)).unwrap();
    let _guard = h.allocate(layout(8, 8)).unwrap();
    h.dealloc(b, layout(64, 8));
    assert_eq!(h.growth(p, layout(16, 8), 32), Some(p));
    assert_eq!(h.number_of_blocks(), 1);
    // the remainder starts right after the grown allocation and has 48 bytes
    assert_eq!(h.allocate(layout(48, 8)), Some(p + 32));
}

#[test]
fn growth_past_a_too_small_last_block_moves() {
    let mut h = heap(0x2000, 0x3000);
    let p = h.allocate(layout(16, 8)).unwrap();
    let b = h.allocate(layout(16, 8)).unwrap();
    h.dealloc(b, layout(16, 8));
    assert_eq!(h.current_tip(), p + 32);
    // the free block after it is neither an exact fit nor splittable
    assert_eq!(h.growth(p, layout(16, 8), 64), Some(p + 32));
    assert_eq!(h.current_tip(), p + 96);
    // the old block merged with its free neighbour
    assert_eq!(h.number_of_blocks(), 1);
    assert_eq!(h.allocate(layout(32, 8)), Some(p));
}

#[test]
fn growth_two_blocks_into_fresh_memory() {
    let mut h = heap(0x2000, 0x3000);
    let a = h.allocate(layout(32, 8)).unwrap();
    let b = h.allocate(layout(32, 8)).unwrap();
    h.dealloc(b, layout(32, 8));
    assert_eq!(h.growth(a, layout(32, 8), 96), Some(0x2040));
    assert_eq!(h.current_tip(), 0x20a0);
    assert_eq!(h.number_of_blocks(), 1);
    assert_eq!(h.allocate(layout(64, 8)), Some(a));
}

#[test]
fn growth_moves_to_an_exact_fit_before_a_splittable_block() {
    let mut h = heap(0x2000, 0x3000);
    let big = h.allocate(layout(128, 8)).unwrap();
    let _g1 = h.allocate(layout(8, 8)).unwrap();
    let exact = h.allocate(layout(48, 8)).unwrap();
    let _g2 = h.allocate(layout(8, 8)).unwrap();
    let p = h.allocate(layout(16, 8)).unwrap();
    let _g3 = h.allocate(layout(8, 8)).unwrap();
    h.dealloc(big, layout(128, 8));
    h.dealloc(exact, layout(48, 8));
    assert_eq!(h.number_of_blocks(), 2);
    assert_eq!(h.growth(p, layout(16, 8), 48), Some(exact));
    // the old block is free now
    assert_eq!(h.number_of_blocks(), 2);
    assert_eq!(h.allocate(layout(16, 8)), Some(big));
}

#[test]
fn growth_moves_to_a_splittable_block() {
    let mut h = heap(0x2000, 0x3000);
    let big = h.allocate(layout(128, 8)).unwrap();
    let _g1 = h.allocate(layout(8, 8)).unwrap();
    let p = h.allocate(layout(16, 8)).unwrap();
    let _g2 = h.allocate(layout(8, 8)).unwrap();
    h.dealloc(big, layout(128, 8));
    assert_eq!(h.growth(p, layout(16, 8), 40), Some(big));
    assert_eq!(h.number_of_blocks(), 2);
    assert_eq!(h.allocate(layout(88, 8)), Some(big + 40));
    assert_eq!(h.allocate(layout(16, 8)), Some(p));
}

#[test]
fn growth_moves_to_fresh_memory() {
    let mut h = heap(0x2000, 0x3000);
    let p = h.allocate(layout(16, 8)).unwrap();
    let _guard = h.allocate(layout(8, 8)).unwrap();
    let tip = h.current_tip();
    assert_eq!(h.growth(p, layout(16, 8), 64), Some(tip));
    assert_eq!(h.current_tip(), tip + 64);
    assert_eq!(h.number_of_blocks(), 1);
    assert_eq!(h.allocate(layout(16, 8)), Some(p));
}
