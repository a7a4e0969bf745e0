//! `Heap4`: first fit, the split threshold, coalescing, and the refusals a
//! `Block` with its generation makes possible.

use std::collections::BTreeSet;

use rusty_rtos_heap_core::{Error, Heap4, Region};

const TOTAL: usize = 8192;
const ALIGN: usize = 8;
const LINK: usize = 8;

type Heap = Heap4<TOTAL, ALIGN, LINK>;

#[test]
fn protector_a_double_free_is_refused() {
    let mut heap = Heap::new();
    let block = heap.allocate(64).expect("room for 64 bytes");

    assert_eq!(heap.free(block), Ok(()), "the first free is the good one");

    let free_bytes = heap.free_bytes();
    assert_eq!(
        heap.free(block),
        Err(Error::Gone),
        "the second free must be refused rather than ignored"
    );
    assert_eq!(
        heap.free_bytes(),
        free_bytes,
        "a refused free must not have changed the heap"
    );
}

#[test]
fn freeing_a_reallocated_block_is_refused() {
    let mut heap = Heap::new();

    let first = heap.allocate(64).expect("room for 64 bytes");
    let offset = first.offset();
    assert_eq!(heap.free(first), Ok(()));

    let second = heap.allocate(64).expect("the same room, again");
    assert_eq!(
        second.offset(),
        offset,
        "this test is only meaningful if the block came back at the same place"
    );
    assert_ne!(
        second.generation(),
        first.generation(),
        "and only if the generation moved"
    );

    assert_eq!(
        heap.free(first),
        Err(Error::Gone),
        "the stale handle must not free somebody else's allocation"
    );
    assert_eq!(heap.free(second), Ok(()));
}

#[test]
fn a_refused_free_changes_nothing() {
    let mut heap = Heap::new();
    let block = heap.allocate(64).expect("room for 64 bytes");
    heap.free(block).expect("the good free");

    let before = (
        heap.free_bytes(),
        heap.minimum_ever_free_bytes(),
        heap.frees(),
    );
    for _ in 0..8 {
        assert_eq!(heap.free(block), Err(Error::Gone));
    }
    let after = (
        heap.free_bytes(),
        heap.minimum_ever_free_bytes(),
        heap.frees(),
    );

    assert_eq!(before, after, "eight refused frees must be eight no-ops");
}

#[test]
fn generations_do_not_repeat_while_blocks_are_live() {
    let mut heap = Heap::new();
    let mut seen = BTreeSet::new();
    let mut blocks = Vec::new();

    for _ in 0..16 {
        let b = heap.allocate(64).expect("room");
        assert!(seen.insert(b.generation()), "a generation was reused");
        blocks.push(b);
    }
    for b in blocks {
        assert_eq!(heap.free(b), Ok(()));
    }
}

#[test]
fn the_ordinary_path_is_unchanged() {
    let mut heap = Heap::new();

    let warm = heap.allocate(16).expect("force prvHeapInit");
    heap.free(warm).expect("the warm-up frees");
    let empty = heap.free_bytes();

    let a = heap.allocate(64).expect("a");
    let b = heap.allocate(128).expect("b");
    let c = heap.allocate(256).expect("c");
    assert!(heap.free_bytes() < empty);

    assert_eq!(heap.free(b), Ok(()));
    assert_eq!(heap.free(a), Ok(()));
    assert_eq!(heap.free(c), Ok(()));

    assert_eq!(
        heap.free_bytes(),
        empty,
        "every byte came back, so the three blocks coalesced into one"
    );
}

// The refusals that need an offset no honest `Block` carries, made through
// `free_raw`, which runs the same offset checks before the allocated bit.

#[test]
fn an_interior_offset_is_refused() {
    let mut heap = Heap::new();
    let block = heap.allocate(128).expect("room for 128 bytes");

    assert_eq!(heap.free_raw(block.offset().saturating_add(1)), Err(Error::InvalidArgument));

    assert_eq!(heap.free(block), Ok(()), "the real one still frees");
}

#[test]
fn an_offset_past_the_arena_is_refused() {
    let mut heap = Heap::new();
    let _ = heap.allocate(64).expect("lay the arena out");
    assert_eq!(heap.free_raw(TOTAL as u64 + ALIGN as u64), Err(Error::InvalidArgument));
}

#[test]
fn an_offset_below_the_first_header_is_refused() {
    let mut heap = Heap::new();
    let _ = heap.allocate(64).expect("lay the arena out");
    assert_eq!(heap.free_raw(0), Err(Error::InvalidArgument));
}

#[test]
fn an_offset_that_was_never_allocated_is_refused() {
    let mut heap = Heap::new();
    let live = heap.allocate(64).expect("room for 64 bytes");
    assert_eq!(heap.free_raw(live.offset().saturating_add(1024)), Err(Error::Gone));
    assert_eq!(heap.free(live), Ok(()));
}

/// The right offset with the wrong generation: the handle of an earlier
/// allocation at the same place, while a later one lives there.
#[test]
fn the_right_offset_with_the_wrong_generation_is_refused() {
    let mut heap = Heap::new();
    let earlier = heap.allocate(64).expect("room for 64 bytes");
    heap.free(earlier).expect("freed");
    let block = heap.allocate(64).expect("room for 64 bytes");
    assert_eq!(block.offset(), earlier.offset());
    assert_eq!(block.generation(), earlier.generation().wrapping_add(1));

    assert_eq!(heap.free(earlier), Err(Error::Gone));
    assert_eq!(heap.free(block), Ok(()));
}

#[test]
fn free_raw_catches_a_double_free_but_not_a_reallocation() {
    let mut heap = Heap::new();
    let first = heap.allocate(64).expect("a");
    assert_eq!(heap.free_raw(first.offset()), Ok(()));
    assert_eq!(heap.free_raw(first.offset()), Err(Error::Gone), "a double free");
    let second = heap.allocate(64).expect("the same place");
    assert_eq!(second.offset(), first.offset());
    assert_eq!(
        heap.free_raw(first.offset()),
        Ok(()),
        "an address alone cannot tell the two allocations apart"
    );
    assert_eq!(heap.free(second), Err(Error::Gone));
}

#[test]
fn a_free_before_any_allocation_is_gone() {
    let mut heap = Heap::new();
    assert_eq!(heap.free_raw(64), Err(Error::Gone));
    assert_eq!(heap.free_bytes(), 0, "and the arena is still not laid out");
}

#[test]
fn the_first_allocation_lays_the_arena_out() {
    let mut heap = Heap::new();
    assert_eq!(heap.free_bytes(), 0);
    assert_eq!(heap.free_list_shape(), (0, 0));
    let a = heap.allocate(1).expect("a");
    // The header is 8 bytes, a request of 1 takes 16, and the end marker
    // sits 8 bytes below the top.
    assert_eq!(a.offset(), 8);
    assert_eq!(a.generation(), 1);
    assert_eq!(heap.free_bytes(), TOTAL - 8 - 16);
    assert_eq!(heap.minimum_ever_free_bytes(), TOTAL - 8 - 16);
    assert_eq!(heap.free_list_shape(), (1, TOTAL - 8 - 16));
    assert_eq!(heap.allocations(), 1);
}

#[test]
fn a_remainder_no_larger_than_the_minimum_block_is_not_split_off() {
    // 64 bytes of arena: one 56-byte block below the end marker.
    let mut heap = Heap4::<64, 8, 8>::new();
    // A request of 32 takes a 40-byte block, leaving 16: not STRICTLY more
    // than the 16-byte minimum block, so the whole 56 bytes go.
    let a = heap.allocate(32).expect("a");
    assert_eq!(a.offset(), 8);
    assert_eq!(heap.free_bytes(), 0);
    assert_eq!(heap.free_list_shape(), (0, 0));
    assert!(heap.allocate(1).is_none());
    heap.free(a).expect("a");
    assert_eq!(heap.free_bytes(), 56);
    // A request of 24 takes 32 and leaves 24, which is split off.
    let b = heap.allocate(24).expect("b");
    assert_eq!(heap.free_bytes(), 24);
    assert_eq!(heap.free_list_shape(), (1, 24));
    heap.free(b).expect("b");
}

#[test]
fn first_fit_takes_the_lowest_block_that_fits() {
    let mut heap = Heap::new();
    let a = heap.allocate(100).expect("a");
    let b = heap.allocate(300).expect("b");
    let c = heap.allocate(100).expect("c");
    let _d = heap.allocate(8).expect("d");
    heap.free(a).expect("a");
    heap.free(c).expect("c");
    // Holes of 112 (at a) and 112 (at c), and the tail: a 50-byte request
    // takes a's hole, the lowest that fits.
    let e = heap.allocate(50).expect("e");
    assert_eq!(e.offset(), a.offset());
    // A 200-byte request fits neither hole and goes to the tail.
    let f = heap.allocate(200).expect("f");
    assert!(f.offset() > c.offset());
    let _ = b;
}

#[test]
fn a_request_too_large_is_refused_and_counts_nothing() {
    let mut heap = Heap::new();
    assert!(heap.allocate(0).is_none());
    assert!(heap.allocate(usize::MAX).is_none());
    assert!(heap.allocate(TOTAL).is_none());
    assert_eq!(heap.allocations(), 0);
    assert!(heap.allocate(TOTAL - 8 - 8).is_some(), "all but the header and the marker");
    assert_eq!(heap.free_bytes(), 0);
    assert_eq!(heap.minimum_ever_free_bytes(), 0);
}

#[test]
fn the_minimum_ever_free_remembers_the_low_point() {
    let mut heap = Heap::new();
    let a = heap.allocate(1000).expect("a");
    let low = heap.free_bytes();
    heap.free(a).expect("a");
    assert!(heap.free_bytes() > low);
    assert_eq!(heap.minimum_ever_free_bytes(), low);
    assert_eq!(heap.frees(), 1);
}

#[test]
fn the_header_sizes_follow_the_geometry() {
    assert_eq!(Heap4::<1024, 8, 8>::struct_size(), 8);
    assert_eq!(Heap4::<1024, 8, 16>::struct_size(), 16);
    assert_eq!(Heap4::<1024, 8, 12>::struct_size(), 16, "rounded up to the alignment");
    assert_eq!(Heap4::<1024, 8, 8>::minimum_block_size(), 16);
    assert_eq!(Heap4::<1024, 8, 16>::minimum_block_size(), 32);
    assert_eq!(Heap4::<1024, 16, 8>::struct_size(), 16);
}

#[test]
fn define_regions_lays_out_regions_once() {
    let mut heap = Heap4::<4096, 8, 16>::new();
    let regions = [Region { start: 0, size: 1024 }, Region { start: 2048, size: 1024 }];
    assert_eq!(heap.define_regions(&regions), Ok(()));
    assert_eq!(heap.free_bytes(), (1024 - 16) + (1024 - 16));
    assert_eq!(heap.free_list_shape(), (2, 1008), "two blocks; the marker between them is no block");
    assert_eq!(heap.define_regions(&regions), Err(Error::Busy), "only once");
    // 990 with its header is 1006, rounded to 1008: the whole first block.
    let a = heap.allocate(990).expect("a");
    assert_eq!(a.offset(), 16);
    let b = heap.allocate(990).expect("b");
    assert_eq!(b.offset(), 2048 + 16, "the second region, across the gap");
    assert!(heap.allocate(1).is_none());
}

#[test]
fn define_regions_refuses_what_the_c_asserts_on() {
    let mut heap = Heap4::<4096, 8, 16>::new();
    assert_eq!(heap.define_regions(&[]), Err(Error::InvalidArgument));
    assert_eq!(heap.define_regions(&[Region::new(0, 4097)]), Err(Error::InvalidArgument));
    assert_eq!(
        heap.define_regions(&[Region::new(2048, 512), Region::new(0, 512)]),
        Err(Error::InvalidArgument),
        "out of address order"
    );
    assert_eq!(heap.free_bytes(), 0, "nothing was laid out");
    // A refused layout leaves the heap to lay itself out on first use.
    assert!(heap.allocate(16).is_some());
    assert_eq!(heap.free_list_shape().0, 1);
}

#[test]
fn a_region_starting_off_the_alignment_loses_the_difference() {
    let mut heap = Heap4::<4096, 8, 16>::new();
    assert_eq!(heap.define_regions(&[Region::new(3, 1024)]), Ok(()));
    // Start 3 aligned up to 8 loses 5; top 1027 less 16 is 1011, aligned
    // down to 1008.
    assert_eq!(heap.free_bytes(), 1000);
    let a = heap.allocate(1).expect("a");
    assert_eq!(a.offset(), 8 + 16);
}

#[test]
fn the_arena_bytes_are_reachable_for_a_binding() {
    // A 16-byte header, so the bytes handed out start past both header words.
    type Wide = Heap4<TOTAL, ALIGN, 16>;
    let mut heap = Wide::new();
    let a = heap.allocate(32).expect("a");
    let at = Wide::index_of(a.offset()).expect("inside the arena");
    heap.arena_mut()[at] = 0x5a;
    assert_eq!(heap.bytes()[at], 0x5a);
    assert_eq!(Heap::index_of(TOTAL as u64), None);
    assert_eq!(Heap::offset_in(1000, 1000 + 24), Some(24));
    assert_eq!(Heap::offset_in(1000, 999), None);
    assert_eq!(Heap::offset_in(1000, 1000 + TOTAL), None);
    assert_eq!(Heap::offset_in(usize::MAX - 10, usize::MAX), None, "the saturated top is outside");
    heap.free(a).expect("a");
}

/// The differential workload: 48 slots, requests of 1..=600 bytes, 20,000
/// operations over 8 KiB with the 64-bit header geometry.
#[test]
fn the_workload_reaches_the_branches_that_matter() {
    const SLOTS: usize = 48;
    const MAX_SIZE: u32 = 600;
    const OPS: u32 = 20_000;
    let mut heap = Heap4::<TOTAL, ALIGN, 16>::new();
    let mut slots: [Option<rusty_rtos_heap_core::Block>; SLOTS] = [None; SLOTS];
    let mut seed = 12345u32;

    let mut refusals = 0usize;
    let mut offsets = BTreeSet::new();
    let mut min_free = usize::MAX;

    for _ in 0..OPS {
        seed = seed.wrapping_mul(1_664_525).wrapping_add(1_013_904_223);
        let r = seed;
        let slot = (r as usize) % SLOTS;
        if let Some(block) = slots[slot] {
            heap.free(block).expect("a live handle frees");
            slots[slot] = None;
        } else {
            let size = 1 + ((r / SLOTS as u32) % MAX_SIZE);
            let got = heap.allocate(size as usize);
            match got {
                None => refusals += 1,
                Some(block) => {
                    offsets.insert(block.offset());
                }
            }
            min_free = min_free.min(heap.minimum_ever_free_bytes());
            slots[slot] = got;
        }
    }

    assert!(
        refusals > 100,
        "the arena was never driven to exhaustion: {refusals} refusals"
    );
    assert!(
        offsets.len() > 100,
        "the arena never fragmented: {} distinct offsets",
        offsets.len()
    );
    assert!(
        min_free < TOTAL / 4,
        "the arena was never filled: minimum free was {min_free} of {TOTAL}"
    );
}

#[test]
fn allocating_and_freeing_leave_other_blocks_bytes_alone() {
    let mut heap = Heap4::<4096, 8, 16>::new();
    let a = heap.allocate(64).expect("a");
    let b = heap.allocate(64).expect("b");
    let c = heap.allocate(64).expect("c");
    let b_at = b.offset() as usize;
    for (k, byte) in heap.arena_mut()[b_at..b_at + 64].iter_mut().enumerate() {
        *byte = 0xA0 ^ (k as u8);
    }
    let snapshot: Vec<u8> = heap.bytes()[b_at - 16..b_at + 64].to_vec();
    assert_eq!(heap.free(a), Ok(()));
    assert_eq!(heap.free(c), Ok(()), "c coalesces with the rest of the arena");
    let d = heap.allocate(32).expect("d");
    assert_eq!(d.offset(), a.offset(), "the hole before b is the first fit");
    assert_eq!(heap.free(d), Ok(()));
    assert_eq!(&heap.bytes()[b_at - 16..b_at + 64], &snapshot[..], "b's header and bytes are untouched");
}

#[test]
fn first_fit_skips_a_lower_hole_too_small() {
    let mut heap = Heap4::<4096, 8, 16>::new();
    let a = heap.allocate(200).expect("a");
    let _b = heap.allocate(64).expect("b");
    let c = heap.allocate(400).expect("c");
    let _d = heap.allocate(64).expect("d");
    assert_eq!(heap.free(c), Ok(()));
    assert_eq!(heap.free(a), Ok(()));
    // Both holes hold 100 bytes; the lower one, where `a` was, is chosen.
    let e = heap.allocate(100).expect("e");
    assert_eq!(e.offset(), a.offset());
    // Only the hole where `c` was holds 300.
    let f = heap.allocate(300).expect("f");
    assert_eq!(f.offset(), c.offset());
}

#[test]
fn consecutive_allocations_carry_consecutive_generations() {
    let mut heap = Heap::new();
    let first = heap.allocate(16).expect("first");
    assert_eq!(first.generation(), 1);
    let second = heap.allocate(16).expect("second");
    assert_eq!(second.generation(), first.generation() + 1);
    assert_eq!(heap.free(first), Ok(()));
    let third = heap.allocate(16).expect("third");
    assert_eq!(third.generation(), second.generation() + 1);
}

#[test]
fn the_low_water_mark_falls_with_allocations_and_holds_through_frees() {
    let mut heap = Heap::new();
    let a = heap.allocate(1000).expect("a");
    let after_a = heap.free_bytes();
    assert_eq!(heap.minimum_ever_free_bytes(), after_a);
    let b = heap.allocate(500).expect("b");
    let low = heap.free_bytes();
    assert!(low < after_a);
    assert_eq!(heap.minimum_ever_free_bytes(), low);
    assert_eq!(heap.free(a), Ok(()));
    assert_eq!(heap.free(b), Ok(()));
    assert_eq!(heap.minimum_ever_free_bytes(), low, "frees do not raise it");
    assert_eq!(heap.free(b), Err(Error::Gone));
    assert_eq!(heap.minimum_ever_free_bytes(), low, "nor does a refused free");
}

#[test]
fn allocations_less_frees_is_what_is_allocated() {
    let mut heap = Heap::new();
    let a = heap.allocate(40).expect("a");
    let b = heap.allocate(40).expect("b");
    let _c = heap.allocate(40).expect("c");
    assert_eq!(heap.free(b), Ok(()));
    assert_eq!(heap.free(b), Err(Error::Gone), "a refused free is not counted");
    assert!(heap.allocate(1 << 20).is_none(), "a refused allocation is not counted");
    assert_eq!(heap.allocations() - heap.frees(), 2);
    assert_eq!(heap.free(a), Ok(()));
    assert_eq!(heap.allocations() - heap.frees(), 1);
}

#[test]
fn abutting_regions_are_accepted_whatever_the_header() {
    let mut heap = Heap4::<4096, 8, 8>::new();
    assert_eq!(heap.define_regions(&[Region::new(0, 2048), Region::new(2048, 2048)]), Ok(()));
    assert_eq!(heap.free_bytes(), 2040 + 2040);
    assert_eq!(heap.minimum_ever_free_bytes(), 2040 + 2040);
    let mut small = Heap4::<4096, 8, 16>::new();
    assert_eq!(
        small.define_regions(&[Region::new(0, 24), Region::new(64, 1024)]),
        Ok(()),
        "a block of 8 bytes before another region is accepted too"
    );
    assert_eq!(small.free_bytes(), 8 + (1024 - 16));
}

#[test]
fn freed_neighbours_merge_into_one_free_block() {
    let mut heap = Heap4::<4096, 8, 16>::new();
    let a = heap.allocate(100).expect("a");
    let b = heap.allocate(100).expect("b");
    let c = heap.allocate(100).expect("c");
    let _d = heap.allocate(100).expect("d");
    assert_eq!(heap.free(a), Ok(()));
    assert_eq!(heap.free(c), Ok(()));
    assert_eq!(heap.free_list_shape().0, 3, "two holes and the rest of the arena");
    assert_eq!(heap.free(b), Ok(()));
    assert_eq!(heap.free_list_shape().0, 2, "a, b and c have merged into one hole");
}

#[test]
fn a_default_heap4_is_a_new_one() {
    let mut heap: Heap = Default::default();
    assert_eq!(heap.free_bytes(), 0);
    assert_eq!(heap.free_list_shape(), (0, 0));
    assert!(heap.allocate(16).is_some());
}
