//! `Heap5`: `heap_4`'s free list over three regions with real gaps.

use rusty_rtos_heap_core::heap4::Block;
use rusty_rtos_heap_core::{Error, Heap5, Region};

const ARENA: usize = 12288;
const ALIGN: usize = 8;
const LINK: usize = 16;

const R0: Region = Region { start: 0, size: 4096 };
const R1: Region = Region { start: 4608, size: 2048 };
const R2: Region = Region { start: 7168, size: 4096 };

const SLOTS: usize = 48;
const MAX_SIZE: u32 = 600;
const OPS: u32 = 20_000;

type Heap = Heap5<ARENA, ALIGN, LINK>;

/// The workload's generator.
struct Lcg(u32);

impl Lcg {
    const fn new() -> Self {
        Self(12345)
    }

    fn next(&mut self) -> u32 {
        self.0 = self.0.wrapping_mul(1_664_525).wrapping_add(1_013_904_223);
        self.0
    }
}

#[test]
fn the_workload_reaches_every_region() {
    let mut heap = Heap::new(&[R0, R1, R2]).expect("three regions");
    let mut slots: [Option<Block>; SLOTS] = [None; SLOTS];
    let mut rng = Lcg::new();
    let mut hits = [0u32; 3];

    for _ in 0..OPS {
        let r = rng.next();
        let slot = (r as usize) % SLOTS;
        let held = slots.get(slot).copied().flatten();
        if let Some(block) = held {
            heap.free(block).expect("a live handle frees");
            if let Some(cell) = slots.get_mut(slot) {
                *cell = None;
            }
        } else {
            let size = 1 + ((r / SLOTS as u32) % MAX_SIZE);
            let got = heap.allocate(size as usize);
            if let Some(block) = got {
                let at = block.offset();
                let which = if at < R1.start as u64 {
                    0
                } else if at < R2.start as u64 {
                    1
                } else {
                    2
                };
                if let Some(count) = hits.get_mut(which) {
                    *count = count.saturating_add(1);
                }
            }
            if let Some(cell) = slots.get_mut(slot) {
                *cell = got;
            }
        }
    }

    for (n, count) in hits.iter().enumerate() {
        assert!(
            *count > 100,
            "region {n} was allocated in only {count} times — this is not a \
             three-region test"
        );
    }
}

#[test]
fn no_allocation_crosses_a_gap() {
    let mut heap = Heap::new(&[R0, R1, R2]).expect("three regions");
    let mut slots: [Option<Block>; SLOTS] = [None; SLOTS];
    let mut rng = Lcg::new();

    let gaps = [
        (R0.start + R0.size, R1.start),
        (R1.start + R1.size, R2.start),
    ];

    for _ in 0..OPS {
        let r = rng.next();
        let slot = (r as usize) % SLOTS;
        let held = slots.get(slot).copied().flatten();
        if let Some(block) = held {
            heap.free(block).expect("a live handle frees");
            if let Some(cell) = slots.get_mut(slot) {
                *cell = None;
            }
        } else {
            let size = 1 + ((r / SLOTS as u32) % MAX_SIZE);
            let got = heap.allocate(size as usize);
            if let Some(block) = got {
                let start = block.offset() as usize;
                let end = start.saturating_add(size as usize);
                for (gap_start, gap_end) in gaps {
                    assert!(
                        end <= gap_start || start >= gap_end,
                        "an allocation at {start}..{end} crosses the gap \
                         {gap_start}..{gap_end}"
                    );
                }
            }
            if let Some(cell) = slots.get_mut(slot) {
                *cell = got;
            }
        }
    }
}

#[test]
fn regions_out_of_address_order_are_refused() {
    assert_eq!(
        Heap::new(&[R2, R0, R1]).err(),
        Some(Error::InvalidArgument),
        "descending regions must be refused, not sorted"
    );
    assert_eq!(
        Heap::new(&[R0, R2, R1]).err(),
        Some(Error::InvalidArgument),
        "one out-of-order region is enough"
    );
    assert!(
        Heap::new(&[R0, R1, R2]).is_ok(),
        "and the ascending order is accepted"
    );
}

#[test]
fn a_heap_needs_regions_that_fit() {
    assert_eq!(Heap::new(&[]).err(), Some(Error::InvalidArgument));
    assert_eq!(
        Heap::new(&[Region::new(0, ARENA + 8)]).err(),
        Some(Error::InvalidArgument),
        "a region larger than the arena"
    );
    assert_eq!(
        Heap::new(&[Region::new(0, LINK)]).err(),
        Some(Error::InvalidArgument),
        "a region with no room for a block AND its end marker"
    );
}

#[test]
fn even_abutting_regions_do_not_merge() {
    let half = 2048;
    let mut split =
        Heap5::<4096, ALIGN, LINK>::new(&[Region::new(0, half), Region::new(half, half)])
            .expect("two abutting regions");
    let mut whole =
        Heap5::<4096, ALIGN, LINK>::new(&[Region::new(0, 2 * half)]).expect("one region");

    assert!(
        split.free_bytes() < whole.free_bytes(),
        "two regions cost one more end marker than one region of the same size"
    );

    let big = half + 256;
    assert!(
        split.allocate(big).is_none(),
        "abutting regions must NOT merge: each keeps its own end marker, so \
         the blocks never meet"
    );
    assert!(
        whole.allocate(big).is_some(),
        "the same bytes as one region serve it"
    );
}

#[test]
fn three_regions_lay_out_three_blocks_and_two_markers() {
    let mut heap = Heap::new(&[R0, R1, R2]).expect("three regions");
    assert_eq!(Heap::struct_size(), 16);
    // Each region's block runs from its start to its top less a header.
    assert_eq!(heap.free_bytes(), (4096 - 16) + (2048 - 16) + (4096 - 16));
    assert_eq!(heap.minimum_ever_free_bytes(), heap.free_bytes());
    assert_eq!(heap.free_list_shape(), (3, 4080), "three free blocks; the two markers are none");
    let a = heap.allocate(4000).expect("a");
    assert_eq!(a.offset(), 16);
    let b = heap.allocate(1000).expect("b");
    assert_eq!(b.offset(), 4608 + 16, "the first region is too full, the second serves");
    assert_eq!(heap.allocations(), 2);
    heap.free(a).expect("a");
    heap.free(b).expect("b");
    assert_eq!(heap.frees(), 2);
    assert_eq!(heap.free(a), Err(Error::Gone));
}

#[test]
fn abutting_regions_with_a_small_header_are_accepted() {
    // With an 8-byte header the first region's end marker sits 8 bytes below
    // its top; its second word lies where the next region's first header
    // begins. The layout is accepted, as `vPortDefineHeapRegions` accepts it.
    let heap = Heap5::<4096, 8, 8>::new(&[Region::new(0, 2048), Region::new(2048, 2048)]).expect("abutting");
    assert_eq!(heap.free_bytes(), 2040 + 2040);
    assert!(Heap5::<4096, 8, 8>::new(&[Region::new(0, 2048), Region::new(2056, 2040)]).is_ok());
}

#[test]
fn the_arena_of_a_heap5_is_reachable_for_a_binding() {
    let mut heap = Heap::new(&[R0]).expect("one region");
    let a = heap.allocate(8).expect("a");
    heap.arena_mut()[a.offset() as usize] = 3;
    assert_eq!(heap.arena_mut()[a.offset() as usize], 3);
}
