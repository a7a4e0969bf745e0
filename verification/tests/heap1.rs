//! `Heap1`: a bump index, rounding the request, refusing on a strict bound
//! below the adjusted arena, and never freeing.

use rusty_rtos_heap_core::{Error, Heap1};

const TOTAL: usize = 8192;
const ALIGN: usize = 8;

const MAX_SIZE: u32 = 600;
const OPS: u32 = 2000;

type Heap = Heap1<TOTAL, ALIGN>;

/// The workload's generator.
struct Lcg(u32);

impl Lcg {
    const fn new() -> Self {
        Self(12345)
    }

    fn next(&mut self) -> u32 {
        self.0 = self.0.wrapping_mul(1_664_525).wrapping_add(1_013_904_223);
        self.0
    }
}

#[test]
fn the_workload_actually_exhausts_the_arena() {
    let mut heap = Heap::new();
    let mut rng = Lcg::new();
    let (mut refusals, mut successes) = (0u32, 0u32);

    for _ in 0..OPS {
        let size = 1 + (rng.next() % MAX_SIZE);
        if heap.allocate(size as usize).is_some() {
            successes = successes.saturating_add(1);
        } else {
            refusals = refusals.saturating_add(1);
        }
    }

    assert!(
        successes > 8,
        "the arena filled too fast to exercise the bump at all: {successes} succeeded"
    );
    assert!(
        refusals > OPS / 2,
        "the arena was never exhausted, so the only interesting branch never ran: \
         {refusals} refusals of {OPS}"
    );
    assert_eq!(
        heap.free_bytes(),
        8,
        "what is left is the tail the STRICTLY-less-than bound can never hand out"
    );
}

#[test]
fn freeing_is_refused_because_the_c_calls_it_invalid() {
    let mut heap = Heap::new();
    let offset = heap.allocate(64).expect("room for 64 bytes");

    assert_eq!(heap.free(offset), Err(Error::Unsupported));
    assert_eq!(
        heap.free(0),
        Err(Error::Unsupported),
        "there is no offset for which freeing is valid"
    );

    let before = heap.free_bytes();
    let _ = heap.free(offset);
    assert_eq!(heap.free_bytes(), before);
}

#[test]
fn a_request_for_exactly_the_remaining_bytes_is_refused() {
    let mut heap = Heap::new();
    let all = Heap::adjusted_size();

    assert!(
        heap.allocate(all).is_none(),
        "the whole adjusted arena must not fit: the bound is strict"
    );
    assert!(
        heap.allocate(all.saturating_sub(ALIGN)).is_some(),
        "one alignment less must fit"
    );
}

#[test]
fn the_request_is_what_gets_rounded() {
    let mut heap = Heap::new();

    assert_eq!(heap.allocate(1), Some(0));
    assert_eq!(
        heap.allocate(1),
        Some(ALIGN as u64),
        "a 1-byte request consumed a whole alignment"
    );
    assert_eq!(heap.allocate(ALIGN), Some(2 * ALIGN as u64));
}

#[test]
fn the_adjusted_size_is_the_arena_less_one_alignment() {
    assert_eq!(Heap::adjusted_size(), TOTAL - ALIGN);
    assert_eq!(Heap1::<4, 8>::adjusted_size(), 0);
    let mut tiny = Heap1::<4, 8>::new();
    assert_eq!(tiny.allocate(1), None, "no room at all");
    assert_eq!(tiny.free_bytes(), 0);
}

#[test]
fn a_zero_request_is_refused_by_heap1() {
    let mut heap = Heap::new();
    assert_eq!(heap.allocate(0), None);
    assert_eq!(heap.allocations(), 0);
    assert_eq!(heap.next_free_byte(), 0);
}

#[test]
fn a_request_that_overflows_when_rounded_is_refused() {
    let mut heap = Heap::new();
    assert_eq!(heap.allocate(usize::MAX), None);
    assert_eq!(heap.allocate(usize::MAX - 3), None);
    assert_eq!(heap.next_free_byte(), 0);
}

#[test]
fn the_bytes_handed_out_and_left_add_up() {
    let mut heap = Heap::new();
    let a = heap.allocate(100).expect("a");
    let b = heap.allocate(5).expect("b");
    assert_eq!(a, 0);
    assert_eq!(b, 104, "100 rounded to 104");
    assert_eq!(heap.next_free_byte(), 112);
    assert_eq!(heap.free_bytes() + heap.next_free_byte(), Heap::adjusted_size());
    assert_eq!(heap.allocations(), 2);
}

#[test]
fn an_allocation_s_bytes_are_writable_and_stay() {
    let mut heap = Heap::new();
    let a = heap.allocate(16).expect("a");
    let b = heap.allocate(16).expect("b");
    heap.bytes_mut(a, 16).expect("a's bytes").fill(0x11);
    heap.bytes_mut(b, 16).expect("b's bytes").fill(0x22);
    assert!(heap.bytes_mut(a, 16).expect("a").iter().all(|v| *v == 0x11));
    assert!(heap.bytes_mut(b, 16).expect("b").iter().all(|v| *v == 0x22));
    assert_eq!(heap.bytes_mut(a, 32).expect("both").len(), 32);
    assert_eq!(heap.bytes_mut(TOTAL as u64 - 4, 4).expect("the tail").len(), 4);
    assert_eq!(heap.bytes_mut(TOTAL as u64 - 4, 5).err(), Some(Error::InvalidArgument));
    assert_eq!(heap.bytes_mut(u64::MAX, 1).err(), Some(Error::InvalidArgument));
    assert_eq!(heap.bytes_mut(8, usize::MAX).err(), Some(Error::InvalidArgument));
}

#[test]
fn the_arena_is_reachable_for_a_binding() {
    let mut heap = Heap::new();
    let a = heap.allocate(8).expect("a") as usize;
    heap.arena_mut()[a] = 7;
    assert_eq!(heap.bytes_mut(a as u64, 1).expect("a")[0], 7);
}

#[test]
fn a_default_heap1_is_empty() {
    let mut heap = Heap::default();
    assert_eq!(heap.next_free_byte(), 0);
    assert_eq!(heap.allocate(1), Some(0));
}
