//! `Heap3`: the global allocator behind handles, generations and reused
//! slots.

use rusty_rtos_heap_core::heap3::Handle;
use rusty_rtos_heap_core::{Error, Heap3};

#[test]
fn the_workload_runs_and_the_accounting_reconciles() {
    const SLOTS: usize = 48;
    const MAX_SIZE: u32 = 600;
    const OPS: u32 = 20_000;

    let mut heap = Heap3::new();
    let mut slots: [Option<Handle>; SLOTS] = [None; SLOTS];
    let mut seed = 12345u32;
    let mut next = || {
        seed = seed.wrapping_mul(1_664_525).wrapping_add(1_013_904_223);
        seed
    };

    let (mut allocated, mut freed) = (0usize, 0usize);

    for _ in 0..OPS {
        let r = next();
        let slot = (r as usize) % SLOTS;
        let held = slots.get(slot).copied().flatten();

        if let Some(handle) = held {
            heap.free(handle).expect("a live handle must free");
            freed = freed.saturating_add(1);
            if let Some(cell) = slots.get_mut(slot) {
                *cell = None;
            }
        } else {
            let size = 1 + ((r / SLOTS as u32) % MAX_SIZE);
            let got = heap.allocate(size as usize);
            if got.is_some() {
                allocated = allocated.saturating_add(1);
            }
            if let Some(cell) = slots.get_mut(slot) {
                *cell = got;
            }
        }
    }

    for cell in &mut slots {
        if let Some(handle) = cell.take() {
            heap.free(handle).expect("a live handle must free");
            freed = freed.saturating_add(1);
        }
    }

    assert_eq!(heap.allocations(), allocated, "allocation count");
    assert_eq!(heap.frees(), freed, "free count");
    assert_eq!(allocated, freed, "everything allocated was freed");
    assert_eq!(heap.live_bytes(), 0, "no bytes left live");
    assert_eq!(heap.live_allocations(), 0, "no slots left live");
    assert!(
        allocated > 1000,
        "the workload barely allocated ({allocated}) — it proves nothing"
    );
}

#[test]
fn heap3_a_double_free_is_refused() {
    let mut heap = Heap3::new();
    let handle = heap.allocate(64).expect("64 bytes");

    assert_eq!(heap.free(handle), Ok(()));
    assert_eq!(heap.free(handle), Err(Error::Gone));
    assert_eq!(heap.live_bytes(), 0);
}

#[test]
fn freeing_a_reused_slot_is_refused() {
    let mut heap = Heap3::new();

    let first = heap.allocate(64).expect("64 bytes");
    assert_eq!(heap.free(first), Ok(()));

    let second = heap.allocate(64).expect("64 bytes again");
    assert_eq!(second.slot(), first.slot(), "the slot was reused");
    assert_ne!(second.generation(), first.generation(), "and re-stamped");

    assert_eq!(
        heap.free(first),
        Err(Error::Gone),
        "the stale handle must not free the live allocation"
    );
    assert_eq!(heap.free(second), Ok(()));
}

#[test]
fn the_bytes_are_usable_and_private() {
    let mut heap = Heap3::new();
    let a = heap.allocate(64).expect("a");
    let b = heap.allocate(64).expect("b");

    heap.bytes_mut(a).expect("a's bytes").fill(0xAA);
    heap.bytes_mut(b).expect("b's bytes").fill(0xBB);

    assert!(heap.bytes_mut(a).expect("a again").iter().all(|v| *v == 0xAA));
    assert!(heap.bytes_mut(b).expect("b again").iter().all(|v| *v == 0xBB));
    assert_eq!(heap.bytes_mut(a).expect("a").len(), 64);

    assert_eq!(heap.free(a), Ok(()));
    assert_eq!(
        heap.bytes_mut(a).err(),
        Some(Error::Gone),
        "freed bytes are not reachable"
    );
    assert_eq!(heap.free(b), Ok(()));
}

#[test]
fn free_bytes_refuses_because_the_platform_cannot_say() {
    let heap = Heap3::new();
    assert_eq!(heap.free_bytes(), Err(Error::Unsupported));
}

#[test]
fn a_zero_request_is_refused() {
    let mut heap = Heap3::new();
    assert!(heap.allocate(0).is_none());
    assert_eq!(heap.allocations(), 0);
}

#[test]
fn slots_are_reused_rather_than_accumulated() {
    let mut heap = Heap3::new();

    for _ in 0..10_000 {
        let handle = heap.allocate(32).expect("32 bytes");
        heap.free(handle).expect("free");
    }

    assert_eq!(heap.allocations(), 10_000);
    assert_eq!(heap.live_allocations(), 0);
    assert_eq!(heap.live_bytes(), 0);
}

#[test]
fn new_bytes_are_zero_and_generations_count_up() {
    let mut heap = Heap3::new();
    let a = heap.allocate(10).expect("a");
    let b = heap.allocate(20).expect("b");
    assert_eq!((a.slot(), a.generation()), (0, 1));
    assert_eq!((b.slot(), b.generation()), (1, 2));
    assert!(heap.bytes_mut(b).expect("b").iter().all(|v| *v == 0));
    assert_eq!(heap.live_bytes(), 30);
    assert_eq!(heap.live_allocations(), 2);
    heap.free(a).expect("a");
    assert_eq!(heap.live_bytes(), 20);
    let c = heap.allocate(5).expect("c");
    assert_eq!((c.slot(), c.generation()), (0, 3), "the first empty slot, the next generation");
    assert_eq!(heap.live_bytes(), 25);
}

#[test]
fn each_allocation_carries_a_generation_no_slot_was_on() {
    let mut heap = Heap3::new();
    let a = heap.allocate(8).expect("a");
    assert_eq!(a.generation(), 1);
    let b = heap.allocate(8).expect("b");
    assert_eq!(b.generation(), 2);
    assert_eq!(heap.free(a), Ok(()));
    let c = heap.allocate(8).expect("c");
    assert_eq!(c.slot(), a.slot(), "the freed slot is reused");
    assert_eq!(c.generation(), 3, "under a generation it was never on");
    assert_eq!(heap.allocations() - heap.frees(), heap.live_allocations());
}
