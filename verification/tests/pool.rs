//! The fixed-size block pool: a pop to take, a push to give back, and a
//! generation that refuses a stale handle.

use rusty_rtos_heap_core::pool::{Pool, Slot};
use rusty_rtos_heap_core::Error;

type P = Pool<256, 8>;

#[test]
fn a_new_pool_is_all_free() {
    let pool = P::new();
    assert_eq!(pool.capacity(), 8);
    assert_eq!(pool.available(), 8);
    assert_eq!(P::arena_bytes(), 2048);
}

#[test]
fn every_block_can_be_taken_and_given_back() {
    let mut pool = P::new();
    let mut held = [None; 8];
    for cell in &mut held {
        *cell = pool.allocate();
        assert!(cell.is_some(), "the pool had a block");
    }
    assert_eq!(pool.available(), 0);
    assert_eq!(pool.allocate(), None, "an empty pool hands out nothing");
    for cell in &mut held {
        let slot = cell.take().expect("held");
        assert_eq!(pool.free(slot), Ok(()));
    }
    assert_eq!(pool.available(), 8);
    assert_eq!(pool.allocations(), 8);
    assert_eq!(pool.frees(), 8);
}

#[test]
fn two_live_blocks_are_never_the_same_block() {
    let mut pool = P::new();
    let a = pool.allocate().expect("a");
    let b = pool.allocate().expect("b");
    assert_ne!(a.index(), b.index());
}

#[test]
fn a_double_free_is_refused_rather_than_corrupting_the_stack() {
    let mut pool = P::new();
    let slot = pool.allocate().expect("a block");
    assert_eq!(pool.free(slot), Ok(()));
    assert_eq!(pool.free(slot), Err(Error::Gone), "the second free");
    assert_eq!(
        pool.available(),
        8,
        "the block was returned once, not twice"
    );
}

#[test]
fn a_stale_handle_cannot_read_the_block_that_replaced_it() {
    let mut pool = P::new();
    let first = pool.allocate().expect("a block");
    pool.free(first).expect("freed");
    let second = pool.allocate().expect("the same block, new generation");
    assert_eq!(first.index(), second.index(), "the pool reused it");
    assert_ne!(first.generation(), second.generation());
    assert_eq!(pool.bytes(first).err(), Some(Error::Gone));
    assert!(pool.bytes(second).is_ok());
}

/// A handle one past the pool's capacity, at generation 0: taken from a
/// larger pool, since a `Slot` cannot be made up.
fn a_handle_past(capacity: usize) -> Slot {
    let mut larger = Pool::<256, 16>::new();
    let mut slot = larger.allocate().expect("a block");
    for _ in 0..=capacity {
        slot = larger.allocate().expect("a block");
    }
    slot
}

#[test]
fn a_handle_from_nowhere_is_refused() {
    let mut pool = P::new();
    let bogus = a_handle_past(pool.capacity());
    assert_eq!(usize::from(bogus.index()), pool.capacity() + 1);
    assert_eq!(bogus.generation(), 0);
    assert_eq!(pool.free(bogus), Err(Error::InvalidHandle));
    assert_eq!(pool.bytes(bogus).err(), Some(Error::InvalidHandle));
}

#[test]
fn the_bytes_are_the_callers_to_keep() {
    let mut pool = P::new();
    let slot = pool.allocate().expect("a block");
    pool.bytes_mut(slot).expect("writable")[0] = 0xa5;
    assert_eq!(pool.bytes(slot).expect("readable")[0], 0xa5);
}

#[test]
fn the_first_block_handed_out_is_block_zero_then_one() {
    let mut pool = P::new();
    let a = pool.allocate().expect("a");
    let b = pool.allocate().expect("b");
    assert_eq!((a.index(), a.generation()), (0, 0));
    assert_eq!((b.index(), b.generation()), (1, 0));
}

#[test]
fn a_freed_block_is_the_next_one_handed_out_at_a_new_generation() {
    let mut pool = P::new();
    let a = pool.allocate().expect("a");
    let _b = pool.allocate().expect("b");
    pool.free(a).expect("freed");
    let c = pool.allocate().expect("c");
    assert_eq!(c.index(), a.index());
    assert_eq!(c.generation(), a.generation() + 1);
    assert_eq!(pool.free(a), Err(Error::Gone), "the stale handle");
    assert_eq!(pool.bytes_mut(a).err(), Some(Error::Gone));
    assert_eq!(pool.free(c), Ok(()));
}

#[test]
fn a_refused_pool_free_changes_nothing() {
    let mut pool = P::new();
    let a = pool.allocate().expect("a");
    pool.free(a).expect("freed");
    let before = (pool.available(), pool.allocations(), pool.frees());
    assert_eq!(pool.free(a), Err(Error::Gone));
    assert_eq!((pool.available(), pool.allocations(), pool.frees()), before);
}

#[test]
fn a_pool_of_one_block_serves_it_again_and_again() {
    let mut pool = Pool::<16, 1>::new();
    for round in 0..5u32 {
        let slot = pool.allocate().expect("the one block");
        assert_eq!(slot.index(), 0);
        assert_eq!(slot.generation(), round);
        assert!(pool.allocate().is_none(), "only one block");
        pool.free(slot).expect("freed");
    }
    assert_eq!(Pool::<16, 1>::arena_bytes(), 16);
}

#[test]
fn available_is_the_pool_less_what_is_handed_out() {
    let mut pool = P::new();
    let a = pool.allocate().expect("a");
    let b = pool.allocate().expect("b");
    let _c = pool.allocate().expect("c");
    assert_eq!(pool.free(b), Ok(()));
    assert_eq!(pool.free(b), Err(Error::Gone));
    let handed_out = (pool.allocations() - pool.frees()) as usize;
    assert_eq!(handed_out, 2);
    assert_eq!(pool.available(), pool.capacity() - handed_out);
    assert_eq!(pool.free(a), Ok(()));
    assert_eq!(pool.available(), pool.capacity() - 1);
}
