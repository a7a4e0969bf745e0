//! The benchmark workloads: the generator, the probes, and the parity the
//! workloads promise each other.

use rusty_rtos_heap_core::workload::{
    header_checksum, heap4_band, heap4_band_in, heap4_band_narrow, pool_band,
    width_checksum, Lcg,
};

#[test]
fn the_generator_is_the_drivers_lcg() {
    let mut rng = Lcg::new(12345);
    let first = rng.next();
    assert_eq!(first, 12345u32.wrapping_mul(1_664_525).wrapping_add(1_013_904_223));
    assert_eq!(first, 87_628_868);
    let second = rng.next();
    assert_eq!(second, first.wrapping_mul(1_664_525).wrapping_add(1_013_904_223));
}

#[test]
fn the_width_probe_s_first_steps() {
    assert_eq!(width_checksum(true, 0), 0);
    assert_eq!(width_checksum(false, 0), 0);
    assert_eq!(width_checksum(true, 1), 0x800);
    assert_eq!(width_checksum(false, 1), 0x800);
    assert_eq!(width_checksum(true, 2), 0x4F1B_C723);
    assert_eq!(width_checksum(false, 2), 0x4F1B_C723);
}

#[test]
fn the_header_probe_reads_the_same_values_both_ways() {
    assert_eq!(header_checksum(true, 1), 0x9E37_79B9);
    assert_eq!(header_checksum(false, 1), 0x9E37_79B9);
    for ops in [0u32, 2, 100, 4094, 4095, 20_000] {
        assert_eq!(header_checksum(true, ops), header_checksum(false, ops), "{ops} reads");
    }
}

#[test]
fn the_band_workloads_do_the_same_work_in_every_geometry() {
    let wide = heap4_band(256, 257, 20_000);
    let narrow = heap4_band_narrow(256, 257, 20_000);
    assert_eq!((wide.1, wide.2), (narrow.1, narrow.2), "the same allocations and frees");
    assert_ne!(wide.0, narrow.0, "a different header moves the free bytes");
    let pool = pool_band::<512>(20_000);
    assert_eq!((pool.1 as usize, pool.2 as usize), (wide.1, wide.2), "and a pool the same");
    assert_eq!(pool.3, 48 - (pool.1 - pool.2) as usize);
}

#[test]
fn the_small_arena_workload_holds_at_most_a_block_per_slot() {
    let (_, allocations, frees) = heap4_band_in::<8192, 16>(1, 600, 20_000);
    assert!(frees <= allocations);
    assert!(allocations - frees <= 48, "one block per slot at most");
    assert!(allocations > 1000);
}
