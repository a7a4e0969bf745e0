//! What a `Heap4` and a `Pool` cost in RAM, decomposed to the byte: the
//! arena plus a fixed bookkeeping block, with no padding that belongs to no
//! column.

use core::mem::{align_of, size_of};

use rusty_rtos_heap_core::pool::Pool;
use rusty_rtos_heap_core::Heap4;

/// One row: a geometry, an arena size, and what it costs.
struct Row {
    profile: &'static str,
    arena: usize,
    total: usize,
    align: usize,
    header: usize,
    minimum_block: usize,
}

impl Row {
    /// Everything in the struct that is not the arena.
    const fn bookkeeping(&self) -> usize {
        self.total.saturating_sub(self.arena)
    }
}

/// The row for one instantiation.
fn row<const N: usize, const ALIGN: usize, const LINK: usize>(profile: &'static str) -> Row {
    Row {
        profile,
        arena: N,
        total: size_of::<Heap4<N, ALIGN, LINK>>(),
        align: align_of::<Heap4<N, ALIGN, LINK>>(),
        header: Heap4::<N, ALIGN, LINK>::struct_size(),
        minimum_block: Heap4::<N, ALIGN, LINK>::minimum_block_size(),
    }
}

#[test]
fn the_ram_table_decomposes_exactly() {
    let narrow = "32-bit (thumbv7em, thumbv8m, riscv32imac/imafc)";
    let wide = "64-bit (the oracle's host)";
    let rows = [
        row::<1024, 8, 8>(narrow),
        row::<4096, 8, 8>(narrow),
        row::<8192, 8, 8>(narrow),
        row::<1024, 8, 16>(wide),
        row::<4096, 8, 16>(wide),
        row::<8192, 8, 16>(wide),
    ];

    println!();
    println!("=== RAM table: what a heap_4 costs, per profile ===");
    println!();
    println!(
        "{:<48} {:>7} {:>8} {:>6} {:>7} {:>9} {:>8}",
        "profile", "arena", "total B", "align", "book", "header/op", "min blk"
    );

    let mut bookkeeping = None;
    for r in &rows {
        println!(
            "{:<48} {:>7} {:>8} {:>6} {:>7} {:>9} {:>8}",
            r.profile,
            r.arena,
            r.total,
            r.align,
            r.bookkeeping(),
            r.header,
            r.minimum_block
        );

        let padding = r
            .total
            .checked_sub(r.arena)
            .and_then(|rest| rest.checked_sub(r.bookkeeping()))
            .expect("total is never smaller than the arena");
        assert_eq!(
            padding, 0,
            "{} at {}: {padding} bytes belong to no column",
            r.profile, r.arena
        );

        let seen = *bookkeeping.get_or_insert(r.bookkeeping());
        if r.header == rows[0].header {
            assert_eq!(
                r.bookkeeping(),
                seen,
                "bookkeeping moved with the arena size — it is not fixed overhead"
            );
        }
    }

    println!();
    println!("identity  total = arena + bookkeeping, remainder 0 on every row");
    println!("bookkeeping is FIXED: it does not grow with the arena.");
}

#[test]
fn what_one_allocation_costs_is_the_cs_arithmetic() {
    type H = Heap4<8192, 8, 16>;
    let header = H::struct_size();
    let align = 8usize;

    println!();
    println!("=== what one allocation costs (64-bit geometry) ===");
    println!("{:>8} {:>10} {:>9}", "request", "block", "overhead");
    for request in [1usize, 7, 8, 9, 16, 100, 300, 600] {
        let block = (request.saturating_add(header).saturating_add(align - 1)) & !(align - 1);
        let overhead = block.saturating_sub(request);
        println!("{request:>8} {block:>10} {overhead:>9}");
        assert!(
            block >= header.saturating_add(request),
            "a block must hold its header and its payload"
        );
        assert_eq!(block % align, 0, "every block is alignment-sized");
    }

    let smallest = (1usize + header + align - 1) & !(align - 1);
    assert_eq!(smallest, 24, "a 1-byte request costs 24 bytes at 64-bit");
    println!();
    println!("a 1-byte request costs {smallest} bytes: {header} header + padding.");
}

#[test]
fn one_allocation_costs_what_the_arithmetic_says() {
    // The same arithmetic, observed: a 1-byte request takes 24 bytes of a
    // 64-bit-geometry heap and 16 of a 32-bit one.
    let mut wide = Heap4::<8192, 8, 16>::new();
    let _ = wide.allocate(1).expect("a");
    assert_eq!(wide.free_bytes(), 8192 - 16 - 24);
    let mut narrow = Heap4::<8192, 8, 8>::new();
    let _ = narrow.allocate(1).expect("a");
    assert_eq!(narrow.free_bytes(), 8192 - 8 - 16);
}

/// One pool geometry, decomposed to the byte.
struct PoolRow {
    block: usize,
    blocks: usize,
    arena: usize,
    total: usize,
    align: usize,
}

impl PoolRow {
    /// The free stack, the generations and the live flags: two bytes, four
    /// bytes and one byte per block.
    const fn tables(&self) -> usize {
        self.blocks.saturating_mul(2 + 4 + 1)
    }

    /// `top`, `allocations`, `frees`.
    fn scalars() -> usize {
        size_of::<usize>()
            .saturating_add(size_of::<u32>())
            .saturating_add(size_of::<u32>())
    }

    /// What the struct carries that no column above names.
    fn padding(&self) -> usize {
        self.total
            .saturating_sub(self.arena)
            .saturating_sub(self.tables())
            .saturating_sub(Self::scalars())
    }

    /// The whole cost of having a block, over and above the block.
    fn per_block(&self) -> f64 {
        let (book, blocks) = (
            self.total.saturating_sub(self.arena) as f64,
            self.blocks.max(1) as f64,
        );
        book / blocks
    }
}

fn pool_row<const BLOCK: usize, const BLOCKS: usize>() -> PoolRow {
    PoolRow {
        block: BLOCK,
        blocks: BLOCKS,
        arena: Pool::<BLOCK, BLOCKS>::arena_bytes(),
        total: size_of::<Pool<BLOCK, BLOCKS>>(),
        align: align_of::<Pool<BLOCK, BLOCKS>>(),
    }
}

#[test]
fn the_pool_ram_table_decomposes_exactly() {
    let rows = [
        pool_row::<64, 48>(),
        pool_row::<256, 48>(),
        pool_row::<512, 48>(),
        pool_row::<2048, 48>(),
        pool_row::<512, 8>(),
        pool_row::<512, 256>(),
    ];

    println!();
    println!("=== what a Pool costs, per geometry ===");
    println!();
    println!(
        "{:>6} {:>7} {:>9} {:>9} {:>6} {:>8} {:>8} {:>10}",
        "block", "blocks", "arena", "total B", "align", "tables", "padding", "per block"
    );

    let mut per_block = None;
    for r in &rows {
        println!(
            "{:>6} {:>7} {:>9} {:>9} {:>6} {:>8} {:>8} {:>10.2}",
            r.block,
            r.blocks,
            r.arena,
            r.total,
            r.align,
            r.tables(),
            r.padding(),
            r.per_block()
        );

        assert_eq!(
            r.padding(),
            0,
            "Pool<{}, {}>: {} bytes belong to no column",
            r.block,
            r.blocks,
            r.padding()
        );

        let cost = r
            .total
            .saturating_sub(r.arena)
            .saturating_sub(PoolRow::scalars());
        let each = cost.checked_div(r.blocks).expect("a pool has blocks");
        assert_eq!(each, 7, "Pool<{}, {}>: per-block tables", r.block, r.blocks);
        match per_block {
            None => per_block = Some(each),
            Some(first) => assert_eq!(
                each, first,
                "the per-block cost moved with the geometry; it is supposed to be a constant"
            ),
        }
    }

    println!();
    println!("  seven bytes per block: a u16 free-stack slot, a u32 generation,");
    println!("  a bool live flag.");
    println!();
}
