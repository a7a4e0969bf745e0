//! The workloads the instruction-count benchmarks run, as functions of their
//! parameters: a fixed linear congruential generator drives 48 slots through
//! allocate and free, and a checksum of what the allocator reports makes the
//! work observable. Also the two probes that price a header's representation
//! and a `u64`'s width.
use vstd::prelude::*;
use vstd::arithmetic::power2::{lemma2_to64, pow2};
use crate::align::good_align;
use crate::heap4::{Block, Heap4, HeapState};
use crate::pool::{Pool, PoolState, Slot};
use crate::words::{lemma_byte_of, lemma_put_word, put_word, word};

verus! {

/// How many slots the allocation workloads cycle through.
pub const SLOTS: usize = 48;

/// The workloads' generator: `x' = x * 1664525 + 1013904223 (mod 2^32)`.
pub struct Lcg {
    state: u32,
}

impl Lcg {
    /// One step of the generator.
    pub open spec fn step(x: u32) -> u32 {
        ((x as nat * 1_664_525 + 1_013_904_223) % 0x1_0000_0000) as u32
    }

    /// The generator's state.
    pub closed spec fn state(&self) -> u32 {
        self.state
    }

    /// A generator seeded with `seed`.
    pub fn new(seed: u32) -> (r: Self)
        ensures
            r.state() == seed,
    {
        Lcg { state: seed }
    }

    /// Step the generator and answer its new state.
    pub fn next(&mut self) -> (r: u32)
        ensures
            r == Self::step(old(self).state()),
            final(self).state() == r,
    {
        let x = self.state;
        self.state = self.state.wrapping_mul(1_664_525).wrapping_add(1_013_904_223);
        proof {
            let m: nat = 0x1_0000_0000;
            let p: nat = x as nat * 1_664_525;
            assert(((p % m) + 1_013_904_223) % m == (p + 1_013_904_223) % m) by {
                vstd::arithmetic::div_mod::lemma_add_mod_noop(p as int, 1_013_904_223, m as int);
                vstd::arithmetic::div_mod::lemma_small_mod(1_013_904_223, m);
                vstd::arithmetic::div_mod::lemma_mod_twice(p as int, m as int);
            }
        }
        self.state
    }
}

/// The `u64` arm of the width probe, one step: the operation mix the
/// allocator performs, carried in 64 bits.
pub open spec fn wide_term(i: u32) -> u64 {
    let x = (i as u64).wrapping_mul(0x9E37_79B9) & 0xFFFF_FFFF;
    let x = x.wrapping_add(0x1000);
    let x = x.saturating_sub(0x800);
    let x = if (x & 0x8000_0000) != 0 { x ^ 0xFFFF } else { x };
    if x >= 0x4000 { x >> 1u64 } else { x }
}

/// The `u32` arm of the width probe, one step.
pub open spec fn narrow_term(i: u32) -> u32 {
    let x = i.wrapping_mul(0x9E37_79B9);
    let x = x.wrapping_add(0x1000);
    let x = x.saturating_sub(0x800);
    let x = if (x & 0x8000_0000) != 0 { x ^ 0xFFFF } else { x };
    if x >= 0x4000 { x >> 1u32 } else { x }
}

/// The `u64` arm's wrapping sum over the first `n` steps.
pub open spec fn wide_sum(n: nat) -> u64
    decreases n,
{
    if n == 0 { 0 } else { wide_sum((n - 1) as nat).wrapping_add(wide_term((n - 1) as u32)) }
}

/// The `u32` arm's wrapping sum over the first `n` steps.
pub open spec fn narrow_sum(n: nat) -> u32
    decreases n,
{
    if n == 0 { 0 } else { narrow_sum((n - 1) as nat).wrapping_add(narrow_term((n - 1) as u32)) }
}

/// The width probe's checksum: the `u64` arm's sum truncated to 32 bits, or
/// the `u32` arm's sum.
pub fn width_checksum(wide: bool, ops: u32) -> (r: u64)
    ensures
        r == (if wide { wide_sum(ops as nat) & 0xFFFF_FFFF } else { narrow_sum(ops as nat) as u64 }),
{
    if wide {
        let mut sum: u64 = 0;
        let mut i: u32 = 0;
        while i < ops
            invariant
                i <= ops,
                sum == wide_sum(i as nat),
            decreases ops - i,
        {
            let mut x = (i as u64).wrapping_mul(0x9E37_79B9) & 0xFFFF_FFFF;
            x = x.wrapping_add(0x1000);
            x = x.saturating_sub(0x800);
            if (x & 0x8000_0000) != 0 {
                x ^= 0xFFFF;
            }
            if x >= 0x4000 {
                x >>= 1;
            }
            sum = sum.wrapping_add(x);
            i = i + 1;
        }
        sum & 0xFFFF_FFFF
    } else {
        let mut sum: u32 = 0;
        let mut i: u32 = 0;
        while i < ops
            invariant
                i <= ops,
                sum == narrow_sum(i as nat),
            decreases ops - i,
        {
            let mut x = i.wrapping_mul(0x9E37_79B9);
            x = x.wrapping_add(0x1000);
            x = x.saturating_sub(0x800);
            if (x & 0x8000_0000) != 0 {
                x ^= 0xFFFF;
            }
            if x >= 0x4000 {
                x >>= 1;
            }
            sum = sum.wrapping_add(x);
            i = i + 1;
        }
        sum as u64
    }
}

/// How many header slots the header probe lays out.
pub const HEADERS: usize = 4096;

/// The value the header probe stores at slot `i`.
pub open spec fn header_value(i: int) -> u64 {
    0x5A5A_5A5A_0000_0000u64 ^ (i as u64).wrapping_mul(0x9E37_79B9)
}

/// The header probe's sum over the first `n` reads: read `k` takes the two
/// words at slot `k mod 4094` and the next.
pub open spec fn header_sum(n: nat) -> u64
    decreases n,
{
    if n == 0 {
        0
    } else {
        let k = ((n - 1) as int) % 4094;
        header_sum((n - 1) as nat).wrapping_add(header_value(k) ^ header_value(k + 1))
    }
}

/// The header probe: the same headers laid out as words and as their
/// little-endian bytes, read `ops` times one way or the other. Both ways
/// read the same values, so both give the same checksum.
pub fn header_checksum(words: bool, ops: u32) -> (r: u64)
    ensures
        r == header_sum(ops as nat),
{
    let mut wordbuf = [0u64; 4096];
    let mut bytes = [0u8; 32768];
    let mut i: usize = 0;
    while i < HEADERS
        invariant
            i <= HEADERS,
            forall|k: int| 0 <= k < i ==> #[trigger] wordbuf@[k] == header_value(k),
            forall|k: int| 0 <= k < i ==> #[trigger] word(bytes@, 8 * k) == header_value(k),
            bytes@.len() == 32768,
        decreases HEADERS - i,
    {
        let v = 0x5A5A_5A5A_0000_0000u64 ^ (i as u64).wrapping_mul(0x9E37_79B9);
        wordbuf[i] = v;
        let at = i * 8;
        let ghost before = bytes@;
        bytes[at] = (v & 0xff) as u8;
        bytes[at + 1] = ((v >> 8u64) & 0xff) as u8;
        bytes[at + 2] = ((v >> 16u64) & 0xff) as u8;
        bytes[at + 3] = ((v >> 24u64) & 0xff) as u8;
        bytes[at + 4] = ((v >> 32u64) & 0xff) as u8;
        bytes[at + 5] = ((v >> 40u64) & 0xff) as u8;
        bytes[at + 6] = ((v >> 48u64) & 0xff) as u8;
        bytes[at + 7] = ((v >> 56u64) & 0xff) as u8;
        proof {
            lemma_byte_of(v);
            assert(bytes@ =~= put_word(before, at as int, v));
            assert forall|k: int| 0 <= k < i + 1 implies #[trigger] word(bytes@, 8 * k) == header_value(k) by {
                lemma_put_word(before, at as int, v, 8 * k);
            }
        }
        i = i + 1;
    }
    let mut sum: u64 = 0;
    let mut n: u32 = 0;
    while n < ops
        invariant
            n <= ops,
            sum == header_sum(n as nat),
            forall|k: int| 0 <= k < HEADERS ==> #[trigger] wordbuf@[k] == header_value(k),
            forall|k: int| 0 <= k < HEADERS ==> #[trigger] word(bytes@, 8 * k) == header_value(k),
            bytes@.len() == 32768,
        decreases ops - n,
    {
        let index = (n % 4094) as usize;
        if words {
            sum = sum.wrapping_add(wordbuf[index] ^ wordbuf[index + 1]);
        } else {
            let o = index * 8;
            let a = (bytes[o] as u64) | ((bytes[o + 1] as u64) << 8u64) | ((bytes[o + 2] as u64) << 16u64)
                | ((bytes[o + 3] as u64) << 24u64) | ((bytes[o + 4] as u64) << 32u64)
                | ((bytes[o + 5] as u64) << 40u64) | ((bytes[o + 6] as u64) << 48u64)
                | ((bytes[o + 7] as u64) << 56u64);
            let p = o + 8;
            let b = (bytes[p] as u64) | ((bytes[p + 1] as u64) << 8u64) | ((bytes[p + 2] as u64) << 16u64)
                | ((bytes[p + 3] as u64) << 24u64) | ((bytes[p + 4] as u64) << 32u64)
                | ((bytes[p + 5] as u64) << 40u64) | ((bytes[p + 6] as u64) << 48u64)
                | ((bytes[p + 7] as u64) << 56u64);
            proof {
                assert(a == word(bytes@, 8 * (index as int)));
                assert(b == word(bytes@, 8 * (index as int + 1)));
            }
            sum = sum.wrapping_add(a ^ b);
        }
        n = n + 1;
    }
    sum
}


/// Where an allocation workload stands: the heap, what each slot holds (a
/// block's user offset and generation), the generator, and the checksum.
pub ghost struct HeapRun {
    pub heap: HeapState,
    pub slots: Seq<Option<(u32, u32)>>,
    pub seed: u32,
    pub checksum: u64,
}

/// A workload's start: a fresh heap, every slot empty, the seed 12345.
pub open spec fn heap_run_start<const N: usize, const LINK: usize>() -> HeapRun {
    HeapRun {
        heap: Heap4::<N, 8, LINK>::fresh(),
        slots: Seq::new(SLOTS as nat, |i: int| None),
        seed: 12345,
        checksum: 0,
    }
}

/// One operation: step the generator; the slot it names is freed when it
/// holds a block, and otherwise gets a block of `min + (r / 48) mod span`
/// bytes (or nothing, when the heap refuses). The checksum adds the free
/// bytes and the minimum ever free.
pub open spec fn heap_run_step<const N: usize, const LINK: usize>(st: HeapRun, min: u32, span: u32) -> HeapRun {
    let r = Lcg::step(st.seed);
    let slot = (r % 48) as int;
    let (heap, held) = match st.slots[slot] {
        Some(b) => (Heap4::<N, 8, LINK>::free_step(st.heap, b.0 as int, Some(b.1)).0, None),
        None => Heap4::<N, 8, LINK>::alloc_step(st.heap, (min + (r / 48) % span) as usize),
    };
    HeapRun {
        heap,
        slots: st.slots.update(slot, held),
        seed: r,
        checksum: st.checksum.wrapping_add(heap.free_bytes as u64).wrapping_add(heap.minimum_ever_free as u64),
    }
}

/// The workload after `n` operations.
pub open spec fn heap_run<const N: usize, const LINK: usize>(min: u32, span: u32, n: nat) -> HeapRun
    decreases n,
{
    if n == 0 {
        heap_run_start::<N, LINK>()
    } else {
        heap_run_step::<N, LINK>(heap_run::<N, LINK>(min, span, (n - 1) as nat), min, span)
    }
}

/// The slots' contents as (user offset, generation).
pub open spec fn block_views(slots: Seq<Option<Block>>) -> Seq<Option<(u32, u32)>> {
    slots.map_values(|o: Option<Block>| match o {
        Some(b) => Some(b@),
        None => None,
    })
}

/// The allocation workload over a `Heap4<N, 8, LINK>`: `ops` operations of
/// requests between `min` and `min + span - 1` bytes. Answers the checksum
/// and the heap's allocation and free counts.
pub fn heap4_band_in<const N: usize, const LINK: usize>(min: u32, span: u32, ops: u32) -> (r: (u64, usize, usize))
    requires
        Heap4::<N, 8, LINK>::geometry(),
        span > 0,
        min + span <= 0x1_0000_0000,
    ensures
        r.0 == heap_run::<N, LINK>(min, span, ops as nat).checksum,
        r.1 == heap_run::<N, LINK>(min, span, ops as nat).heap.allocations,
        r.2 == heap_run::<N, LINK>(min, span, ops as nat).heap.frees,
{
    let mut heap = Heap4::<N, 8, LINK>::new();
    let mut slots: [Option<Block>; 48] = [None; 48];
    let mut rng = Lcg::new(12345);
    let mut checksum: u64 = 0;
    let mut k: u32 = 0;
    proof {
        assert(block_views(slots@) =~= heap_run_start::<N, LINK>().slots);
    }
    while k < ops
        invariant
            Heap4::<N, 8, LINK>::geometry(),
            span > 0,
            min + span <= 0x1_0000_0000,
            k <= ops,
            heap.wf(),
            heap@ == heap_run::<N, LINK>(min, span, k as nat).heap,
            block_views(slots@) == heap_run::<N, LINK>(min, span, k as nat).slots,
            rng.state() == heap_run::<N, LINK>(min, span, k as nat).seed,
            checksum == heap_run::<N, LINK>(min, span, k as nat).checksum,
        decreases ops - k,
    {
        let ghost before = heap_run::<N, LINK>(min, span, k as nat);
        let r = rng.next();
        let slot = (r as usize) % SLOTS;
        match slots[slot] {
            Some(block) => {
                let ghost h0 = heap@;
                let result = heap.free(block);
                proof {
                    Heap4::<N, 8, LINK>::lemma_free_step(h0, block@.0 as int, Some(block@.1), heap@, result);
                }
                slots[slot] = None;
            },
            None => {
                let size = min + ((r / 48) % span);
                let ghost h0 = heap@;
                let got = heap.allocate(size as usize);
                proof {
                    Heap4::<N, 8, LINK>::lemma_alloc_step(h0, size as usize, heap@, got);
                }
                slots[slot] = got;
            },
        }
        checksum = checksum.wrapping_add(heap.free_bytes() as u64).wrapping_add(heap.minimum_ever_free_bytes() as u64);
        proof {
            assert(block_views(slots@) =~= heap_run::<N, LINK>(min, span, k as nat + 1).slots);
        }
        k = k + 1;
    }
    (checksum, heap.allocations(), heap.frees())
}

/// Eight-byte alignment is one the heaps work with.
proof fn lemma_eight_is_good()
    ensures
        good_align(8),
{
    lemma2_to64();
    assert(pow2(3) == 8);
}

/// The workload over 256 KiB with the 64-bit header geometry.
pub fn heap4_band(min: u32, span: u32, ops: u32) -> (r: (u64, usize, usize))
    requires
        span > 0,
        min + span <= 0x1_0000_0000,
    ensures
        r.0 == heap_run::<262_144, 16>(min, span, ops as nat).checksum,
        r.1 == heap_run::<262_144, 16>(min, span, ops as nat).heap.allocations,
        r.2 == heap_run::<262_144, 16>(min, span, ops as nat).heap.frees,
{
    proof {
        lemma_eight_is_good();
    }
    heap4_band_in::<262_144, 16>(min, span, ops)
}

/// The workload over 256 KiB with the 32-bit header geometry.
pub fn heap4_band_narrow(min: u32, span: u32, ops: u32) -> (r: (u64, usize, usize))
    requires
        span > 0,
        min + span <= 0x1_0000_0000,
    ensures
        r.0 == heap_run::<262_144, 8>(min, span, ops as nat).checksum,
        r.1 == heap_run::<262_144, 8>(min, span, ops as nat).heap.allocations,
        r.2 == heap_run::<262_144, 8>(min, span, ops as nat).heap.frees,
{
    proof {
        lemma_eight_is_good();
    }
    heap4_band_in::<262_144, 8>(min, span, ops)
}

/// The workload over 2 MiB, where the same live blocks fill a ninth as
/// much of the arena.
pub fn heap4_band_roomy(min: u32, span: u32, ops: u32) -> (r: (u64, usize, usize))
    requires
        span > 0,
        min + span <= 0x1_0000_0000,
    ensures
        r.0 == heap_run::<2_097_152, 16>(min, span, ops as nat).checksum,
        r.1 == heap_run::<2_097_152, 16>(min, span, ops as nat).heap.allocations,
        r.2 == heap_run::<2_097_152, 16>(min, span, ops as nat).heap.frees,
{
    proof {
        lemma_eight_is_good();
    }
    heap4_band_in::<2_097_152, 16>(min, span, ops)
}

/// Where a pool workload stands.
pub ghost struct PoolRun {
    pub pool: PoolState,
    pub slots: Seq<Option<(u16, u32)>>,
    pub seed: u32,
    pub checksum: u64,
}

/// A pool workload's start: a new pool, every slot empty, the seed 12345.
pub open spec fn pool_run_start() -> PoolRun {
    PoolRun {
        pool: PoolState {
            stack: Seq::new(SLOTS as nat, |k: int| (SLOTS - 1 - k) as u16),
            generation: Seq::new(SLOTS as nat, |k: int| 0u32),
            live: Seq::new(SLOTS as nat, |k: int| false),
            allocations: 0,
            frees: 0,
        },
        slots: Seq::new(SLOTS as nat, |i: int| None),
        seed: 12345,
        checksum: 0,
    }
}

/// One operation of the pool workload: the slot the generator names is
/// freed when it holds a block and takes one otherwise; the checksum adds
/// the blocks available and the allocations made.
pub open spec fn pool_run_step<const BLOCK: usize>(st: PoolRun) -> PoolRun {
    let r = Lcg::step(st.seed);
    let slot = (r % 48) as int;
    let (pool, held) = match st.slots[slot] {
        Some(s) => (Pool::<BLOCK, 48>::free_step(st.pool, s).0, None),
        None => Pool::<BLOCK, 48>::alloc_step(st.pool),
    };
    PoolRun {
        pool,
        slots: st.slots.update(slot, held),
        seed: r,
        checksum: st.checksum.wrapping_add(pool.stack.len() as u64).wrapping_add(pool.allocations as u64),
    }
}

/// The pool workload after `n` operations.
pub open spec fn pool_run<const BLOCK: usize>(n: nat) -> PoolRun
    decreases n,
{
    if n == 0 {
        pool_run_start()
    } else {
        pool_run_step::<BLOCK>(pool_run::<BLOCK>((n - 1) as nat))
    }
}

/// The slots' contents as (index, generation).
pub open spec fn slot_views(slots: Seq<Option<Slot>>) -> Seq<Option<(u16, u32)>> {
    slots.map_values(|o: Option<Slot>| match o {
        Some(s) => Some(s@),
        None => None,
    })
}

/// The same workload served by a pool of 48 blocks of `BLOCK` bytes:
/// answers the checksum, the pool's allocation and free counts, and how many
/// blocks it has available at the end.
pub fn pool_band<const BLOCK: usize>(ops: u32) -> (r: (u64, u32, u32, usize))
    requires
        BLOCK > 0,
    ensures
        r.0 == pool_run::<BLOCK>(ops as nat).checksum,
        r.1 == pool_run::<BLOCK>(ops as nat).pool.allocations,
        r.2 == pool_run::<BLOCK>(ops as nat).pool.frees,
        r.3 == pool_run::<BLOCK>(ops as nat).pool.stack.len(),
{
    let mut pool = Pool::<BLOCK, 48>::new();
    let mut slots: [Option<Slot>; 48] = [None; 48];
    let mut rng = Lcg::new(12345);
    let mut checksum: u64 = 0;
    let mut k: u32 = 0;
    proof {
        assert(slot_views(slots@) =~= pool_run_start().slots);
        assert(pool@ == pool_run::<BLOCK>(0).pool);
    }
    while k < ops
        invariant
            BLOCK > 0,
            k <= ops,
            pool.wf(),
            pool@ == pool_run::<BLOCK>(k as nat).pool,
            slot_views(slots@) == pool_run::<BLOCK>(k as nat).slots,
            rng.state() == pool_run::<BLOCK>(k as nat).seed,
            checksum == pool_run::<BLOCK>(k as nat).checksum,
        decreases ops - k,
    {
        let r = rng.next();
        let slot = (r as usize) % SLOTS;
        match slots[slot] {
            Some(block) => {
                let ghost p0 = pool@;
                let result = pool.free(block);
                proof {
                    Pool::<BLOCK, 48>::lemma_free_step(p0, block@, pool@, result);
                }
                slots[slot] = None;
            },
            None => {
                let ghost p0 = pool@;
                let got = pool.allocate();
                proof {
                    Pool::<BLOCK, 48>::lemma_alloc_step(p0, pool@, got);
                }
                slots[slot] = got;
            },
        }
        checksum = checksum.wrapping_add(pool.available() as u64).wrapping_add(pool.allocations() as u64);
        proof {
            assert(slot_views(slots@) =~= pool_run::<BLOCK>(k as nat + 1).slots);
        }
        k = k + 1;
    }
    (checksum, pool.allocations(), pool.frees(), pool.available())
}

/// Adding two words with wraparound is their sum modulo 2^64.
proof fn lemma_wrapping_add(x: u64, y: u64)
    ensures
        x.wrapping_add(y) as int == (x + y) % 0x1_0000_0000_0000_0000,
{
    if x + y > u64::MAX {
        vstd::arithmetic::div_mod::lemma_mod_sub_multiples_vanish((x + y) as int, 0x1_0000_0000_0000_0000);
        vstd::arithmetic::div_mod::lemma_small_mod((x + y - 0x1_0000_0000_0000_0000) as nat, 0x1_0000_0000_0000_0000);
    } else {
        vstd::arithmetic::div_mod::lemma_small_mod((x + y) as nat, 0x1_0000_0000_0000_0000);
    }
}

/// After each operation of the heap workload, its checksum grows by the
/// heap's free bytes and its minimum ever free, both as that operation left
/// them, modulo 2^64.
pub proof fn lemma_heap_checksum_reads_both<const N: usize, const LINK: usize>(min: u32, span: u32, n: nat)
    requires
        n > 0,
    ensures
        heap_run::<N, LINK>(min, span, n).checksum as int == (heap_run::<N, LINK>(min, span, (n - 1) as nat).checksum
            + heap_run::<N, LINK>(min, span, n).heap.free_bytes as u64
            + heap_run::<N, LINK>(min, span, n).heap.minimum_ever_free as u64) % 0x1_0000_0000_0000_0000,
{
    let before = heap_run::<N, LINK>(min, span, (n - 1) as nat);
    let after = heap_run::<N, LINK>(min, span, n);
    let f = after.heap.free_bytes as u64;
    let m = after.heap.minimum_ever_free as u64;
    let once = before.checksum.wrapping_add(f);
    lemma_wrapping_add(before.checksum, f);
    lemma_wrapping_add(once, m);
    vstd::arithmetic::div_mod::lemma_add_mod_noop(before.checksum + f, m as int, 0x1_0000_0000_0000_0000);
    vstd::arithmetic::div_mod::lemma_small_mod(m as nat, 0x1_0000_0000_0000_0000);
    vstd::arithmetic::div_mod::lemma_mod_twice(before.checksum + f, 0x1_0000_0000_0000_0000);
}

/// After each operation of the pool workload, its checksum grows by the
/// blocks the pool has available and the allocations it has made, both as
/// that operation left them, modulo 2^64.
pub proof fn lemma_pool_checksum_reads_both<const BLOCK: usize>(n: nat)
    requires
        n > 0,
    ensures
        pool_run::<BLOCK>(n).checksum as int == (pool_run::<BLOCK>((n - 1) as nat).checksum
            + pool_run::<BLOCK>(n).pool.stack.len() as u64
            + pool_run::<BLOCK>(n).pool.allocations as u64) % 0x1_0000_0000_0000_0000,
{
    let before = pool_run::<BLOCK>((n - 1) as nat);
    let after = pool_run::<BLOCK>(n);
    let f = after.pool.stack.len() as u64;
    let m = after.pool.allocations as u64;
    let once = before.checksum.wrapping_add(f);
    lemma_wrapping_add(before.checksum, f);
    lemma_wrapping_add(once, m);
    vstd::arithmetic::div_mod::lemma_add_mod_noop(before.checksum + f, m as int, 0x1_0000_0000_0000_0000);
    vstd::arithmetic::div_mod::lemma_small_mod(m as nat, 0x1_0000_0000_0000_0000);
    vstd::arithmetic::div_mod::lemma_mod_twice(before.checksum + f, 0x1_0000_0000_0000_0000);
}

} // verus!
