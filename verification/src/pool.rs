//! A fixed-size block pool: `BLOCKS` blocks of `BLOCK` bytes, served from a
//! stack of free indices. `allocate` is a pop and `free` a push; there is no
//! size to compare, no block to split and no list to walk.
//!
//! A [`Slot`] carries the generation that was live when it was handed out,
//! and freeing a block moves its generation on, so a stale or doubled free
//! is `Gone` rather than a block pushed onto the stack twice.
use vstd::prelude::*;
use vstd::set_lib::{lemma_int_range, lemma_len_subset, lemma_set_disjoint_lens, set_int_range};
use crate::error::Error;

verus! {

/// A handle to one block of a [`Pool`]: which block, and the generation it
/// was handed out at.
#[derive(Debug, Clone, Copy, PartialEq, Eq, Structural)]
pub struct Slot {
    index: u16,
    generation: u32,
}

impl View for Slot {
    type V = (u16, u32);

    closed spec fn view(&self) -> (u16, u32) {
        (self.index, self.generation)
    }
}

impl Slot {
    /// Which block this names.
    pub fn index(self) -> (r: u16)
        ensures
            r == self@.0,
    {
        self.index
    }

    /// The generation it was handed out at.
    pub fn generation(self) -> (r: u32)
        ensures
            r == self@.1,
    {
        self.generation
    }
}

/// The abstract state of a [`Pool`].
pub ghost struct PoolState {
    /// The free indices, the one handed out next last.
    pub stack: Seq<u16>,
    /// Per block, the generation a live handle must carry.
    pub generation: Seq<u32>,
    /// Per block, whether it is handed out.
    pub live: Seq<bool>,
    /// Blocks handed out, wrapping at 2^32.
    pub allocations: int,
    /// Blocks given back, wrapping at 2^32.
    pub frees: int,
}

/// `BLOCKS` blocks of `BLOCK` bytes each, the whole arena a field.
pub struct Pool<const BLOCK: usize, const BLOCKS: usize> {
    storage: [[u8; BLOCK]; BLOCKS],
    free: [u16; BLOCKS],
    top: usize,
    generation: [u32; BLOCKS],
    live: [bool; BLOCKS],
    allocations: u32,
    frees: u32,
}

impl<const BLOCK: usize, const BLOCKS: usize> View for Pool<BLOCK, BLOCKS> {
    type V = PoolState;

    closed spec fn view(&self) -> PoolState {
        PoolState {
            stack: Seq::new(self.top as nat, |k: int| self.free@[k]),
            generation: self.generation@,
            live: self.live@,
            allocations: self.allocations as int,
            frees: self.frees as int,
        }
    }
}

/// Distinct values below `bound`, one value excluded, number at most
/// `bound - 1`.
proof fn lemma_pigeonhole(s: Seq<u16>, bound: int, excluded: int)
    requires
        forall|a: int, b: int| 0 <= a < b < s.len() ==> s[a] != s[b],
        0 <= excluded < bound,
        forall|k: int| 0 <= k < s.len() ==> s[k] < bound && s[k] != excluded,
    ensures
        s.len() <= bound - 1,
{
    let t = s.map_values(|v: u16| v as int);
    assert(t.no_duplicates()) by {
        assert forall|a: int, b: int| 0 <= a < t.len() && 0 <= b < t.len() && a != b implies t[a] != t[b] by {
            if a < b {
                assert(s[a] != s[b]);
            } else {
                assert(s[b] != s[a]);
            }
        }
    }
    t.unique_seq_to_set();
    let r = set_int_range(0, bound).remove(excluded);
    lemma_int_range(0, bound);
    assert(t.to_set().subset_of(r)) by {
        assert forall|x: int| t.to_set().contains(x) implies r.contains(x) by {
            let k = choose|k: int| 0 <= k < t.len() && t[k] == x;
            assert(s[k] < bound && s[k] != excluded);
        }
    }
    lemma_len_subset(t.to_set(), r);
}

impl<const BLOCK: usize, const BLOCKS: usize> Pool<BLOCK, BLOCKS> {
    /// The geometry a pool is built for: at least one block, of at least one
    /// byte, and at most 65,535 of them.
    pub open spec fn geometry() -> bool {
        &&& BLOCK > 0
        &&& BLOCKS > 0
        &&& BLOCKS <= u16::MAX
    }

    /// The free stack holds each block that is not handed out, once.
    pub closed spec fn wf(&self) -> bool {
        &&& Self::geometry()
        &&& self.top <= BLOCKS
        &&& forall|k: int| 0 <= k < self.top ==> (#[trigger] self.free@[k]) < BLOCKS && !self.live@[self.free@[k] as int]
        &&& forall|a: int, b: int| 0 <= a < b < self.top ==> #[trigger] self.free@[a] != #[trigger] self.free@[b]
        &&& forall|i: int| 0 <= i < BLOCKS && !(#[trigger] self.live@[i]) ==> exists|k: int| 0 <= k < self.top && self.free@[k] == i
    }

    /// The blocks' bytes.
    pub closed spec fn blocks(&self) -> Seq<[u8; BLOCK]> {
        self.storage@
    }

    /// The outcome `allocate` owes: the block on top of the free stack, at
    /// its generation, or `None` when the stack is empty.
    pub open spec fn alloc_spec(old: PoolState, new: PoolState, r: Option<Slot>) -> bool {
        if old.stack.len() == 0 {
            r is None && new == old
        } else {
            let index = old.stack.last();
            &&& r matches Some(s) && s@ == (index, old.generation[index as int])
            &&& new == (PoolState {
                stack: old.stack.drop_last(),
                live: old.live.update(index as int, true),
                allocations: (old.allocations + 1) % 0x1_0000_0000,
                ..old
            })
        }
    }

    /// Whether a handle names a live block of this pool at its generation:
    /// `InvalidHandle` for no block of this pool, `Gone` for a block not
    /// handed out or handed out again since.
    pub open spec fn check_spec(s: PoolState, slot: (u16, u32)) -> Result<(), Error> {
        if slot.0 >= BLOCKS {
            Err(Error::InvalidHandle)
        } else if !s.live[slot.0 as int] || s.generation[slot.0 as int] != slot.1 {
            Err(Error::Gone)
        } else {
            Ok(())
        }
    }

    /// The outcome `free` owes: the check's refusal, with nothing changed;
    /// or the block pushed back on the stack and its generation moved on.
    pub open spec fn free_spec(old: PoolState, slot: (u16, u32), new: PoolState, r: Result<(), Error>) -> bool {
        let at = slot.0 as int;
        if Self::check_spec(old, slot) is Err {
            r == Self::check_spec(old, slot) && new == old
        } else {
            &&& r == Ok::<(), Error>(())
            &&& new == (PoolState {
                stack: old.stack.push(slot.0),
                generation: old.generation.update(at, ((old.generation[at] + 1) % 0x1_0000_0000) as u32),
                live: old.live.update(at, false),
                frees: (old.frees + 1) % 0x1_0000_0000,
                ..old
            })
        }
    }

    /// The arena in bytes.
    pub fn arena_bytes() -> (r: usize)
        ensures
            r == (if BLOCK * BLOCKS > usize::MAX { usize::MAX as int } else { BLOCK * BLOCKS }),
    {
        match BLOCK.checked_mul(BLOCKS) {
            Some(bytes) => bytes,
            None => usize::MAX,
        }
    }

    /// An empty pool, every block free; the first `allocate` hands out
    /// block 0.
    pub fn new() -> (p: Self)
        requires
            Self::geometry(),
        ensures
            p.wf(),
            p@.stack == Seq::new(BLOCKS as nat, |k: int| (BLOCKS - 1 - k) as u16),
            p@.generation == Seq::new(BLOCKS as nat, |k: int| 0u32),
            p@.live == Seq::new(BLOCKS as nat, |k: int| false),
            p@.allocations == 0,
            p@.frees == 0,
            Self::counts_balance(p@),
    {
        let mut free = [0u16; BLOCKS];
        let mut i: usize = 0;
        while i < BLOCKS
            invariant
                Self::geometry(),
                0 <= i <= BLOCKS,
                forall|k: int| 0 <= k < i ==> free@[k] == (BLOCKS - 1 - k) as u16,
            decreases BLOCKS - i,
        {
            // Highest index first, so the first allocation hands out block 0.
            free[i] = (BLOCKS - 1 - i) as u16;
            i = i + 1;
        }
        let p = Pool {
            storage: [[0u8; BLOCK]; BLOCKS],
            free,
            top: BLOCKS,
            generation: [0u32; BLOCKS],
            live: [false; BLOCKS],
            allocations: 0,
            frees: 0,
        };
        proof {
            assert forall|j: int| 0 <= j < BLOCKS && !(#[trigger] p.live@[j]) implies exists|k: int| 0 <= k < p.top && p.free@[k] == j by {
                assert(p.free@[BLOCKS - 1 - j] == j);
            }
            assert(p@.stack =~= Seq::new(BLOCKS as nat, |k: int| (BLOCKS - 1 - k) as u16));
            assert(p@.generation =~= Seq::new(BLOCKS as nat, |k: int| 0u32));
            assert(p@.live =~= Seq::new(BLOCKS as nat, |k: int| false));
            assert(Self::handed_out(p@) =~= Set::<int>::empty());
        }
        p
    }

    /// Take a block, or `None` when the pool is empty: a pop.
    pub fn allocate(&mut self) -> (r: Option<Slot>)
        requires
            old(self).wf(),
        ensures
            final(self).wf(),
            Self::alloc_spec(old(self)@, final(self)@, r),
            final(self).blocks() == old(self).blocks(),
    {
        if self.top == 0 {
            return None;
        }
        let top = self.top - 1;
        let index = self.free[top];
        let at = index as usize;
        let generation = self.generation[at];
        // Mark BEFORE committing the pop, so a pool that disagreed with
        // itself would refuse rather than hand one block out twice.
        if self.live[at] {
            return None;
        }
        let ghost before = *self;
        self.live[at] = true;
        self.top = top;
        self.allocations = self.allocations.wrapping_add(1);
        proof {
            assert forall|j: int| 0 <= j < BLOCKS && !(#[trigger] self.live@[j]) implies exists|k: int| 0 <= k < self.top && self.free@[k] == j by {
                let k = choose|k: int| 0 <= k < before.top && before.free@[k] == j;
                if k == top {
                    assert(self.live@[j]);
                }
                assert(self.free@[k] == j);
            }
            assert forall|k: int| 0 <= k < self.top implies (#[trigger] self.free@[k]) < BLOCKS && !self.live@[self.free@[k] as int] by {
                assert(before.free@[k] != before.free@[top as int]);
            }
            assert(self@.stack =~= before@.stack.drop_last());
        }
        Some(Slot { index, generation })
    }

    /// A handle names a live block of this pool at the right generation.
    fn check(&self, slot: Slot) -> (r: Result<(), Error>)
        requires
            self.wf(),
        ensures
            r == Self::check_spec(self@, slot@),
    {
        let at = slot.index as usize;
        if at >= BLOCKS {
            return Err(Error::InvalidHandle);
        }
        if !self.live[at] || self.generation[at] != slot.generation {
            return Err(Error::Gone);
        }
        Ok(())
    }

    /// Give a block back: a push. `InvalidHandle` when the slot names no
    /// block of this pool; `Gone` when the block is already free or its
    /// generation has passed, which is what a double free looks like.
    pub fn free(&mut self, slot: Slot) -> (r: Result<(), Error>)
        requires
            old(self).wf(),
        ensures
            final(self).wf(),
            Self::free_spec(old(self)@, slot@, final(self)@, r),
            final(self).blocks() == old(self).blocks(),
    {
        match self.check(slot) {
            Err(e) => return Err(e),
            Ok(()) => {},
        }
        let at = slot.index as usize;
        let ghost before = *self;
        proof {
            // A live block is not on the stack, so the stack has room.
            assert forall|k: int| 0 <= k < before.top implies before.free@[k] < BLOCKS && before.free@[k] != at by {
                assert(!before.live@[before.free@[k] as int]);
            }
            lemma_pigeonhole(before@.stack, BLOCKS as int, at as int);
        }
        // Bump FIRST: after this, the handle just freed names a generation
        // that no longer exists.
        self.generation[at] = self.generation[at].wrapping_add(1);
        self.live[at] = false;
        self.free[self.top] = slot.index;
        self.top = self.top + 1;
        self.frees = self.frees.wrapping_add(1);
        proof {
            assert forall|j: int| 0 <= j < BLOCKS && !(#[trigger] self.live@[j]) implies exists|k: int| 0 <= k < self.top && self.free@[k] == j by {
                if j == at {
                    assert(self.free@[before.top as int] == j);
                } else {
                    let k = choose|k: int| 0 <= k < before.top && before.free@[k] == j;
                    assert(self.free@[k] == j);
                }
            }
            assert forall|k: int| 0 <= k < self.top implies (#[trigger] self.free@[k]) < BLOCKS && !self.live@[self.free@[k] as int] by {
                if k < before.top {
                    assert(before.free@[k] != at);
                }
            }
            assert forall|a: int, b: int| 0 <= a < b < self.top implies #[trigger] self.free@[a] != #[trigger] self.free@[b] by {
                if b == before.top {
                    assert(!before.live@[before.free@[a] as int]);
                }
            }
            assert(self@.stack =~= before@.stack.push(slot.index));
        }
        Ok(())
    }

    /// The block's bytes, with [`Pool::free`]'s refusals.
    pub fn bytes(&self, slot: Slot) -> (r: Result<&[u8; BLOCK], Error>)
        requires
            self.wf(),
        ensures
            Self::check_spec(self@, slot@) is Err ==> r == Err::<&[u8; BLOCK], Error>(Self::check_spec(self@, slot@)->Err_0),
            Self::check_spec(self@, slot@) is Ok ==> (r matches Ok(b) && *b == self.blocks()[slot@.0 as int]),
    {
        match self.check(slot) {
            Err(e) => return Err(e),
            Ok(()) => {},
        }
        Ok(&self.storage[slot.index as usize])
    }

    /// The block's bytes, to write, with [`Pool::free`]'s refusals.
    pub fn bytes_mut(&mut self, slot: Slot) -> (r: Result<&mut [u8; BLOCK], Error>)
        requires
            old(self).wf(),
        ensures
            final(self).wf(),
            final(self)@ == old(self)@,
            Self::check_spec(old(self)@, slot@) is Err ==> r == Err::<&mut [u8; BLOCK], Error>(Self::check_spec(old(self)@, slot@)->Err_0),
            Self::check_spec(old(self)@, slot@) is Err ==> final(self).blocks() == old(self).blocks(),
            Self::check_spec(old(self)@, slot@) is Ok ==> (r matches Ok(b) && *b == old(self).blocks()[slot@.0 as int]
                && final(self).blocks() == old(self).blocks().update(slot@.0 as int, *final(b))),
    {
        match self.check(slot) {
            Err(e) => return Err(e),
            Ok(()) => {},
        }
        Ok(self.block_mut(slot.index as usize))
    }

    /// Block `at`'s bytes, to write; the books stay as they are.
    fn block_mut(&mut self, at: usize) -> (r: &mut [u8; BLOCK])
        requires
            old(self).wf(),
            at < BLOCKS,
        ensures
            *r == old(self).storage@[at as int],
            final(self).storage@ == old(self).storage@.update(at as int, *final(r)),
            final(self).free == old(self).free,
            final(self).top == old(self).top,
            final(self).live == old(self).live,
            final(self).generation == old(self).generation,
            final(self).allocations == old(self).allocations,
            final(self).frees == old(self).frees,
    {
        &mut self.storage[at]
    }

    /// How many blocks the pool has in total.
    pub fn capacity(&self) -> (r: usize)
        ensures
            r == BLOCKS,
    {
        BLOCKS
    }

    /// How many are free right now.
    pub fn available(&self) -> (r: usize)
        ensures
            r == self@.stack.len(),
    {
        self.top
    }

    /// Blocks handed out so far, wrapping.
    pub fn allocations(&self) -> (r: u32)
        ensures
            r == self@.allocations,
    {
        self.allocations
    }

    /// Blocks given back so far, wrapping.
    pub fn frees(&self) -> (r: u32)
        ensures
            r == self@.frees,
    {
        self.frees
    }
}


impl<const BLOCK: usize, const BLOCKS: usize> Pool<BLOCK, BLOCKS> {
    /// The free stack holds exactly the blocks not handed out, each once, so
    /// it never holds more than the pool has.
    pub proof fn lemma_stack_is_the_free_blocks(p: Self)
        requires
            p.wf(),
        ensures
            p@.stack.len() <= BLOCKS,
            p@.live.len() == BLOCKS,
            p@.generation.len() == BLOCKS,
            forall|k: int| 0 <= k < p@.stack.len() ==> (#[trigger] p@.stack[k]) < BLOCKS && !p@.live[p@.stack[k] as int],
            forall|a: int, b: int| 0 <= a < b < p@.stack.len() ==> #[trigger] p@.stack[a] != #[trigger] p@.stack[b],
            forall|i: int| 0 <= i < BLOCKS && !(#[trigger] p@.live[i]) ==> p@.stack.contains(i as u16),
    {
        assert forall|i: int| 0 <= i < BLOCKS && !(#[trigger] p@.live[i]) implies p@.stack.contains(i as u16) by {
            let k = choose|k: int| 0 <= k < p.top && p.free@[k] == i;
            assert(p@.stack[k] == i as u16);
        }
    }

    /// The blocks handed out.
    pub open spec fn handed_out(s: PoolState) -> Set<int> {
        Set::new(|i: int| 0 <= i < s.live.len() && s.live[i])
    }

    /// Every block is on the free stack or handed out, never both: the
    /// blocks available and the blocks handed out add up to the pool.
    pub proof fn lemma_available_and_handed_out(p: Self)
        requires
            p.wf(),
        ensures
            Self::handed_out(p@).finite(),
            p@.stack.len() + Self::handed_out(p@).len() == BLOCKS,
    {
        Self::lemma_stack_is_the_free_blocks(p);
        let st = p@.stack;
        let t = st.map_values(|v: u16| v as int);
        assert(t.no_duplicates()) by {
            assert forall|a: int, b: int| 0 <= a < t.len() && 0 <= b < t.len() && a != b implies t[a] != t[b] by {
                if a < b {
                    assert(st[a] != st[b]);
                } else {
                    assert(st[b] != st[a]);
                }
            }
        }
        t.unique_seq_to_set();
        let all = set_int_range(0, BLOCKS as int);
        lemma_int_range(0, BLOCKS as int);
        let free_set = Set::new(|i: int| 0 <= i < BLOCKS && !p@.live[i]);
        let handed = Self::handed_out(p@);
        assert(t.to_set() =~= free_set) by {
            assert forall|x: int| t.to_set().contains(x) implies free_set.contains(x) by {
                let k = choose|k: int| 0 <= k < t.len() && t[k] == x;
                assert(st[k] < BLOCKS && !p@.live[st[k] as int]);
            }
            assert forall|x: int| free_set.contains(x) implies t.to_set().contains(x) by {
                assert(st.contains(x as u16));
                let k = choose|k: int| 0 <= k < st.len() && st[k] == x as u16;
                assert(t[k] == x);
            }
        }
        lemma_len_subset(free_set, all);
        lemma_len_subset(handed, all);
        lemma_set_disjoint_lens(free_set, handed);
        assert(free_set + handed =~= all);
    }

    /// The counters agree with the blocks handed out: allocations less frees,
    /// both wrapping at 2^32, is how many blocks are handed out.
    pub open spec fn counts_balance(s: PoolState) -> bool {
        Self::handed_out(s).len() == (s.allocations - s.frees) % 0x1_0000_0000
    }

    /// A new pool's counters agree with the blocks handed out, and every
    /// allocation and free keeps them in agreement; so the blocks available
    /// are the pool less (allocations less frees).
    pub proof fn lemma_counts_balance(p: Self, s1: PoolState, r1: Option<Slot>, slot: (u16, u32), s2: PoolState, r2: Result<(), Error>)
        requires
            p.wf(),
            Self::counts_balance(p@),
        ensures
            Self::alloc_spec(p@, s1, r1) ==> Self::counts_balance(s1),
            Self::free_spec(p@, slot, s2, r2) ==> Self::counts_balance(s2),
            p@.stack.len() == BLOCKS - (p@.allocations - p@.frees) % 0x1_0000_0000,
    {
        Self::lemma_available_and_handed_out(p);
        Self::lemma_stack_is_the_free_blocks(p);
        let m: int = 0x1_0000_0000;
        let h0 = Self::handed_out(p@);
        let a = p@.allocations;
        let f = p@.frees;
        assert(0 <= a < m && 0 <= f < m);
        assert(h0.len() <= BLOCKS);
        if Self::alloc_spec(p@, s1, r1) && p@.stack.len() > 0 {
            let idx = p@.stack.last() as int;
            assert(!p@.live[idx]);
            assert(Self::handed_out(s1) =~= h0.insert(idx));
            vstd::arithmetic::div_mod::lemma_sub_mod_noop(a + 1, f, m);
            vstd::arithmetic::div_mod::lemma_small_mod(f as nat, m as nat);
            vstd::arithmetic::div_mod::lemma_add_mod_noop(a - f, 1, m);
            vstd::arithmetic::div_mod::lemma_small_mod((h0.len() + 1) as nat, m as nat);
            vstd::arithmetic::div_mod::lemma_small_mod(1, m as nat);
            vstd::arithmetic::div_mod::lemma_mod_twice(a - f, m);
            assert((s1.allocations - s1.frees) % m == (a - f + 1) % m);
        }
        if Self::free_spec(p@, slot, s2, r2) && r2 is Ok {
            let idx = slot.0 as int;
            assert(p@.live[idx]);
            assert(h0.contains(idx));
            assert(Self::handed_out(s2) =~= h0.remove(idx));
            assert(h0.len() >= 1);
            vstd::arithmetic::div_mod::lemma_sub_mod_noop(a, f + 1, m);
            vstd::arithmetic::div_mod::lemma_small_mod(a as nat, m as nat);
            vstd::arithmetic::div_mod::lemma_sub_mod_noop(a - f, 1, m);
            vstd::arithmetic::div_mod::lemma_small_mod((h0.len() - 1) as nat, m as nat);
            vstd::arithmetic::div_mod::lemma_small_mod(1, m as nat);
            vstd::arithmetic::div_mod::lemma_mod_twice(a - f, m);
            assert((s2.allocations - s2.frees) % m == (a - f - 1) % m);
        }
    }

    /// Two allocations in a row never hand out the same block.
    pub proof fn lemma_two_live_blocks_differ(p: Self, s1: PoolState, a: Slot, s2: PoolState, b: Slot)
        requires
            p.wf(),
            Self::alloc_spec(p@, s1, Some(a)),
            Self::alloc_spec(s1, s2, Some(b)),
        ensures
            a@.0 != b@.0,
            s2.live[a@.0 as int] && s2.live[b@.0 as int],
    {
        let st = p@.stack;
        assert(st[st.len() - 2] != st[st.len() - 1]);
        assert(s1.stack.last() == st[st.len() - 2]);
    }

    /// A block freed once cannot be freed again: the second free is `Gone`
    /// and changes nothing.
    pub proof fn lemma_double_free_refused(p: Self, slot: Slot, s1: PoolState, s2: PoolState, r: Result<(), Error>)
        requires
            p.wf(),
            Self::free_spec(p@, slot@, s1, Ok(())),
            Self::free_spec(s1, slot@, s2, r),
        ensures
            r == Err::<(), Error>(Error::Gone),
            s2 == s1,
    {
    }

    /// A freed block is the next one handed out, at a new generation, and the
    /// handle it was freed with is refused from then on.
    pub proof fn lemma_freed_block_comes_back(p: Self, slot: Slot, s1: PoolState, s2: PoolState, b: Slot)
        requires
            p.wf(),
            Self::free_spec(p@, slot@, s1, Ok(())),
            Self::alloc_spec(s1, s2, Some(b)),
        ensures
            b@.0 == slot@.0,
            b@.1 != slot@.1,
            Self::check_spec(s2, slot@) == Err::<(), Error>(Error::Gone),
    {
    }
}


impl<const BLOCK: usize, const BLOCKS: usize> Pool<BLOCK, BLOCKS> {
    /// `allocate` as a function of the state: the state after, and the
    /// handed-out block as (index, generation).
    pub open spec fn alloc_step(s: PoolState) -> (PoolState, Option<(u16, u32)>) {
        if s.stack.len() == 0 {
            (s, None)
        } else {
            let index = s.stack.last();
            (PoolState {
                stack: s.stack.drop_last(),
                live: s.live.update(index as int, true),
                allocations: (s.allocations + 1) % 0x1_0000_0000,
                ..s
            }, Some((index, s.generation[index as int])))
        }
    }

    /// `free` as a function of the state.
    pub open spec fn free_step(s: PoolState, slot: (u16, u32)) -> (PoolState, Result<(), Error>) {
        let at = slot.0 as int;
        if Self::check_spec(s, slot) is Err {
            (s, Self::check_spec(s, slot))
        } else {
            (PoolState {
                stack: s.stack.push(slot.0),
                generation: s.generation.update(at, ((s.generation[at] + 1) % 0x1_0000_0000) as u32),
                live: s.live.update(at, false),
                frees: (s.frees + 1) % 0x1_0000_0000,
                ..s
            }, Ok(()))
        }
    }

    /// The outcome `allocate` owes is the step.
    pub proof fn lemma_alloc_step(old: PoolState, new: PoolState, r: Option<Slot>)
        requires
            Self::alloc_spec(old, new, r),
        ensures
            new == Self::alloc_step(old).0,
            (r is Some) == (Self::alloc_step(old).1 is Some),
            r matches Some(b) ==> b@ == Self::alloc_step(old).1->0,
    {
    }

    /// The outcome `free` owes is the step.
    pub proof fn lemma_free_step(old: PoolState, slot: (u16, u32), new: PoolState, r: Result<(), Error>)
        requires
            Self::free_spec(old, slot, new, r),
        ensures
            (new, r) == Self::free_step(old, slot),
    {
    }
}

} // verus!
