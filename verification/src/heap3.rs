//! FreeRTOS's `heap_3` scheme: the platform's allocator, behind the same heap
//! surface as the others.
//!
//! The bytes come from the global allocator and are owned by a slot table;
//! what this adds is the bookkeeping: handles that carry a generation, slots
//! that are reused, and refusals of a double or stale free. Like any `heap_3`
//! it cannot say how much is left.
use vstd::prelude::*;
use crate::error::Error;
use crate::refusal::{try_reserve_exact, Refusal, Refusals};

verus! {

/// What [`Heap3::allocate`] answers with: which slot, and which allocation.
#[derive(Debug, Clone, Copy, PartialEq, Eq, Structural)]
pub struct Handle {
    slot: u32,
    generation: u32,
}

impl View for Handle {
    type V = (u32, u32);

    closed spec fn view(&self) -> (u32, u32) {
        (self.slot, self.generation)
    }
}

impl Handle {
    /// Which slot this allocation lives in.
    pub fn slot(self) -> (r: u32)
        ensures
            r == self@.0,
    {
        self.slot
    }

    /// Which allocation it was.
    pub fn generation(self) -> (r: u32)
        ensures
            r == self@.1,
    {
        self.generation
    }
}

/// The abstract state of a [`Heap3`].
pub ghost struct Heap3State {
    /// Per slot, the bytes of the allocation living there, if any.
    pub slots: Seq<Option<Seq<u8>>>,
    /// Per slot, the generation it is on.
    pub generations: Seq<u32>,
    /// The generation the next allocation is stamped with.
    pub next_generation: int,
    /// Successful allocations, saturating.
    pub allocations: int,
    /// Successful frees, saturating.
    pub frees: int,
    /// The bytes live, by the count kept as allocations come and go.
    pub live_bytes: int,
}

/// `n` zero bytes.
pub open spec fn zeros(n: int) -> Seq<u8> {
    Seq::new(n as nat, |i: int| 0u8)
}

/// The first empty slot, or the number of slots when none is empty.
pub open spec fn first_empty(slots: Seq<Option<Seq<u8>>>) -> int
    decreases slots.len(),
{
    if slots.len() == 0 {
        0
    } else if slots[0] is None {
        0
    } else {
        1 + first_empty(slots.drop_first())
    }
}

/// How many slots hold an allocation.
pub open spec fn live_count(slots: Seq<Option<Seq<u8>>>) -> int
    decreases slots.len(),
{
    if slots.len() == 0 {
        0
    } else {
        live_count(slots.drop_last()) + if slots.last() is Some { 1int } else { 0int }
    }
}

/// How many bytes the slots' allocations hold.
pub open spec fn live_total(slots: Seq<Option<Seq<u8>>>) -> int
    decreases slots.len(),
{
    if slots.len() == 0 {
        0
    } else {
        live_total(slots.drop_last()) + match slots.last() {
            Some(b) => b.len() as int,
            None => 0int,
        }
    }
}

proof fn lemma_first_empty(slots: Seq<Option<Seq<u8>>>)
    ensures
        0 <= first_empty(slots) <= slots.len(),
        forall|k: int| 0 <= k < first_empty(slots) ==> slots[k] is Some,
        first_empty(slots) < slots.len() ==> slots[first_empty(slots)] is None,
    decreases slots.len(),
{
    if slots.len() > 0 && slots[0] is Some {
        lemma_first_empty(slots.drop_first());
        assert forall|k: int| 0 <= k < first_empty(slots) implies slots[k] is Some by {
            if k > 0 {
                assert(slots[k] == slots.drop_first()[k - 1]);
            }
        }
    }
}

proof fn lemma_first_empty_at(slots: Seq<Option<Seq<u8>>>, i: int)
    requires
        0 <= i <= slots.len(),
        forall|k: int| 0 <= k < i ==> slots[k] is Some,
        i < slots.len() ==> slots[i] is None,
    ensures
        first_empty(slots) == i,
    decreases slots.len(),
{
    if slots.len() > 0 && i > 0 {
        assert forall|k: int| 0 <= k < i - 1 implies slots.drop_first()[k] is Some by {
            assert(slots.drop_first()[k] == slots[k + 1]);
        }
        lemma_first_empty_at(slots.drop_first(), i - 1);
    }
}

proof fn lemma_live_count_take(slots: Seq<Option<Seq<u8>>>, i: int)
    requires
        0 <= i < slots.len(),
    ensures
        live_count(slots.take(i + 1)) == live_count(slots.take(i)) + if slots[i] is Some { 1int } else { 0int },
{
    assert(slots.take(i + 1).drop_last() =~= slots.take(i));
}

proof fn lemma_live_count_nonneg(slots: Seq<Option<Seq<u8>>>)
    ensures
        0 <= live_count(slots),
    decreases slots.len(),
{
    if slots.len() > 0 {
        lemma_live_count_nonneg(slots.drop_last());
    }
}

proof fn lemma_live_count_update(slots: Seq<Option<Seq<u8>>>, i: int, x: Option<Seq<u8>>)
    requires
        0 <= i < slots.len(),
    ensures
        live_count(slots.update(i, x)) == live_count(slots)
            - (if slots[i] is Some { 1int } else { 0int }) + (if x is Some { 1int } else { 0int }),
    decreases slots.len(),
{
    if i < slots.len() - 1 {
        lemma_live_count_update(slots.drop_last(), i, x);
        assert(slots.update(i, x).drop_last() =~= slots.drop_last().update(i, x));
    } else {
        assert(slots.update(i, x).drop_last() =~= slots.drop_last());
    }
}

proof fn lemma_live_total_update(slots: Seq<Option<Seq<u8>>>, i: int, x: Option<Seq<u8>>)
    requires
        0 <= i < slots.len(),
    ensures
        live_total(slots.update(i, x)) == live_total(slots)
            - (match slots[i] { Some(b) => b.len() as int, None => 0int })
            + (match x { Some(b) => b.len() as int, None => 0int }),
    decreases slots.len(),
{
    if i < slots.len() - 1 {
        lemma_live_total_update(slots.drop_last(), i, x);
        assert(slots.update(i, x).drop_last() =~= slots.drop_last().update(i, x));
    } else {
        assert(slots.update(i, x).drop_last() =~= slots.drop_last());
    }
}

proof fn lemma_live_total_nonneg(slots: Seq<Option<Seq<u8>>>, i: int)
    requires
        0 <= i < slots.len(),
        slots[i] is Some,
    ensures
        slots[i]->0.len() <= live_total(slots),
        0 <= live_total(slots),
    decreases slots.len(),
{
    if i < slots.len() - 1 {
        lemma_live_total_nonneg(slots.drop_last(), i);
    } else {
        lemma_live_total_floor(slots.drop_last());
    }
}

proof fn lemma_live_total_floor(slots: Seq<Option<Seq<u8>>>)
    ensures
        0 <= live_total(slots),
    decreases slots.len(),
{
    if slots.len() > 0 {
        lemma_live_total_floor(slots.drop_last());
    }
}

/// The `heap_3` scheme: the platform's allocator, with handles and the
/// refusals of a double or stale free.
pub struct Heap3 {
    slots: Vec<Option<Vec<u8>>>,
    generations: Vec<u32>,
    next_generation: u32,
    allocations: usize,
    frees: usize,
    live_bytes: usize,
    refusals: Refusals,
}

impl View for Heap3 {
    type V = Heap3State;

    closed spec fn view(&self) -> Heap3State {
        Heap3State {
            slots: self.slots@.map_values(|e: Option<Vec<u8>>| match e {
                Some(b) => Some(b@),
                None => None,
            }),
            generations: self.generations@,
            next_generation: self.next_generation as int,
            allocations: self.allocations as int,
            frees: self.frees as int,
            live_bytes: self.live_bytes as int,
        }
    }
}

/// `a + b`, saturating at `usize::MAX`.
pub open spec fn sat_add(a: int, b: int) -> int {
    if a + b > usize::MAX { usize::MAX as int } else { a + b }
}

/// `a - b`, saturating at zero.
pub open spec fn sat_sub(a: int, b: int) -> int {
    if a - b < 0 { 0 } else { a - b }
}

impl Heap3 {
    /// One generation per slot; and until the generations wrap, the next
    /// generation is one past the allocations made, every slot's generation
    /// at most that many.
    pub closed spec fn wf(&self) -> bool {
        &&& self.slots@.len() == self.generations@.len()
        &&& self.allocations + 1 < 0x1_0000_0000 ==> {
            &&& self.next_generation == self.allocations + 1
            &&& forall|k: int| 0 <= k < self.generations@.len() ==> #[trigger] self.generations@[k] <= self.allocations
        }
    }

    /// The state once `bytes` are stored in the first empty slot (a new slot
    /// at the end when none is empty) under the next generation.
    pub open spec fn placed(old: Heap3State, bytes: Seq<u8>) -> Heap3State {
        let k = first_empty(old.slots);
        let g = old.next_generation as u32;
        Heap3State {
            slots: if k < old.slots.len() { old.slots.update(k, Some(bytes)) } else { old.slots.push(Some(bytes)) },
            generations: if k < old.slots.len() { old.generations.update(k, g) } else { old.generations.push(g) },
            next_generation: (old.next_generation + 1) % 0x1_0000_0000,
            allocations: sat_add(old.allocations, 1),
            live_bytes: sat_add(old.live_bytes, bytes.len() as int),
            ..old
        }
    }

    /// The outcome storing `bytes` owes. With an empty slot there is no
    /// allocation to make and the bytes are placed; otherwise the slot table
    /// has to grow, which the allocator may refuse, and then nothing changes.
    /// The handle names the slot and the generation, unless the slot's index
    /// does not fit the handle's 32 bits.
    pub open spec fn place_spec(old: Heap3State, bytes: Seq<u8>, new: Heap3State, r: Option<Handle>) -> bool {
        let k = first_empty(old.slots);
        let placed = Self::placed(old, bytes);
        &&& k < old.slots.len() ==> new == placed
        &&& new == placed || (new == old && r is None)
        &&& new == placed ==> (r is Some <==> k <= u32::MAX)
        &&& r matches Some(h) ==> h@ == (k as u32, old.next_generation as u32)
    }

    /// The outcome `pvPortMalloc` owes: `None` for a zero request; otherwise
    /// `wanted` zero bytes stored as [`Heap3::place`] stores them, unless the
    /// allocator refused them, when nothing changes.
    pub open spec fn alloc_spec(old: Heap3State, wanted: usize, new: Heap3State, r: Option<Handle>) -> bool {
        if wanted == 0 {
            r is None && new == old
        } else {
            (r is None && new == old) || Self::place_spec(old, zeros(wanted as int), new, r)
        }
    }

    /// Whether a handle names a live allocation: its slot exists, is on the
    /// handle's generation, and holds bytes.
    pub open spec fn names_live(s: Heap3State, h: (u32, u32)) -> bool {
        &&& h.0 < s.generations.len()
        &&& s.generations[h.0 as int] == h.1
        &&& h.0 < s.slots.len()
        &&& s.slots[h.0 as int] is Some
    }

    /// The outcome `vPortFree` owes: `Gone` for a handle that names no live
    /// allocation, changing nothing; otherwise the slot emptied and counted.
    pub open spec fn free_spec(old: Heap3State, h: (u32, u32), new: Heap3State, r: Result<(), Error>) -> bool {
        let k = h.0 as int;
        if !Self::names_live(old, h) {
            r == Err::<(), Error>(Error::Gone) && new == old
        } else {
            &&& r == Ok::<(), Error>(())
            &&& new == (Heap3State {
                slots: old.slots.update(k, None),
                live_bytes: sat_sub(old.live_bytes, old.slots[k]->0.len() as int),
                frees: sat_add(old.frees, 1),
                ..old
            })
        }
    }

    /// A heap over the global allocator.
    pub fn new() -> (h: Self)
        ensures
            h.wf(),
            h@ == (Heap3State {
                slots: Seq::empty(),
                generations: Seq::empty(),
                next_generation: 1,
                allocations: 0,
                frees: 0,
                live_bytes: 0,
            }),
            h.refused() == (0nat, None::<(nat, nat)>),
    {
        let h = Heap3 {
            slots: Vec::new(),
            generations: Vec::new(),
            next_generation: 1,
            allocations: 0,
            frees: 0,
            live_bytes: 0,
            refusals: Refusals::new(),
        };
        proof {
            assert(h@.slots =~= Seq::<Option<Seq<u8>>>::empty());
        }
        h
    }

    /// `wanted` zero bytes from the global allocator, or its refusal of
    /// exactly `wanted` bytes.
    fn zeroed(wanted: usize) -> (r: Result<Vec<u8>, Refusal>)
        ensures
            r matches Ok(b) ==> b@ == zeros(wanted as int),
            r matches Err(t) ==> t@ == (0nat, wanted as nat),
    {
        let mut bytes: Vec<u8> = Vec::new();
        // An allocation failure is `None`, as `malloc` returns NULL, and not
        // a panic.
        match try_reserve_exact(&mut bytes, wanted) {
            Ok(()) => {},
            Err(refusal) => return Err(refusal),
        }
        bytes.resize(wanted, 0);
        proof {
            assert(bytes@ =~= zeros(wanted as int));
        }
        Ok(bytes)
    }

    /// How many items a full table of `len` asks room for: one more slot,
    /// doubling the table so that growing it stays cheap.
    pub open spec fn growth(len: nat) -> nat {
        if len == 0 { 1 } else { len }
    }

    /// The allocator's refusals this heap has met: how many, and the last as
    /// (items held, items asked for).
    pub closed spec fn refused(&self) -> (nat, Option<(nat, nat)>) {
        self.refusals@
    }

    /// The first empty slot, or the number of slots.
    fn first_empty_slot(&self) -> (r: usize)
        ensures
            r == first_empty(self@.slots),
    {
        let ghost s = self@.slots;
        let mut i: usize = 0;
        while i < self.slots.len()
            invariant
                s == self@.slots,
                0 <= i <= s.len(),
                forall|k: int| 0 <= k < i ==> s[k] is Some,
            decreases s.len() - i,
        {
            if self.slots[i].is_none() {
                proof {
                    lemma_first_empty_at(s, i as int);
                }
                return i;
            }
            i = i + 1;
        }
        proof {
            lemma_first_empty_at(s, i as int);
        }
        i
    }

    /// Store allocated `bytes` in the first empty slot, growing the slot
    /// table when none is empty, under the next generation.
    pub fn place(&mut self, bytes: Vec<u8>) -> (r: Option<Handle>)
        requires
            old(self).wf(),
        ensures
            final(self).wf(),
            Self::place_spec(old(self)@, bytes@, final(self)@, r),
            r is None && final(self)@ == old(self)@ ==> final(self).refused() == (
                old(self).refused().0 + 1,
                Some((old(self)@.slots.len(), Self::growth(old(self)@.slots.len()))),
            ),
            !(r is None && final(self)@ == old(self)@) ==> final(self).refused() == old(self).refused(),
    {
        let ghost old_view = self@;
        let ghost b = bytes@;
        proof {
            lemma_first_empty(old_view.slots);
        }
        let slot = self.first_empty_slot();
        if slot == self.slots.len() {
            let grow = if slot == 0 { 1 } else { slot };
            match try_reserve_exact(&mut self.slots, grow) {
                Ok(()) => {},
                Err(refusal) => {
                    self.refusals.record(refusal);
                    proof {
                        assert(self@.slots =~= old_view.slots);
                    }
                    return None;
                },
            }
            match try_reserve_exact(&mut self.generations, grow) {
                Ok(()) => {},
                Err(refusal) => {
                    self.refusals.record(refusal);
                    proof {
                        assert(self@.slots =~= old_view.slots);
                    }
                    return None;
                },
            }
            self.slots.push(None);
            self.generations.push(0);
        }
        let generation = self.next_generation;
        self.next_generation = self.next_generation.wrapping_add(1);
        let wanted = bytes.len();
        self.slots.set(slot, Some(bytes));
        self.generations.set(slot, generation);
        self.allocations = self.allocations.saturating_add(1);
        self.live_bytes = self.live_bytes.saturating_add(wanted);
        proof {
            let k = slot as int;
            if k < old_view.slots.len() {
                assert(self@.slots =~= old_view.slots.update(k, Some(b)));
            } else {
                assert(self@.slots =~= old_view.slots.push(Some(b)));
                assert(self@.generations =~= old_view.generations.push(generation));
            }
            assert(self@ == Self::placed(old_view, b));
        }
        if slot > u32::MAX as usize {
            return None;
        }
        Some(Handle { slot: slot as u32, generation })
    }

    /// `pvPortMalloc`: `wanted` zero bytes from the global allocator, in a
    /// slot of their own. `None` is `pvPortMalloc`'s `NULL`: a zero request, or the
    /// allocator refused.
    pub fn allocate(&mut self, wanted: usize) -> (r: Option<Handle>)
        requires
            old(self).wf(),
        ensures
            final(self).wf(),
            Self::alloc_spec(old(self)@, wanted, final(self)@, r),
            r is Some || wanted == 0 ==> final(self).refused() == old(self).refused(),
            wanted > 0 && r is None && final(self)@ == old(self)@ ==> final(self).refused().0
                == old(self).refused().0 + 1 && (final(self).refused().1 == Some((0nat, wanted as nat))
                || final(self).refused().1 == Some((old(self)@.slots.len(), Self::growth(old(self)@.slots.len())))),
    {
        if wanted == 0 {
            return None;
        }
        match Self::zeroed(wanted) {
            Err(refusal) => {
                self.refusals.record(refusal);
                None
            },
            Ok(bytes) => self.place(bytes),
        }
    }

    /// The slot a handle names, when it names a live allocation.
    fn live_slot(&self, handle: Handle) -> (r: Option<usize>)
        requires
            self.wf(),
        ensures
            r is Some <==> Self::names_live(self@, handle@),
            r matches Some(k) ==> k == handle@.0,
    {
        let slot = handle.slot as usize;
        if slot >= self.generations.len() || self.generations[slot] != handle.generation {
            return None;
        }
        if self.slots[slot].is_none() {
            return None;
        }
        Some(slot)
    }

    /// `vPortFree`. `Gone` for a handle whose slot is empty (a double free)
    /// or on another generation (a free of a slot handed out again since).
    pub fn free(&mut self, handle: Handle) -> (r: Result<(), Error>)
        requires
            old(self).wf(),
        ensures
            final(self).wf(),
            Self::free_spec(old(self)@, handle@, final(self)@, r),
            final(self).refused() == old(self).refused(),
    {
        let slot = match self.live_slot(handle) {
            Some(slot) => slot,
            None => return Err(Error::Gone),
        };
        let ghost old_view = self@;
        let len = match &self.slots[slot] {
            Some(bytes) => bytes.len(),
            None => 0,
        };
        self.slots.set(slot, None);
        self.live_bytes = self.live_bytes.saturating_sub(len);
        self.frees = self.frees.saturating_add(1);
        proof {
            assert(self@.slots =~= old_view.slots.update(slot as int, None));
        }
        Ok(())
    }

    /// The bytes of an allocation, to read and write; `Gone` as
    /// [`Heap3::free`].
    pub fn bytes_mut(&mut self, handle: Handle) -> (r: Result<&mut [u8], Error>)
        requires
            old(self).wf(),
        ensures
            !Self::names_live(old(self)@, handle@) ==> r == Err::<&mut [u8], Error>(Error::Gone) && final(self)@ == old(self)@,
            Self::names_live(old(self)@, handle@) ==> (r matches Ok(b)
                && b@ == old(self)@.slots[handle@.0 as int]->0
                && final(self)@.slots == old(self)@.slots.update(handle@.0 as int, Some(final(b)@))),
            final(self)@.generations == old(self)@.generations,
            final(self)@.next_generation == old(self)@.next_generation,
            final(self)@.allocations == old(self)@.allocations,
            final(self)@.frees == old(self)@.frees,
            final(self)@.live_bytes == old(self)@.live_bytes,
            final(self).wf(),
            final(self).refused() == old(self).refused(),
    {
        let slot = match self.live_slot(handle) {
            Some(slot) => slot,
            None => return Err(Error::Gone),
        };
        match &mut self.slots[slot] {
            Some(bytes) => Ok(bytes.as_mut_slice()),
            None => Err(Error::Gone),
        }
    }

    /// `xPortGetFreeHeapSize`, which this scheme cannot answer: the platform's
    /// allocator does not publish how much it has left. Always `Unsupported`.
    pub fn free_bytes(&self) -> (r: Result<usize, Error>)
        ensures
            r == Err::<usize, Error>(Error::Unsupported),
    {
        Err(Error::Unsupported)
    }

    /// How many bytes are live, by the count kept as allocations come and go.
    pub fn live_bytes(&self) -> (r: usize)
        ensures
            r == self@.live_bytes,
    {
        self.live_bytes
    }

    /// How many allocations succeeded.
    pub fn allocations(&self) -> (r: usize)
        ensures
            r == self@.allocations,
    {
        self.allocations
    }

    /// How many frees succeeded.
    pub fn frees(&self) -> (r: usize)
        ensures
            r == self@.frees,
    {
        self.frees
    }

    /// How many slots hold an allocation right now.
    pub fn live_allocations(&self) -> (r: usize)
        ensures
            r == live_count(self@.slots),
    {
        let ghost s = self@.slots;
        let mut count: usize = 0;
        let mut i: usize = 0;
        proof {
            assert(s.take(0) =~= Seq::<Option<Seq<u8>>>::empty());
        }
        while i < self.slots.len()
            invariant
                s == self@.slots,
                0 <= i <= s.len(),
                count == live_count(s.take(i as int)),
                count <= i,
            decreases s.len() - i,
        {
            proof {
                lemma_live_count_take(s, i as int);
            }
            if self.slots[i].is_some() {
                count = count + 1;
            }
            i = i + 1;
        }
        proof {
            assert(s.take(s.len() as int) =~= s);
        }
        count
    }
}


impl Heap3 {
    /// A handle freed once cannot be freed again: the second free is `Gone`
    /// and changes nothing.
    pub proof fn lemma_double_free_refused(s0: Heap3State, h: (u32, u32), s1: Heap3State, s2: Heap3State, r: Result<(), Error>)
        requires
            Self::free_spec(s0, h, s1, Ok(())),
            Self::free_spec(s1, h, s2, r),
        ensures
            r == Err::<(), Error>(Error::Gone),
            s2 == s1,
    {
    }

    /// A freed slot is the first one an allocation reuses: no slot is added
    /// while one is empty.
    pub proof fn lemma_freed_slot_is_reused(h: Self, a: Handle, s1: Heap3State, w: usize, s2: Heap3State, b: Handle)
        requires
            h.wf(),
            Self::free_spec(h@, a@, s1, Ok(())),
            forall|k: int| 0 <= k < a@.0 ==> #[trigger] h@.slots[k] is Some,
            Self::alloc_spec(s1, w, s2, Some(b)),
        ensures
            b@.0 == a@.0,
            s2.slots.len() == h@.slots.len(),
    {
        lemma_first_empty_at(s1.slots, a@.0 as int);
    }

    /// A stale handle cannot free the allocation that reused its slot: the
    /// new allocation carries another generation, and the old handle names
    /// nothing live. Holds until the generations wrap, after 2^32 - 1
    /// allocations.
    pub proof fn lemma_stale_handle_refused(h: Self, a: Handle, s1: Heap3State, w: usize, s2: Heap3State, b: Handle)
        requires
            h.wf(),
            h@.allocations + 1 < 0x1_0000_0000,
            Self::free_spec(h@, a@, s1, Ok(())),
            Self::alloc_spec(s1, w, s2, Some(b)),
            b@.0 == a@.0,
        ensures
            b@.1 != a@.1,
            !Self::names_live(s2, a@),
    {
        assert(h.generations@[a@.0 as int] <= h.allocations);
        lemma_first_empty(s1.slots);
        assert(first_empty(s1.slots) == a@.0);
    }

    /// An allocation's generation is one no slot is on before it: until the
    /// generations wrap, after 2^32 - 1 allocations, a handle never names an
    /// earlier allocation.
    pub proof fn lemma_fresh_generation(h: Self, w: usize, s1: Heap3State, b: Handle)
        requires
            h.wf(),
            h@.allocations + 1 < 0x1_0000_0000,
            Self::alloc_spec(h@, w, s1, Some(b)),
        ensures
            b@.1 == h@.allocations + 1,
            forall|k: int| 0 <= k < h@.generations.len() ==> #[trigger] h@.generations[k] != b@.1,
    {
    }

    /// Successful allocations less successful frees is how many slots hold
    /// an allocation, and every allocation and free keeps it so, while the
    /// allocation count has not saturated.
    pub proof fn lemma_live_count_track(
        h: Self,
        w: usize,
        s1: Heap3State,
        r1: Option<Handle>,
        hd: (u32, u32),
        s2: Heap3State,
        r2: Result<(), Error>,
    )
        requires
            h.wf(),
            h@.allocations + 1 < usize::MAX,
            h@.allocations - h@.frees == live_count(h@.slots),
        ensures
            Self::alloc_spec(h@, w, s1, r1) ==> s1.allocations - s1.frees == live_count(s1.slots),
            Self::free_spec(h@, hd, s2, r2) ==> s2.allocations - s2.frees == live_count(s2.slots),
    {
        if Self::alloc_spec(h@, w, s1, r1) && s1 != h@ {
            let k = first_empty(h@.slots);
            lemma_first_empty(h@.slots);
            let bytes = zeros(w as int);
            if k < h@.slots.len() {
                lemma_live_count_update(h@.slots, k, Some(bytes));
            } else {
                assert(h@.slots.push(Some(bytes)).drop_last() =~= h@.slots);
            }
        }
        if Self::free_spec(h@, hd, s2, r2) && r2 is Ok {
            lemma_live_count_update(h@.slots, hd.0 as int, None);
            lemma_live_count_nonneg(h@.slots.update(hd.0 as int, None));
        }
    }

    /// The live-byte count keeps tracking the bytes the slots hold, through
    /// an allocation or a free, while it fits in a `usize`.
    pub proof fn lemma_live_bytes_track(s0: Heap3State, s1: Heap3State)
        requires
            s0.live_bytes == live_total(s0.slots),
            live_total(s1.slots) <= usize::MAX,
            live_total(s0.slots) <= usize::MAX,
            s0.live_bytes >= 0,
            (exists|h: (u32, u32)| Self::free_spec(s0, h, s1, Ok(())))
                || (exists|w: usize, r: Option<Handle>| #[trigger] Self::alloc_spec(s0, w, s1, r)),
        ensures
            s1.live_bytes == live_total(s1.slots),
    {
        if exists|h: (u32, u32)| Self::free_spec(s0, h, s1, Ok(())) {
            let h = choose|h: (u32, u32)| Self::free_spec(s0, h, s1, Ok(()));
            lemma_live_total_update(s0.slots, h.0 as int, None);
            lemma_live_total_nonneg(s0.slots, h.0 as int);
        } else {
            let (w, r) = choose|w: usize, r: Option<Handle>| #[trigger] Self::alloc_spec(s0, w, s1, r);
            if s1 != s0 {
                let k = first_empty(s0.slots);
                lemma_first_empty(s0.slots);
                let bytes = zeros(w as int);
                if k < s0.slots.len() {
                    lemma_live_total_update(s0.slots, k, Some(bytes));
                } else {
                    assert(s0.slots.push(Some(bytes)).drop_last() =~= s0.slots);
                }
            }
        }
    }
}

} // verus!
