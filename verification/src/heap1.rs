//! FreeRTOS's `heap_1` scheme over an `N`-byte arena: allocate, never free.
//!
//! A bump index, no headers, no free list. Three of its rules are the
//! scheme's own: the alignment is applied to the REQUEST before the bump; the
//! bound is STRICTLY less than; and the usable arena is `N - ALIGN`
//! (`configADJUSTED_HEAP_SIZE`), the allowance for aligning an arena's start
//! at run time, refused on whether or not it is needed.
use vstd::prelude::*;
use crate::error::Error;

verus! {

/// The `heap_1` scheme over an `N`-byte arena, `ALIGN` being `portBYTE_ALIGNMENT`.
pub struct Heap1<const N: usize, const ALIGN: usize> {
    store: [u8; N],
    next_free: usize,
    allocations: usize,
}

/// The abstract state of a [`Heap1`]: where the next allocation starts, and
/// how many succeeded.
pub ghost struct Heap1State {
    /// `xNextFreeByte`.
    pub next_free: int,
    /// Successful allocations, saturating.
    pub allocations: int,
}

impl<const N: usize, const ALIGN: usize> View for Heap1<N, ALIGN> {
    type V = Heap1State;

    closed spec fn view(&self) -> Heap1State {
        Heap1State { next_free: self.next_free as int, allocations: self.allocations as int }
    }
}

impl<const N: usize, const ALIGN: usize> Heap1<N, ALIGN> {
    /// `configADJUSTED_HEAP_SIZE`: the arena less one alignment, saturating.
    pub open spec fn adjusted() -> int {
        if N >= ALIGN { N - ALIGN } else { 0 }
    }

    /// A request rounded up to the alignment, or 0 when rounding would
    /// overflow (`heapADD_WILL_OVERFLOW`).
    pub open spec fn rounded(wanted: usize) -> int {
        if ALIGN == 0 || wanted % ALIGN == 0 {
            wanted as int
        } else if wanted + (ALIGN - wanted % ALIGN) > usize::MAX {
            0
        } else {
            wanted + (ALIGN - wanted % ALIGN)
        }
    }

    /// The outcome `pvPortMalloc` owes: the next free byte, bumped by the
    /// rounded request, when that request is not zero and stays STRICTLY
    /// below the adjusted size; otherwise `None` and nothing changes.
    pub open spec fn alloc_spec(old: Heap1State, wanted: usize, new: Heap1State, r: Option<u64>) -> bool {
        let w = Self::rounded(wanted);
        if w == 0 || old.next_free + w >= Self::adjusted() {
            r is None && new == old
        } else {
            &&& r == Some(old.next_free as u64)
            &&& new == (Heap1State {
                next_free: old.next_free + w,
                allocations: if old.allocations + 1 > usize::MAX { usize::MAX as int } else { old.allocations + 1 },
            })
        }
    }

    /// The bump index never passes the adjusted size, and sits on the
    /// alignment.
    pub closed spec fn wf(&self) -> bool {
        &&& self.next_free <= Self::adjusted()
        &&& ALIGN > 0 ==> self.next_free % ALIGN == 0
    }

    /// The arena's bytes.
    pub closed spec fn arena(&self) -> Seq<u8> {
        self.store@
    }

    /// `configADJUSTED_HEAP_SIZE`.
    pub fn adjusted_size() -> (r: usize)
        ensures
            r == Self::adjusted(),
    {
        N.saturating_sub(ALIGN)
    }

    /// An empty arena.
    pub fn new() -> (h: Self)
        ensures
            h.wf(),
            h@ == (Heap1State { next_free: 0, allocations: 0 }),
    {
        proof {
            if ALIGN > 0 {
                vstd::arithmetic::div_mod::lemma_small_mod(0, ALIGN as nat);
            }
        }
        Heap1 { store: [0u8; N], next_free: 0, allocations: 0 }
    }

    /// `pvPortMalloc`, answering with an offset into the arena; `None` is its
    /// `NULL`.
    pub fn allocate(&mut self, wanted: usize) -> (r: Option<u64>)
        requires
            old(self).wf(),
        ensures
            final(self).wf(),
            Self::alloc_spec(old(self)@, wanted, final(self)@, r),
            final(self).arena() == old(self).arena(),
            r matches Some(o) ==> ALIGN > 0 ==> o % (ALIGN as u64) == 0,
            r is Some ==> wanted <= final(self)@.next_free - old(self)@.next_free,
            r is Some ==> ALIGN > 0 ==> (final(self)@.next_free - old(self)@.next_free) % (ALIGN as int) == 0
                && final(self)@.next_free - old(self)@.next_free < wanted + ALIGN,
            r is Some ==> ALIGN == 0 ==> final(self)@.next_free - old(self)@.next_free == wanted,
    {
        proof {
            Self::lemma_rounding(wanted);
        }
        // The REQUEST is rounded up, before the room left is looked at; a
        // rounding that would wrap sets the size to zero, which is refused.
        let wanted = match wanted.checked_rem(ALIGN) {
            None => wanted,
            Some(0) => wanted,
            Some(remainder) => match wanted.checked_add(ALIGN.saturating_sub(remainder)) {
                Some(rounded) => rounded,
                None => 0,
            },
        };
        // `( xWantedSize > 0 ) && ( next + wanted < ADJUSTED )`: STRICTLY less.
        if wanted == 0 {
            return None;
        }
        let end = match self.next_free.checked_add(wanted) {
            Some(end) => end,
            None => return None,
        };
        if end >= Self::adjusted_size() {
            return None;
        }
        let offset = self.next_free;
        proof {
            if ALIGN > 0 {
                vstd::arithmetic::div_mod::lemma_mod_adds(offset as int, wanted as int, ALIGN as int);
                vstd::arithmetic::div_mod::lemma_small_mod(0, ALIGN as nat);
            }
        }
        self.next_free = end;
        self.allocations = self.allocations.saturating_add(1);
        Some(offset as u64)
    }

    /// `vPortFree`, which in this scheme is invalid to call: it asserts
    /// `pv == NULL`. Always `Unsupported`, and nothing changes.
    pub fn free(&mut self, offset: u64) -> (r: Result<(), Error>)
        ensures
            r == Err::<(), Error>(Error::Unsupported),
            final(self)@ == old(self)@,
            final(self).wf() == old(self).wf(),
            final(self).arena() == old(self).arena(),
    {
        Err(Error::Unsupported)
    }

    /// `xPortGetFreeHeapSize`.
    pub fn free_bytes(&self) -> (r: usize)
        requires
            self.wf(),
        ensures
            r == Self::adjusted() - self@.next_free,
    {
        Self::adjusted_size().saturating_sub(self.next_free)
    }

    /// `xNextFreeByte`.
    pub fn next_free_byte(&self) -> (r: usize)
        ensures
            r == self@.next_free,
    {
        self.next_free
    }

    /// How many allocations succeeded.
    pub fn allocations(&self) -> (r: usize)
        ensures
            r == self@.allocations,
    {
        self.allocations
    }

    /// The bytes `offset..offset + len` of the arena, for a caller that wants
    /// to use an allocation. `InvalidArgument` when the range is not inside
    /// the arena.
    pub fn bytes_mut(&mut self, offset: u64, len: usize) -> (r: Result<&mut [u8], Error>)
        ensures
            offset + len > N ==> r == Err::<&mut [u8], Error>(Error::InvalidArgument),
            offset + len > N ==> final(self).arena() == old(self).arena(),
            offset + len <= N ==> (r matches Ok(b) && b@.len() == len && b@ == old(self).arena().subrange(offset as int, offset + len)
                && final(self).arena() == old(self).arena().subrange(0, offset as int) + final(b)@
                    + old(self).arena().subrange(offset + len, N as int)),
            final(self)@ == old(self)@,
            final(self).wf() == old(self).wf(),
    {
        if offset > N as u64 {
            return Err(Error::InvalidArgument);
        }
        let at = offset as usize;
        let end = match at.checked_add(len) {
            Some(end) => end,
            None => return Err(Error::InvalidArgument),
        };
        if end > N {
            return Err(Error::InvalidArgument);
        }
        let whole: &mut [u8] = &mut self.store;
        let (_, rest) = whole.split_at_mut(at);
        let (bytes, _) = rest.split_at_mut(len);
        Ok(bytes)
    }

    /// The index into the arena of an offset, when the offset is inside it:
    /// the bounds check a binding that hands out addresses makes.
    pub fn index_of(offset: u64) -> (r: Option<usize>)
        ensures
            r == (if offset < N { Some(offset as usize) } else { None::<usize> }),
    {
        if offset < N as u64 {
            Some(offset as usize)
        } else {
            None
        }
    }

    /// The arena's bytes, to read and write.
    pub fn arena_mut(&mut self) -> (r: &mut [u8; N])
        ensures
            r@ == old(self).arena(),
            final(self).arena() == final(r)@,
            final(self)@ == old(self)@,
            final(self).wf() == old(self).wf(),
    {
        &mut self.store
    }

    /// A request is rounded up to the least multiple of the alignment that
    /// holds it: a multiple of `ALIGN`, at least the request and less than
    /// one alignment above it. It is refused (0) only when it is 0 or the
    /// rounding overflows. With no alignment it is the request itself.
    pub proof fn lemma_rounding(wanted: usize)
        ensures
            ALIGN > 0 && Self::rounded(wanted) != 0 ==> Self::rounded(wanted) % (ALIGN as int) == 0
                && wanted <= Self::rounded(wanted) < wanted + ALIGN,
            ALIGN > 0 && wanted > 0 && wanted + ALIGN - 1 <= usize::MAX ==> Self::rounded(wanted) != 0,
            ALIGN == 0 ==> Self::rounded(wanted) == wanted,
    {
        if ALIGN > 0 {
            let a = ALIGN as int;
            let w = wanted as int;
            vstd::arithmetic::div_mod::lemma_fundamental_div_mod(w, a);
            let q = w / a;
            let r = w % a;
            if r != 0 {
                assert(w + (a - r) == a * (q + 1)) by (nonlinear_arith)
                    requires w == a * q + r;
                vstd::arithmetic::div_mod::lemma_mod_multiples_basic(q + 1, a);
            }
        }
    }

    /// The bytes handed out and the bytes left make up the adjusted arena.
    pub proof fn lemma_bytes_balance(h: Self)
        requires
            h.wf(),
        ensures
            0 <= h@.next_free <= Self::adjusted(),
            Self::adjusted() == if N >= ALIGN { N - ALIGN } else { 0 },
    {
    }

    /// Allocations are laid end to end: each starts where the one before it
    /// ended, its rounded request later, so no two overlap and none moves back.
    pub proof fn lemma_bump(h: Self, w1: usize, s1: Heap1State, o1: u64, w2: usize, s2: Heap1State, o2: u64)
        requires
            h.wf(),
            Self::alloc_spec(h@, w1, s1, Some(o1)),
            Self::alloc_spec(s1, w2, s2, Some(o2)),
        ensures
            o2 == o1 + Self::rounded(w1),
            Self::rounded(w1) > 0,
            o1 < o2,
    {
    }
}

impl<const N: usize, const ALIGN: usize> Default for Heap1<N, ALIGN> {
    /// An empty arena, as [`Heap1::new`].
    fn default() -> (h: Self)
        ensures
            h.wf(),
            h@ == (Heap1State { next_free: 0, allocations: 0 }),
    {
        Self::new()
    }
}

} // verus!
