//! FreeRTOS's `heap_4` scheme: address-ordered first fit with coalescing,
//! over a byte arena, with each block's header stored inside the arena at the
//! block's own offset and every link an offset into it.
use vstd::prelude::*;
use crate::align::{align_down, align_up, align_up_exec, good_align, lemma_align_down, lemma_align_up};
use crate::error::Error;
use crate::tally::{allocated, lemma_allocated_empty, lemma_allocated_insert, lemma_allocated_remove, span_total};
use crate::free_list::{
    apart, blocks, first_fit, in_order, insert_block, largest, lemma_apart_insert, lemma_apart_taken,
    lemma_blocks_take, lemma_first_fit, lemma_first_fit_at, lemma_largest_take,
    lemma_position, lemma_position_at, lemma_total_insert, lemma_total_nonneg, lemma_total_remove,
    lemma_total_update, position, total,
};
use crate::words::{
    flagged, lemma_byte_of, lemma_flag_bits, lemma_put_word, lemma_word_bytes, put_word, word, word_of,
    ALLOCATED_BIT, NONE,
};

verus! {

/// What [`Heap4::allocate`] answers with: where the user bytes start, and which
/// allocation it was.
#[derive(Debug, Clone, Copy, PartialEq, Eq, Structural)]
pub struct Block {
    offset: u32,
    generation: u32,
}

impl View for Block {
    type V = (u32, u32);

    closed spec fn view(&self) -> (u32, u32) {
        (self.offset, self.generation)
    }
}

impl Block {
    /// The user offset into the arena.
    pub fn offset(self) -> (r: u64)
        ensures
            r == self@.0,
    {
        self.offset as u64
    }

    /// Which allocation this was.
    pub fn generation(self) -> (r: u32)
        ensures
            r == self@.1,
    {
        self.generation
    }
}

/// One region of a `heap_5` heap: where it starts in the arena, and how big.
#[derive(Debug, Clone, Copy, PartialEq, Eq, Structural)]
pub struct Region {
    /// Where the region starts, as an offset into the arena.
    pub start: usize,
    /// How many bytes it covers.
    pub size: usize,
}

impl Region {
    /// A region at `start` covering `size` bytes.
    pub fn new(start: usize, size: usize) -> (r: Self)
        ensures
            r.start == start,
            r.size == size,
    {
        Region { start, size }
    }
}

/// The abstract state of a [`Heap4`].
pub ghost struct HeapState {
    /// Whether the arena has been laid out.
    pub initialised: bool,
    /// The offset of the last end marker.
    pub end: int,
    /// Each region as (first block, end marker).
    pub regions: Seq<(int, int)>,
    /// The free list in address order, as (block offset, size); end markers
    /// between regions are nodes of size 0.
    pub free_list: Seq<(int, int)>,
    /// The allocated blocks: block offset to (size, generation).
    pub live: Map<int, (int, int)>,
    /// `xFreeBytesRemaining`.
    pub free_bytes: int,
    /// `xMinimumEverFreeBytesRemaining`.
    pub minimum_ever_free: int,
    /// Successful allocations, saturating.
    pub allocations: int,
    /// Successful frees, saturating.
    pub frees: int,
    /// The generation the next block is handed out under.
    pub next_generation: int,
}

/// The bytes a node's header and payload claim: at least the two header words.
pub open spec fn claim(n: (int, int)) -> int {
    if n.1 < 16 { 16 } else { n.1 }
}

/// A block of `len` bytes at `at` lies in the regions and crosses no gap.
#[verifier::opaque]
pub open spec fn inside(regions: Seq<(int, int)>, at: int, len: int) -> bool {
    &&& regions.len() > 0
    &&& regions[0].0 <= at
    &&& at + len <= regions.last().1
    &&& forall|r: int| 0 <= r < regions.len() - 1 ==> at + len <= #[trigger] regions[r].1 || at >= regions[r + 1].0
}

/// Part of a block that lies inside the regions lies inside them too.
pub proof fn lemma_inside_part(regions: Seq<(int, int)>, at: int, len: int, part_at: int, part_len: int)
    requires
        inside(regions, at, len),
        at <= part_at,
        part_len >= 0,
        part_at + part_len <= at + len,
    ensures
        inside(regions, part_at, part_len),
{
    reveal(inside);
}

/// Two blocks that meet, each inside the regions, make one that is.
pub proof fn lemma_inside_merge(regions: Seq<(int, int)>, at: int, len: int, more: int)
    requires
        inside(regions, at, len),
        inside(regions, at + len, more),
        len >= 0,
        more >= 0,
        forall|r: int| 0 <= r < regions.len() - 1 ==> #[trigger] regions[r].1 < regions[r + 1].0,
    ensures
        inside(regions, at, len + more),
{
    reveal(inside);
    assert forall|r: int| 0 <= r < regions.len() - 1 implies at + len + more <= #[trigger] regions[r].1 || at >= regions[r + 1].0 by {
        assert(regions[r].1 < regions[r + 1].0);
        assert(at + len <= regions[r].1 || at >= regions[r + 1].0);
        assert(at + len + more <= regions[r].1 || at + len >= regions[r + 1].0);
    }
}

/// The `heap_4` scheme over an `N`-byte arena; laid out with
/// [`Heap4::define_regions`], the `heap_5` scheme over several regions of it.
///
/// * `ALIGN` is `portBYTE_ALIGNMENT`.
/// * `LINK` is `sizeof( BlockLink_t )`.
///
/// Each header is two 64-bit words, little-endian: the next free block (or,
/// while the block is allocated, its generation), then the size with the top
/// bit marking the block as allocated. With `LINK` under 16 bytes the bytes
/// handed out begin inside the header's second word, so writing them breaks
/// the block.
pub struct Heap4<const N: usize, const ALIGN: usize, const LINK: usize> {
    store: [u8; N],
    start_next: u64,
    end: u64,
    free_bytes: usize,
    minimum_ever_free: usize,
    allocations: usize,
    frees: usize,
    initialised: bool,
    next_generation: u32,
    free_list: Ghost<Seq<(int, int)>>,
    live: Ghost<Map<int, (int, int)>>,
    regions: Ghost<Seq<(int, int)>>,
}

impl<const N: usize, const ALIGN: usize, const LINK: usize> View for Heap4<N, ALIGN, LINK> {
    type V = HeapState;

    closed spec fn view(&self) -> HeapState {
        HeapState {
            initialised: self.initialised,
            end: self.end as int,
            regions: self.regions@,
            free_list: self.free_list@,
            live: self.live@,
            free_bytes: self.free_bytes as int,
            minimum_ever_free: self.minimum_ever_free as int,
            allocations: self.allocations as int,
            frees: self.frees as int,
            next_generation: self.next_generation as int,
        }
    }
}

impl<const N: usize, const ALIGN: usize, const LINK: usize> Heap4<N, ALIGN, LINK> {
    /// The parameters this allocator is built for: a power-of-two alignment of
    /// at least a header word, a non-empty link, and an arena smaller than the
    /// allocated flag.
    pub open spec fn geometry() -> bool {
        &&& good_align(ALIGN)
        &&& LINK >= 1
        &&& N < 0x8000_0000_0000_0000
    }

    /// `xHeapStructSize`.
    pub open spec fn header_size() -> int {
        align_up(LINK, ALIGN) as int
    }

    /// `heapMINIMUM_BLOCK_SIZE`: twice the header, saturating.
    pub open spec fn minimum_block() -> int {
        if 2 * Self::header_size() > usize::MAX { usize::MAX as int } else { 2 * Self::header_size() }
    }

    /// The word at byte offset `p` of the arena.
    pub closed spec fn w(&self, p: int) -> u64 {
        word(self.store@, p)
    }

    /// A position that holds a word of the arena.
    pub open spec fn word_slot(q: int) -> bool {
        0 <= q && q % 8 == 0 && q + 8 <= N
    }

    /// The end marker `prvHeapInit` places: the top of the arena less a header,
    /// aligned down.
    pub open spec fn init_end() -> int {
        align_down(if N >= Self::header_size() { (N - Self::header_size()) as usize } else { 0usize }, ALIGN) as int
    }

    #[verifier::opaque]
    spec fn nodes_ok(&self) -> bool {
        let fl = self.free_list@;
        let e = self.end as int;
        forall|i: int| 0 <= i < fl.len() ==> {
            &&& (#[trigger] fl[i]).0 % 8 == 0
            &&& fl[i].0 % (ALIGN as int) == 0
            &&& fl[i].1 % (ALIGN as int) == 0
            &&& 0 <= fl[i].0
            &&& fl[i].0 + 16 <= N
            &&& 0 <= fl[i].1
            &&& fl[i].0 < e
            &&& fl[i].0 + fl[i].1 <= e
            &&& self.w(fl[i].0 + 8) == fl[i].1 as u64
            &&& inside(self.regions@, fl[i].0, fl[i].1)
        }
    }

    #[verifier::opaque]
    spec fn links_ok(&self) -> bool {
        let fl = self.free_list@;
        forall|i: int| 0 <= i < fl.len() ==> #[trigger] self.w(fl[i].0) == (if i + 1 < fl.len() { fl[i + 1].0 } else { self.end as int }) as u64
    }

    #[verifier::opaque]
    spec fn nodes_sorted(&self) -> bool {
        let fl = self.free_list@;
        forall|i: int, j: int| 0 <= i < j < fl.len() ==> (#[trigger] fl[i]).0 + claim(fl[i]) <= (#[trigger] fl[j]).0
    }

    #[verifier::opaque]
    spec fn live_ok(&self) -> bool {
        let lv = self.live@;
        let e = self.end as int;
        forall|a: int| #[trigger] lv.contains_key(a) ==> {
            &&& a % 8 == 0
            &&& a % (ALIGN as int) == 0
            &&& 0 <= a
            &&& lv[a].0 >= 16
            &&& lv[a].0 % (ALIGN as int) == 0
            &&& a + lv[a].0 <= e
            &&& 0 <= lv[a].1 <= u32::MAX
            &&& self.w(a) == lv[a].1 as u64
            &&& self.w(a + 8) == (lv[a].0 + ALLOCATED_BIT) as u64
            &&& inside(self.regions@, a, lv[a].0)
        }
    }

    #[verifier::opaque]
    spec fn disjoint(&self) -> bool {
        let lv = self.live@;
        let fl = self.free_list@;
        &&& forall|a: int, b: int|
            #![trigger lv.contains_key(a), lv.contains_key(b)]
            lv.contains_key(a) && lv.contains_key(b) && a != b ==> a + lv[a].0 <= b || b + lv[b].0 <= a
        &&& forall|a: int, i: int|
            #![trigger lv.contains_key(a), fl[i]]
            lv.contains_key(a) && 0 <= i < fl.len() ==> a + lv[a].0 <= fl[i].0 || fl[i].0 + claim(fl[i]) <= a
    }

    #[verifier::opaque]
    spec fn flags_ok(&self) -> bool {
        forall|q: int|
            Self::word_slot(q) && flagged(#[trigger] self.w(q)) ==> self.live@.contains_key(q - 8) || self.w(q) == NONE
    }

    spec fn regions_ok(&self) -> bool {
        let rg = self.regions@;
        &&& rg.len() > 0
        &&& rg.last().1 == self.end as int
        &&& self.end as int <= N
        &&& self.end as int % 8 == 0
        &&& forall|r: int| 0 <= r < rg.len() - 1 ==> #[trigger] rg[r].1 < rg[r + 1].0
        &&& forall|r: int| 0 <= r < rg.len() ==> #[trigger] rg[r].0 <= rg[r].1
    }

    /// No two free-list nodes meet, an end marker aside.
    #[verifier::opaque]
    spec fn apart_ok(&self) -> bool {
        apart(self.free_list@)
    }

    #[verifier::opaque]
    spec fn no_flags(&self) -> bool {
        forall|q: int| Self::word_slot(q) && flagged(#[trigger] self.w(q)) ==> self.w(q) == NONE
    }

    /// Until the generations wrap, the next generation is one past the
    /// allocations made, and every allocated block carries its own generation,
    /// at most that many.
    #[verifier::opaque]
    spec fn gens_ok(&self) -> bool {
        let lv = self.live@;
        self.allocations + 1 < 0x1_0000_0000 ==> {
            &&& self.next_generation == self.allocations + 1
            &&& forall|a: int| #[trigger] lv.contains_key(a) ==> lv[a].1 <= self.allocations
            &&& forall|a: int, b: int|
                #![trigger lv.contains_key(a), lv.contains_key(b)]
                lv.contains_key(a) && lv.contains_key(b) && a != b ==> lv[a].1 != lv[b].1
        }
    }

    /// The arena's well-formedness: before layout, no word carries the
    /// allocated flag but the free-list terminator; after it, the free list,
    /// the allocated blocks and the headers in the arena agree.
    pub closed spec fn wf(&self) -> bool {
        &&& Self::geometry()
        &&& self.gens_ok()
        &&& self.live@.dom().finite()
        &&& !self.initialised ==> {
            &&& self.live@ == Map::<int, (int, int)>::empty()
            &&& self.free_list@ == Seq::<(int, int)>::empty()
            &&& self.no_flags()
        }
        &&& self.initialised ==> {
            &&& self.regions_ok()
            &&& self.nodes_ok()
            &&& self.links_ok()
            &&& self.nodes_sorted()
            &&& self.live_ok()
            &&& self.disjoint()
            &&& self.flags_ok()
            &&& self.apart_ok()
            &&& self.start_next == (if self.free_list@.len() > 0 { self.free_list@[0].0 } else { self.end as int }) as u64
            &&& self.free_bytes as int == total(self.free_list@)
            &&& self.free_bytes + allocated(self.live@) == span_total(self.regions@)
            &&& self.minimum_ever_free <= self.free_bytes
        }
    }

    /// `xHeapStructSize`: the header, rounded up to the alignment.
    pub fn struct_size() -> (r: usize)
        ensures
            r == Self::header_size(),
    {
        align_up_exec(LINK, ALIGN)
    }

    /// `heapMINIMUM_BLOCK_SIZE`: twice the header.
    pub fn minimum_block_size() -> (r: usize)
        ensures
            r == Self::minimum_block(),
    {
        let s = Self::struct_size();
        if s > usize::MAX / 2 {
            usize::MAX
        } else {
            s * 2
        }
    }

    /// A heap not laid out yet, nothing allocated and nothing counted.
    pub open spec fn fresh() -> HeapState {
        HeapState {
            initialised: false,
            end: NONE as int,
            regions: Seq::empty(),
            free_list: Seq::empty(),
            live: Map::empty(),
            free_bytes: 0,
            minimum_ever_free: 0,
            allocations: 0,
            frees: 0,
            next_generation: 1,
        }
    }

    /// An uninitialised arena. `prvHeapInit` runs on the first allocation.
    /// Any parameters are accepted; the heap is well formed, and the other
    /// operations' contracts apply, for the parameters of `geometry`.
    pub fn new() -> (h: Self)
        ensures
            Self::geometry() ==> h.wf(),
            h@ == Self::fresh(),
    {
        let h = Heap4 {
            store: [0u8; N],
            start_next: NONE,
            end: NONE,
            next_generation: 1,
            free_bytes: 0,
            minimum_ever_free: 0,
            allocations: 0,
            frees: 0,
            initialised: false,
            free_list: Ghost(Seq::empty()),
            live: Ghost(Map::empty()),
            regions: Ghost(Seq::empty()),
        };
        proof {
            reveal(Heap4::no_flags);
            reveal(Heap4::gens_ok);
            assert(h.live@.dom() =~= Set::<int>::empty());
            assert forall|q: int| Self::word_slot(q) && flagged(#[trigger] h.w(q)) implies h.w(q) == NONE by {
                assert(h.store@[q] == 0 && h.store@[q + 1] == 0 && h.store@[q + 2] == 0 && h.store@[q + 3] == 0);
                assert(h.store@[q + 4] == 0 && h.store@[q + 5] == 0 && h.store@[q + 6] == 0 && h.store@[q + 7] == 0);
                assert(word_of(0, 0, 0, 0, 0, 0, 0, 0) == 0) by (bit_vector);
            }
        }
        h
    }

    // ---- the header, read and written at the block's own offset ---------

    /// Both header words of the block at `offset`, or zeros when the header
    /// would run past the arena.
    fn header_of(&self, offset: u64) -> (r: (u64, u64))
        ensures
            r == (if offset + 16 <= N { (self.w(offset as int), self.w(offset + 8)) } else { (0u64, 0u64) }),
    {
        if offset > N as u64 || (N as u64) - offset < 16 {
            return (0, 0);
        }
        let b = offset as usize;
        let s = &self.store;
        let next = (s[b] as u64) | ((s[b + 1] as u64) << 8u64) | ((s[b + 2] as u64) << 16u64)
            | ((s[b + 3] as u64) << 24u64) | ((s[b + 4] as u64) << 32u64) | ((s[b + 5] as u64) << 40u64)
            | ((s[b + 6] as u64) << 48u64) | ((s[b + 7] as u64) << 56u64);
        let c = b + 8;
        let size = (s[c] as u64) | ((s[c + 1] as u64) << 8u64) | ((s[c + 2] as u64) << 16u64)
            | ((s[c + 3] as u64) << 24u64) | ((s[c + 4] as u64) << 32u64) | ((s[c + 5] as u64) << 40u64)
            | ((s[c + 6] as u64) << 48u64) | ((s[c + 7] as u64) << 56u64);
        (next, size)
    }

    /// Write one header word; `word` 0 is the link, anything else the size.
    /// Nothing is written when the header would run past the arena.
    fn write_word(&mut self, offset: u64, word: usize, value: u64)
        requires
            offset % 8 == 0,
        ensures
            final(self).start_next == old(self).start_next,
            final(self).end == old(self).end,
            final(self).free_bytes == old(self).free_bytes,
            final(self).minimum_ever_free == old(self).minimum_ever_free,
            final(self).allocations == old(self).allocations,
            final(self).frees == old(self).frees,
            final(self).initialised == old(self).initialised,
            final(self).next_generation == old(self).next_generation,
            final(self).free_list == old(self).free_list,
            final(self).live == old(self).live,
            final(self).regions == old(self).regions,
            forall|q: int|
                Self::word_slot(q) ==> #[trigger] final(self).w(q) == if offset + 16 <= N && q
                    == offset + (if word == 0 { 0int } else { 8int }) {
                    value
                } else {
                    old(self).w(q)
                },
    {
        if offset > N as u64 || (N as u64) - offset < 16 {
            return;
        }
        let at = offset as usize + if word == 0 { 0 } else { 8 };
        let ghost before = self.store@;
        self.store[at] = (value & 0xff) as u8;
        self.store[at + 1] = ((value >> 8u64) & 0xff) as u8;
        self.store[at + 2] = ((value >> 16u64) & 0xff) as u8;
        self.store[at + 3] = ((value >> 24u64) & 0xff) as u8;
        self.store[at + 4] = ((value >> 32u64) & 0xff) as u8;
        self.store[at + 5] = ((value >> 40u64) & 0xff) as u8;
        self.store[at + 6] = ((value >> 48u64) & 0xff) as u8;
        self.store[at + 7] = ((value >> 56u64) & 0xff) as u8;
        proof {
            lemma_byte_of(value);
            assert(self.store@ =~= put_word(before, at as int, value));
            assert forall|q: int| Self::word_slot(q) implies #[trigger] self.w(q) == if q == at { value } else { old(self).w(q) } by {
                lemma_put_word(before, at as int, value, q);
            }
        }
    }
}


impl<const N: usize, const ALIGN: usize, const LINK: usize> Heap4<N, ALIGN, LINK> {
    /// What `prvHeapInit` makes of a heap that is not laid out yet: one free
    /// block from offset 0 up to the end marker. A laid-out heap is unchanged.
    pub open spec fn laid_out(s: HeapState) -> HeapState {
        if s.initialised {
            s
        } else {
            let e = Self::init_end();
            HeapState {
                initialised: true,
                end: e,
                regions: seq![(0int, e)],
                free_list: if e > 0 { seq![(0int, e)] } else { Seq::empty() },
                live: Map::empty(),
                free_bytes: e,
                minimum_ever_free: e,
                ..s
            }
        }
    }

    // ---- header accessors ------------------------------------------------

    /// `pxBlock->pxNextFreeBlock`.
    fn next_of(&self, offset: u64) -> (r: u64)
        ensures
            r == (if offset + 16 <= N { self.w(offset as int) } else { 0u64 }),
    {
        self.header_of(offset).0
    }

    /// `pxBlock->xBlockSize`, allocated bit included.
    fn raw_size_of(&self, offset: u64) -> (r: u64)
        ensures
            r == (if offset + 16 <= N { self.w(offset + 8) } else { 0u64 }),
    {
        self.header_of(offset).1
    }

    /// The block's size with the allocated bit masked off.
    fn size_of(&self, offset: u64) -> (r: u64)
        ensures
            r == (if offset + 16 <= N { self.w(offset + 8) } else { 0u64 }) & !ALLOCATED_BIT,
    {
        self.raw_size_of(offset) & !ALLOCATED_BIT
    }

    /// `heapBLOCK_IS_ALLOCATED`.
    fn is_allocated(&self, offset: u64) -> (r: bool)
        ensures
            r == (offset + 16 <= N && flagged(self.w(offset + 8))),
    {
        let raw = self.raw_size_of(offset);
        proof {
            lemma_flag_bits(raw);
        }
        (raw & ALLOCATED_BIT) != 0
    }

    fn set_next(&mut self, offset: u64, value: u64)
        requires
            offset % 8 == 0,
        ensures
            final(self)@ == old(self)@,
            final(self).start_next == old(self).start_next,
            forall|q: int|
                Self::word_slot(q) ==> #[trigger] final(self).w(q) == if offset + 16 <= N && q == offset {
                    value
                } else {
                    old(self).w(q)
                },
    {
        self.write_word(offset, 0, value);
    }

    fn set_raw_size(&mut self, offset: u64, value: u64)
        requires
            offset % 8 == 0,
        ensures
            final(self)@ == old(self)@,
            final(self).start_next == old(self).start_next,
            forall|q: int|
                Self::word_slot(q) ==> #[trigger] final(self).w(q) == if offset + 16 <= N && q == offset + 8 {
                    value
                } else {
                    old(self).w(q)
                },
    {
        self.write_word(offset, 1, value);
    }

    /// `xStart.pxNextFreeBlock` or `pxIterator->pxNextFreeBlock`, with `None`
    /// standing for the `xStart` sentinel that lives outside the arena.
    fn next_from(&self, iterator: Option<u64>) -> (r: u64)
        ensures
            r == match iterator {
                None => self.start_next,
                Some(o) => if o + 16 <= N { self.w(o as int) } else { 0u64 },
            },
    {
        match iterator {
            None => self.start_next,
            Some(offset) => self.next_of(offset),
        }
    }

    fn set_next_from(&mut self, iterator: Option<u64>, value: u64)
        requires
            iterator matches Some(o) ==> o % 8 == 0,
        ensures
            final(self)@ == old(self)@,
            final(self).start_next == (if iterator is None { value } else { old(self).start_next }),
            forall|q: int|
                Self::word_slot(q) ==> #[trigger] final(self).w(q) == match iterator {
                    Some(o) => if o + 16 <= N && q == o { value } else { old(self).w(q) },
                    None => old(self).w(q),
                },
    {
        match iterator {
            None => self.start_next = value,
            Some(offset) => self.set_next(offset, value),
        }
    }

    // ---- prvHeapInit -------------------------------------------------------

    /// `prvHeapInit`. Idempotent, and called lazily inside the first allocation.
    #[verifier::spinoff_prover]
    #[verifier::rlimit(40)]
    fn init(&mut self)
        requires
            old(self).wf(),
        ensures
            final(self).wf(),
            final(self)@ == Self::laid_out(old(self)@),
            old(self).initialised ==> final(self).store == old(self).store,
    {
        if self.initialised {
            return;
        }
        let ghost before = *self;
        proof {
            reveal(Heap4::no_flags);
        }
        self.initialised = true;

        // The arena's offset 0 is the aligned base, so aligning the start
        // loses nothing here.
        let total_size = N;
        let start_address: u64 = 0;

        // `uxEndAddress = uxStartAddress + xTotalHeapSize - xHeapStructSize`,
        // then aligned DOWN.
        let raw_end = total_size.saturating_sub(Self::struct_size());
        let mask = ALIGN.saturating_sub(1);
        let end_address = raw_end & !mask;
        let end = end_address as u64;
        proof {
            lemma_align_down(raw_end, ALIGN);
            assert(end_address == align_down(raw_end, ALIGN));
            lemma_align_up(LINK, ALIGN);
        }

        self.end = end;
        let ghost s0 = *self;
        self.set_raw_size(end, 0);
        let ghost s1 = *self;
        self.set_next(end, NONE);
        let ghost s2 = *self;

        // One free block covering everything up to `pxEnd`.
        let first_size = end_address.saturating_sub(start_address as usize);
        self.set_raw_size(start_address, first_size as u64);
        let ghost s3 = *self;
        self.set_next(start_address, end);
        let ghost s4 = *self;
        self.start_next = start_address;

        self.free_bytes = first_size;
        self.minimum_ever_free = first_size;

        proof {
            let e = end_address as int;
            assert(e == Self::init_end());
            self.regions@ = seq![(0int, e)];
            self.free_list@ = if e > 0 { seq![(0int, e)] } else { Seq::empty() };
            self.live@ = Map::empty();
            assert(e < 0x8000_0000_0000_0000);
            reveal(Heap4::nodes_ok);
            reveal(Heap4::links_ok);
            reveal(Heap4::nodes_sorted);
            reveal(Heap4::live_ok);
            reveal(Heap4::disjoint);
            reveal(Heap4::flags_ok);
            reveal(Heap4::apart_ok);
            reveal(Heap4::gens_ok);
            assert(self.store == s4.store);
            assert forall|q: int| Self::word_slot(q) implies #[trigger] self.w(q) == s4.w(q) by {}
            assert forall|q: int| Self::word_slot(q) && flagged(#[trigger] self.w(q))
                implies self.live@.contains_key(q - 8) || self.w(q) == NONE by {
                assert(self.w(q) == s4.w(q));
                assert(s4.w(q) == (if q == 0 && 16 <= N { e as u64 } else { s3.w(q) }));
                assert(s3.w(q) == (if q == 8 && 16 <= N { e as u64 } else { s2.w(q) }));
                assert(s2.w(q) == (if q == e && e + 16 <= N { NONE } else { s1.w(q) }));
                assert(s1.w(q) == (if q == e + 8 && e + 16 <= N { 0u64 } else { s0.w(q) }));
                assert(s0.w(q) == before.w(q));
            }
            if e > 0 {
                assert(Self::header_size() >= 8);
                let fl = self.free_list@;
                assert(fl[0] == (0int, e));
                assert(self.w(0) == e as u64);
                assert(self.w(8) == e as u64);
                assert(inside(self.regions@, 0, e)) by { reveal(inside); }
                assert(self.nodes_ok());
                assert(self.links_ok());
                assert(total(fl) == e) by {
                    crate::free_list::lemma_total_single((0int, e));
                }
            } else {
                assert(total(self.free_list@) == 0);
            }
            assert(self.regions_ok());
            assert(self.live_ok());
            assert(self.disjoint());
            assert(self.flags_ok());
            lemma_allocated_empty();
            assert(span_total(self.regions@) == e) by {
                assert(self.regions@.drop_last() =~= Seq::<(int, int)>::empty());
                assert(span_total(Seq::<(int, int)>::empty()) == 0);
                assert(self.regions@.last() == (0int, e));
            }
            assert(self.live@.dom() =~= Set::<int>::empty());
        }
    }
}


impl<const N: usize, const ALIGN: usize, const LINK: usize> Heap4<N, ALIGN, LINK> {
    /// The block a request for `wanted` bytes needs: the request plus a header,
    /// rounded up to the alignment. `None` for a zero request, one that
    /// overflows with its header, or one large enough to reach the allocated
    /// flag (`heapBLOCK_SIZE_IS_VALID`).
    pub open spec fn request(wanted: usize) -> Option<int> {
        if wanted == 0 || wanted + Self::header_size() > usize::MAX {
            None
        } else {
            let size = align_up((wanted + Self::header_size()) as usize, ALIGN);
            if flagged(size as u64) {
                None
            } else {
                Some(size as int)
            }
        }
    }

    /// The state after first fit hands out a block of `size` from free-list
    /// node `i`: the node is split when what remains is strictly larger than
    /// the minimum block, and otherwise handed out whole.
    pub open spec fn taken(s: HeapState, i: int, size: int) -> HeapState {
        let node = s.free_list[i];
        let split = node.1 - size > Self::minimum_block();
        let used = if split { size } else { node.1 };
        let left = s.free_bytes - used;
        HeapState {
            free_list: if split {
                s.free_list.update(i, (node.0 + size, node.1 - size))
            } else {
                s.free_list.remove(i)
            },
            live: s.live.insert(node.0, (used, s.next_generation)),
            free_bytes: left,
            minimum_ever_free: if left < s.minimum_ever_free { left } else { s.minimum_ever_free },
            allocations: if s.allocations + 1 > usize::MAX { usize::MAX as int } else { s.allocations + 1 },
            next_generation: (s.next_generation + 1) % 0x1_0000_0000,
            ..s
        }
    }

    /// The user offset of a block at `at`, as a `Block` carries it.
    pub open spec fn user_offset(at: int) -> u32 {
        if at + Self::header_size() <= u32::MAX { (at + Self::header_size()) as u32 } else { u32::MAX }
    }

    /// The outcome `pvPortMalloc` owes: `None`, or the block at first fit.
    pub open spec fn alloc_spec(old: HeapState, wanted: usize, new: HeapState, r: Option<Block>) -> bool {
        match Self::request(wanted) {
            None => r is None && new == old,
            Some(size) => {
                let s = Self::laid_out(old);
                let i = first_fit(s.free_list, size);
                if size > s.free_bytes || i == s.free_list.len() {
                    r is None && new == s
                } else {
                    &&& r matches Some(b) && b@ == (Self::user_offset(s.free_list[i].0), s.next_generation as u32)
                    &&& new == Self::taken(s, i, size)
                }
            }
        }
    }

    proof fn lemma_geometry()
        requires
            Self::geometry(),
        ensures
            Self::header_size() >= 8,
            Self::header_size() % 8 == 0,
            Self::header_size() % (ALIGN as int) == 0,
            Self::minimum_block() >= 16,
            ALIGN % 8 == 0,
    {
        lemma_align_up(LINK, ALIGN);
        crate::align::lemma_mask_is_mod(0, ALIGN);
        lemma_align_down(ALIGN, ALIGN);
        vstd::arithmetic::div_mod::lemma_mod_self_0(ALIGN as int);
        assert(ALIGN % 8 == 0) by {
            lemma_align_down(ALIGN, ALIGN);
        }
    }

    proof fn lemma_request(wanted: usize)
        requires
            Self::geometry(),
            Self::request(wanted) is Some,
        ensures
            Self::request(wanted)->0 >= 16,
            Self::request(wanted)->0 % (ALIGN as int) == 0,
            Self::request(wanted)->0 % 8 == 0,
            Self::request(wanted)->0 < 0x8000_0000_0000_0000,
    {
        Self::lemma_geometry();
        let with = (wanted + Self::header_size()) as usize;
        lemma_align_up(with, ALIGN);
        let x = align_up(with, ALIGN) as int;
        if with + (ALIGN - 1) > usize::MAX {
            assert(x > 0);
            assert(x >= ALIGN) by (nonlinear_arith)
                requires x % (ALIGN as int) == 0, x > 0, ALIGN > 0;
            assert(usize::MAX >= 0xffff_ffff);
        }
    }

    /// The words the allocation path leaves: the chosen header stamped
    /// allocated, the remainder's header when it splits, and the predecessor's
    /// link (or `xStart`) pointed past the chosen block.
    spec fn taken_words(old: Self, new: Self, i: int, size: int) -> bool {
        let fl = old.free_list@;
        let c = fl[i].0;
        let split = fl[i].1 - size > Self::minimum_block();
        let used = if split { size } else { fl[i].1 };
        let nb = c + size;
        let after = if i + 1 < fl.len() { fl[i + 1].0 } else { old.end as int };
        let head = if split { nb } else { after };
        &&& old.wf()
        &&& old.initialised
        &&& 0 <= i < fl.len()
        &&& size <= fl[i].1
        &&& size >= 16
        &&& size % (ALIGN as int) == 0
        &&& size % 8 == 0
        &&& size < 0x8000_0000_0000_0000
        &&& new@ == Self::taken(old@, i, size)
        &&& new.start_next == (if i == 0 { head as u64 } else { old.start_next })
        &&& forall|q: int| Self::word_slot(q) ==> #[trigger] new.w(q) == (
            if q == c { old.next_generation as u64 }
            else if q == c + 8 { (used + ALLOCATED_BIT) as u64 }
            else if split && q == nb { after as u64 }
            else if split && q == nb + 8 { (fl[i].1 - size) as u64 }
            else if i > 0 && q == fl[i - 1].0 { head as u64 }
            else { old.w(q) })
    }

    proof fn lemma_taken_basics(old: Self, i: int, size: int)
        requires
            old.wf(),
            old.initialised,
            0 <= i < old.free_list@.len(),
            size <= old.free_list@[i].1,
            size >= 16,
        ensures
            ({
                let fl = old.free_list@;
                &&& fl[i].1 >= 16
                &&& fl[i].0 + fl[i].1 <= old.end
                &&& claim(fl[i]) == fl[i].1
                &&& fl[i].0 % 8 == 0
                &&& fl[i].0 % (ALIGN as int) == 0
                &&& fl[i].0 + 16 <= N
                &&& forall|k: int| 0 <= k < fl.len() && k != i ==> fl[k].0 + claim(fl[k]) <= fl[i].0 || fl[i].0 + fl[i].1 <= #[trigger] fl[k].0
                &&& forall|k: int| 0 <= k < fl.len() ==> 0 <= #[trigger] fl[k].1 <= total(fl)
                &&& forall|a: int| #[trigger] old.live@.contains_key(a) ==> a + old.live@[a].0 <= fl[i].0 || fl[i].0 + fl[i].1 <= a
            }),
    {
        reveal(Heap4::nodes_ok);
        reveal(Heap4::nodes_sorted);
        reveal(Heap4::disjoint);
        let fl = old.free_list@;
        assert forall|k: int| 0 <= k < fl.len() && k != i implies fl[k].0 + claim(fl[k]) <= fl[i].0 || fl[i].0 + fl[i].1 <= #[trigger] fl[k].0 by {
            if k < i { assert(fl[k].0 + claim(fl[k]) <= fl[i].0); } else { assert(fl[i].0 + claim(fl[i]) <= fl[k].0); }
        }
        lemma_total_nonneg(fl);
        assert forall|a: int| #[trigger] old.live@.contains_key(a) implies a + old.live@[a].0 <= fl[i].0 || fl[i].0 + fl[i].1 <= a by {
            assert(a + old.live@[a].0 <= fl[i].0 || fl[i].0 + claim(fl[i]) <= a);
        }
    }

    #[verifier::spinoff_prover]
    #[verifier::rlimit(40)]
    proof fn lemma_taken_nodes(old: Self, new: Self, i: int, size: int)
        requires
            Self::taken_words(old, new, i, size),
        ensures
            new.nodes_ok(),
    {
        Self::lemma_taken_basics(old, i, size);
        reveal(Heap4::nodes_ok);
        reveal(Heap4::links_ok);
        reveal(Heap4::nodes_sorted);
        Self::lemma_geometry();
        let fl = old.free_list@;
        let nfl = new.free_list@;
        let e = old.end as int;
        let c = fl[i].0;
        let split = fl[i].1 - size > Self::minimum_block();
        let nb = c + size;
        let after = if i + 1 < fl.len() { fl[i + 1].0 } else { e };
        let rg = old.regions@;
        assert(new.regions@ == rg);
        assert(new.end == old.end);
        assert(e <= N);
        if split {
            assert(nb + 16 <= N);
            assert(nb % 8 == 0) by {
                vstd::arithmetic::div_mod::lemma_mod_adds(c, size, 8);
            }
        }
        assert forall|k: int| 0 <= k < nfl.len() implies {
            &&& (#[trigger] nfl[k]).0 % 8 == 0
            &&& nfl[k].0 % (ALIGN as int) == 0
            &&& nfl[k].1 % (ALIGN as int) == 0
            &&& 0 <= nfl[k].0
            &&& nfl[k].0 + 16 <= N
            &&& 0 <= nfl[k].1
            &&& nfl[k].0 < e
            &&& nfl[k].0 + nfl[k].1 <= e
            &&& new.w(nfl[k].0 + 8) == nfl[k].1 as u64
            &&& inside(new.regions@, nfl[k].0, nfl[k].1)
        } by {
            if split && k == i {
                assert(nfl[k] == (nb, fl[i].1 - size));
                vstd::arithmetic::div_mod::lemma_mod_adds(c, size, ALIGN as int);
                vstd::arithmetic::div_mod::lemma_mod_adds(c, size, 8);
                vstd::arithmetic::div_mod::lemma_sub_mod_noop(fl[i].1, size, ALIGN as int);
                assert(new.w(nb + 8) == (fl[i].1 - size) as u64);
                lemma_inside_part(rg, c, fl[i].1, nb, fl[i].1 - size);
            } else {
                let ok = if split || k < i { k } else { k + 1 };
                assert(nfl[k] == fl[ok]);
                assert(new.w(fl[ok].0 + 8) == old.w(fl[ok].0 + 8));
            }
        }
    }

    #[verifier::spinoff_prover]
    #[verifier::rlimit(40)]
    proof fn lemma_taken_links(old: Self, new: Self, i: int, size: int)
        requires
            Self::taken_words(old, new, i, size),
        ensures
            new.links_ok(),
    {
        Self::lemma_taken_basics(old, i, size);
        reveal(Heap4::nodes_ok);
        reveal(Heap4::links_ok);
        reveal(Heap4::nodes_sorted);
        Self::lemma_geometry();
        let fl = old.free_list@;
        let nfl = new.free_list@;
        let e = old.end as int;
        let c = fl[i].0;
        let split = fl[i].1 - size > Self::minimum_block();
        let nb = c + size;
        let after = if i + 1 < fl.len() { fl[i + 1].0 } else { e };
        let rg = old.regions@;
        assert(new.regions@ == rg);
        assert(new.end == old.end);
        assert(e <= N);
        if split {
            assert(nb + 16 <= N);
            assert(nb % 8 == 0) by {
                vstd::arithmetic::div_mod::lemma_mod_adds(c, size, 8);
            }
        }
        assert forall|k: int| 0 <= k < nfl.len() implies #[trigger] new.w(nfl[k].0) == (if k + 1 < nfl.len() { nfl[k + 1].0 } else { e }) as u64 by {
            if split && k == i {
                assert(nfl[k] == (nb, fl[i].1 - size));
                assert(new.w(nb) == after as u64);
                if k + 1 < nfl.len() {
                    assert(nfl[k + 1] == fl[k + 1]);
                }
            } else {
                let ok = if split || k < i { k } else { k + 1 };
                assert(nfl[k] == fl[ok]);
                if ok == i - 1 {
                    assert(new.w(fl[ok].0) == (if split { nb } else { after }) as u64);
                    if split {
                        assert(nfl[k + 1] == (nb, fl[i].1 - size));
                    } else if k + 1 < nfl.len() {
                        assert(nfl[k + 1] == fl[i + 1]);
                    }
                } else {
                    assert(new.w(fl[ok].0) == old.w(fl[ok].0));
                    assert(old.w(fl[ok].0) == (if ok + 1 < fl.len() { fl[ok + 1].0 } else { e }) as u64);
                    if k + 1 < nfl.len() {
                        let ok1 = if split || k + 1 < i { k + 1 } else { k + 2 };
                        assert(nfl[k + 1] == fl[ok1]);
                    }
                }
            }
        }
    }

    #[verifier::spinoff_prover]
    #[verifier::rlimit(40)]
    proof fn lemma_taken_sorted(old: Self, new: Self, i: int, size: int)
        requires
            Self::taken_words(old, new, i, size),
        ensures
            new.nodes_sorted(),
    {
        Self::lemma_taken_basics(old, i, size);
        reveal(Heap4::nodes_ok);
        reveal(Heap4::links_ok);
        reveal(Heap4::nodes_sorted);
        Self::lemma_geometry();
        let fl = old.free_list@;
        let nfl = new.free_list@;
        let e = old.end as int;
        let c = fl[i].0;
        let split = fl[i].1 - size > Self::minimum_block();
        let nb = c + size;
        let after = if i + 1 < fl.len() { fl[i + 1].0 } else { e };
        let rg = old.regions@;
        assert(new.regions@ == rg);
        assert(new.end == old.end);
        assert(e <= N);
        if split {
            assert(nb + 16 <= N);
            assert(nb % 8 == 0) by {
                vstd::arithmetic::div_mod::lemma_mod_adds(c, size, 8);
            }
        }
        assert forall|a: int, b: int| 0 <= a < b < nfl.len() implies (#[trigger] nfl[a]).0 + claim(nfl[a]) <= (#[trigger] nfl[b]).0 by {
            let oa = if split || a < i { a } else { a + 1 };
            let ob = if split || b < i { b } else { b + 1 };
            if split && a == i {
                assert(fl[i].0 + claim(fl[i]) <= fl[b].0);
            } else if split && b == i {
                assert(fl[a].0 + claim(fl[a]) <= fl[i].0);
            } else {
                assert(nfl[a] == fl[oa] && nfl[b] == fl[ob]);
                assert(fl[oa].0 + claim(fl[oa]) <= fl[ob].0);
            }
        }
    }

    #[verifier::spinoff_prover]
    #[verifier::rlimit(40)]
    proof fn lemma_taken_live(old: Self, new: Self, i: int, size: int)
        requires
            Self::taken_words(old, new, i, size),
        ensures
            new.live_ok(),
            new.disjoint(),
    {
        Self::lemma_taken_basics(old, i, size);
        reveal(Heap4::nodes_ok);
        reveal(Heap4::nodes_sorted);
        reveal(Heap4::live_ok);
        reveal(Heap4::disjoint);
        Self::lemma_geometry();
        let fl = old.free_list@;
        let nfl = new.free_list@;
        let lv = old.live@;
        let nlv = new.live@;
        let e = old.end as int;
        let c = fl[i].0;
        let split = fl[i].1 - size > Self::minimum_block();
        let used = if split { size } else { fl[i].1 };
        let nb = c + size;
        let rg = old.regions@;
        assert(new.regions@ == rg);
        assert(new.end == old.end);
        assert forall|a: int| #[trigger] nlv.contains_key(a) implies {
            &&& a % 8 == 0
            &&& a % (ALIGN as int) == 0
            &&& 0 <= a
            &&& nlv[a].0 >= 16
            &&& nlv[a].0 % (ALIGN as int) == 0
            &&& a + nlv[a].0 <= e
            &&& 0 <= nlv[a].1 <= u32::MAX
            &&& new.w(a) == nlv[a].1 as u64
            &&& new.w(a + 8) == (nlv[a].0 + ALLOCATED_BIT) as u64
            &&& inside(new.regions@, a, nlv[a].0)
        } by {
            if a == c {
                assert(nlv[a] == (used, old.next_generation as int));
                lemma_inside_part(rg, c, fl[i].1, c, used);
            } else {
                assert(lv.contains_key(a) && nlv[a] == lv[a]);
                if i > 0 {
                    assert(a + lv[a].0 <= fl[i - 1].0 || fl[i - 1].0 + claim(fl[i - 1]) <= a);
                }
                assert(new.w(a) == old.w(a));
                assert(new.w(a + 8) == old.w(a + 8));
            }
        }
        assert forall|a: int, b: int|
            #![trigger nlv.contains_key(a), nlv.contains_key(b)]
            nlv.contains_key(a) && nlv.contains_key(b) && a != b implies a + nlv[a].0 <= b || b + nlv[b].0 <= a by {
            if a != c && b != c {
                assert(lv.contains_key(a) && lv.contains_key(b));
            }
        }
        assert forall|a: int, k: int|
            #![trigger nlv.contains_key(a), nfl[k]]
            nlv.contains_key(a) && 0 <= k < nfl.len() implies a + nlv[a].0 <= nfl[k].0 || nfl[k].0 + claim(nfl[k]) <= a by {
            if split {
                if k == i {
                    assert(nfl[k] == (nb, fl[i].1 - size));
                } else {
                    assert(nfl[k] == fl[k]);
                    if a != c {
                        assert(a + lv[a].0 <= fl[k].0 || fl[k].0 + claim(fl[k]) <= a);
                    }
                }
            } else {
                let ok = if k < i { k } else { k + 1 };
                assert(nfl[k] == fl[ok]);
                if a != c {
                    assert(a + lv[a].0 <= fl[ok].0 || fl[ok].0 + claim(fl[ok]) <= a);
                }
            }
        }
    }

    /// The block handed out carries a generation no allocated block carries.
    #[verifier::spinoff_prover]
    proof fn lemma_taken_gens(old: Self, new: Self, i: int, size: int)
        requires
            Self::taken_words(old, new, i, size),
        ensures
            new.gens_ok(),
    {
        Self::lemma_taken_basics(old, i, size);
        reveal(Heap4::gens_ok);
        reveal(Heap4::live_ok);
        let c = old.free_list@[i].0;
        let lv = old.live@;
        let nlv = new.live@;
        assert(!lv.contains_key(c)) by {
            if lv.contains_key(c) {
                assert(c + lv[c].0 <= c || c + old.free_list@[i].1 <= c);
            }
        }
        if new.allocations + 1 < 0x1_0000_0000 {
            assert(old.allocations + 2 < 0x1_0000_0000);
            assert forall|a: int, b: int|
                #![trigger nlv.contains_key(a), nlv.contains_key(b)]
                nlv.contains_key(a) && nlv.contains_key(b) && a != b implies nlv[a].1 != nlv[b].1 by {
                if a != c && b != c {
                    assert(lv.contains_key(a) && lv.contains_key(b));
                } else if a == c {
                    assert(lv.contains_key(b) && lv[b].1 <= old.allocations);
                } else {
                    assert(lv.contains_key(a) && lv[a].1 <= old.allocations);
                }
            }
            assert forall|a: int| #[trigger] nlv.contains_key(a) implies nlv[a].1 <= new.allocations by {
                if a != c {
                    assert(lv.contains_key(a));
                }
            }
        }
    }

    /// First fit, split and the header writes keep the arena well formed.
    #[verifier::spinoff_prover]
    #[verifier::rlimit(40)]
    proof fn lemma_taken(old: Self, new: Self, i: int, size: int)
        requires
            Self::taken_words(old, new, i, size),
        ensures
            new.wf(),
    {
        Self::lemma_taken_gens(old, new, i, size);
        Self::lemma_taken_basics(old, i, size);
        Self::lemma_taken_nodes(old, new, i, size);
        Self::lemma_taken_links(old, new, i, size);
        Self::lemma_taken_sorted(old, new, i, size);
        Self::lemma_taken_live(old, new, i, size);
        reveal(Heap4::flags_ok);
        Self::lemma_geometry();
        let fl = old.free_list@;
        let nlv = new.live@;
        let c = fl[i].0;
        let split = fl[i].1 - size > Self::minimum_block();
        let nb = c + size;
        reveal(Heap4::nodes_ok);
        let e = old.end as int;
        assert(e < 0x8000_0000_0000_0000);
        assert(fl[i].1 - size < 0x8000_0000_0000_0000);
        assert(i + 1 < fl.len() ==> fl[i + 1].0 < e);
        assert forall|q: int| Self::word_slot(q) && flagged(#[trigger] new.w(q))
            implies nlv.contains_key(q - 8) || new.w(q) == NONE by {
            if q == c || q == c + 8 || (split && (q == nb || q == nb + 8)) || (i > 0 && q == fl[i - 1].0) {
            } else {
                assert(new.w(q) == old.w(q));
                assert(old.live@.contains_key(q - 8) || old.w(q) == NONE);
            }
        }
        assert(new.flags_ok());
        assert(new.apart_ok()) by {
            reveal(Heap4::apart_ok);
            Self::lemma_in_order(old);
            lemma_apart_taken(fl, i, size);
        }
        if split {
            lemma_total_update(fl, i, (nb, fl[i].1 - size));
        } else {
            lemma_total_remove(fl, i);
        }
        assert(new.regions_ok());
        let used = if split { size } else { fl[i].1 };
        assert(!old.live@.contains_key(c)) by {
            reveal(Heap4::live_ok);
            if old.live@.contains_key(c) {
                assert(c + old.live@[c].0 <= c || c + fl[i].1 <= c);
            }
        }
        lemma_allocated_insert(old.live@, c, (used, old.next_generation as int));
    }
}


impl<const N: usize, const ALIGN: usize, const LINK: usize> Heap4<N, ALIGN, LINK> {
    /// `after` holds `before`'s words but at `pos`, where it holds `v`.
    spec fn wrote(before: Self, after: Self, pos: int, v: u64) -> bool {
        forall|q: int| Self::word_slot(q) ==> #[trigger] after.w(q) == if q == pos { v } else { before.w(q) }
    }

    /// `after` holds `before`'s words.
    spec fn kept(before: Self, after: Self) -> bool {
        forall|q: int| Self::word_slot(q) ==> #[trigger] after.w(q) == before.w(q)
    }

    /// The words the allocation path writes, composed.
    proof fn lemma_alloc_words(
        t0: Self, t1: Self, t2: Self, t3: Self, t4: Self, t5: Self, t6: Self, t7: Self, t8: Self, t9: Self,
        c: int, nb: int, prev: Option<int>, split: bool, after: int, size: int, rem: int, raw: u64, g: u64,
    )
        requires
            Self::wrote(t0, t1, if prev is Some { prev->0 } else { -1 }, after as u64),
            split ==> Self::wrote(t1, t2, nb + 8, rem as u64),
            split ==> Self::wrote(t2, t3, c + 8, size as u64),
            split ==> Self::wrote(t3, t4, nb, after as u64),
            split ==> Self::wrote(t4, t5, if prev is Some { prev->0 } else { -1 }, nb as u64),
            !split ==> Self::kept(t1, t5),
            Self::kept(t5, t6),
            Self::wrote(t6, t7, c + 8, raw),
            Self::kept(t7, t8),
            Self::wrote(t8, t9, c, g),
            c % 8 == 0,
            split ==> nb >= c + 16 && nb % 8 == 0,
            prev is Some ==> prev->0 + 16 <= c && prev->0 % 8 == 0,
        ensures
            forall|q: int| Self::word_slot(q) ==> #[trigger] t9.w(q) == (
                if q == c { g }
                else if q == c + 8 { raw }
                else if split && q == nb { after as u64 }
                else if split && q == nb + 8 { rem as u64 }
                else if prev is Some && q == prev->0 { (if split { nb } else { after }) as u64 }
                else { t0.w(q) }),
    {
        assert forall|q: int| Self::word_slot(q) implies #[trigger] t9.w(q) == (
                if q == c { g }
                else if q == c + 8 { raw }
                else if split && q == nb { after as u64 }
                else if split && q == nb + 8 { rem as u64 }
                else if prev is Some && q == prev->0 { (if split { nb } else { after }) as u64 }
                else { t0.w(q) }) by {
            assert(t9.w(q) == t9.w(q) && t8.w(q) == t8.w(q) && t7.w(q) == t7.w(q) && t6.w(q) == t6.w(q));
            assert(t5.w(q) == t5.w(q) && t4.w(q) == t4.w(q) && t3.w(q) == t3.w(q) && t2.w(q) == t2.w(q));
            assert(t1.w(q) == t1.w(q) && t0.w(q) == t0.w(q));
        }
    }

    /// The counters the invariant does not mention can change freely.
    /// The free list of a laid-out heap, in order: no size negative, and each
    /// node ending at or before the next begins.
    proof fn lemma_in_order(h: Self)
        requires
            h.wf(),
            h.initialised,
        ensures
            in_order(h.free_list@),
    {
        reveal(Heap4::nodes_sorted);
        reveal(Heap4::nodes_ok);
        let fl = h.free_list@;
        assert forall|a: int, k: int| #![trigger fl[a], fl[k]] 0 <= a && k == a + 1 && k < fl.len() implies fl[a].0 + fl[a].1 <= fl[k].0 by {
            assert(fl[a].0 + claim(fl[a]) <= fl[k].0);
        }
    }

    proof fn lemma_wf_frame(a: Self, b: Self)
        requires
            a.wf(),
            b.store == a.store,
            b.free_list == a.free_list,
            b.live == a.live,
            b.regions == a.regions,
            b.end == a.end,
            b.start_next == a.start_next,
            b.initialised == a.initialised,
            b.free_bytes == a.free_bytes,
            b.minimum_ever_free == a.minimum_ever_free,
            b.allocations == a.allocations,
            b.next_generation == a.next_generation,
        ensures
            b.wf(),
    {
        reveal(Heap4::apart_ok);
        reveal(Heap4::gens_ok);
        reveal(Heap4::nodes_ok);
        reveal(Heap4::links_ok);
        reveal(Heap4::nodes_sorted);
        reveal(Heap4::live_ok);
        reveal(Heap4::disjoint);
        reveal(Heap4::flags_ok);
        reveal(Heap4::no_flags);
        assert(b.store@ == a.store@);
        assert forall|q: int| #[trigger] b.w(q) == a.w(q) by {}
        if a.initialised {
            assert(b.nodes_ok());
            assert(b.links_ok());
            assert(b.live_ok());
            assert(b.flags_ok());
        } else {
            assert(b.no_flags());
        }
    }

    /// What the invariant says of free-list node `i`.
    proof fn lemma_node(h: Self, i: int)
        requires
            h.wf(),
            h.initialised,
            0 <= i < h.free_list@.len(),
        ensures
            ({
                let fl = h.free_list@;
                let e = h.end as int;
                &&& fl[i].0 % 8 == 0
                &&& 0 <= fl[i].0
                &&& fl[i].0 + 16 <= N
                &&& 0 <= fl[i].1 < 0x8000_0000_0000_0000
                &&& fl[i].0 < e <= N
                &&& fl[i].0 + fl[i].1 <= e
                &&& h.w(fl[i].0) == (if i + 1 < fl.len() { fl[i + 1].0 } else { e }) as u64
                &&& h.w(fl[i].0 + 8) == fl[i].1 as u64
                &&& i + 1 < fl.len() ==> fl[i + 1].0 < e
                &&& i + 1 < fl.len() ==> fl[i].0 + claim(fl[i]) <= fl[i + 1].0
                &&& i == 0 ==> h.start_next == fl[0].0 as u64
                &&& e < 0x8000_0000_0000_0000
            }),
    {
        reveal(Heap4::nodes_ok);
        reveal(Heap4::links_ok);
        reveal(Heap4::nodes_sorted);
        let fl = h.free_list@;
        assert(fl[i].0 == fl[i].0);
        if i + 1 < fl.len() {
            assert(fl[i + 1].0 == fl[i + 1].0);
        }
    }

    // ---- pvPortMalloc ------------------------------------------------------


    /// The second half of `pvPortMalloc`: unlink free-list node `i` (found
    /// after `previous`), split it when the remainder is strictly larger than
    /// the minimum block, and stamp the block allocated.
    #[verifier::spinoff_prover]
    #[verifier::rlimit(100)]
    fn take(&mut self, previous: Option<u64>, size: usize, Ghost(i): Ghost<int>) -> (r: Block)
        requires
            old(self).wf(),
            old(self).initialised,
            0 <= i < old(self).free_list@.len(),
            i == first_fit(old(self).free_list@, size as int),
            previous == (if i == 0 { None } else { Some(old(self).free_list@[i - 1].0 as u64) }),
            size <= old(self).free_bytes,
            size >= 16,
            (size as int) % (ALIGN as int) == 0,
            size % 8 == 0,
            size < 0x8000_0000_0000_0000,
        ensures
            final(self).wf(),
            final(self)@ == Self::taken(old(self)@, i, size as int),
            r@ == (Self::user_offset(old(self).free_list@[i].0), old(self).next_generation),
            Self::taken_words(*old(self), *final(self), i, size as int),
    {
        let ghost fl = self.free_list@;
        proof {
            lemma_first_fit(fl, size as int);
            if i > 0 {
                Self::lemma_node(*self, i - 1);
            }
            Self::lemma_node(*self, i);
        }
        let ghost old_heap = *self;
        let ghost c = fl[i].0;
        let ghost after = if i + 1 < fl.len() { fl[i + 1].0 } else { self.end as int };
        assert(i > 0 ==> self.w(fl[i - 1].0) == fl[i].0 as u64);
        assert(self.w(fl[i].0) == after as u64);

        // The block handed out is read back out of `pxPreviousBlock`.
        let chosen = self.next_from(previous);
        assert(chosen == c);
        let user = chosen.saturating_add(Self::struct_size() as u64);
        let ghost prev: Option<int> = if i > 0 { Some(fl[i - 1].0) } else { None };
        let ghost prev_pos: int = if i > 0 { fl[i - 1].0 } else { -1 };

        // Unlink it.
        let after_exec = self.next_of(chosen);
        assert(after_exec == after as u64);
        let ghost t0 = *self;
        self.set_next_from(previous, after_exec);
        let ghost t1 = *self;
        assert(Self::wrote(t0, t1, prev_pos, after as u64));

        // Split only when the remainder is STRICTLY larger than the minimum.
        let chosen_size = self.size_of(chosen);
        proof {
            Self::lemma_taken_basics(old_heap, i, size as int);
            Self::lemma_geometry();
            lemma_flag_bits(fl[i].1 as u64);
            assert(t1.w(c + 8) == t0.w(c + 8));
        }
        assert(chosen_size == fl[i].1);
        let remainder = chosen_size.saturating_sub(size as u64);
        let minimum = Self::minimum_block_size();
        let ghost split = remainder > minimum as u64;
        let ghost nb = c + size;
        let ghost rem = fl[i].1 - size;
        let ghost mut t2 = *self;
        let ghost mut t3 = *self;
        let ghost mut t4 = *self;
        if remainder > minimum as u64 {
            let new_block = chosen.saturating_add(size as u64);
            assert(new_block == nb);
            assert(nb % 8 == 0) by {
                vstd::arithmetic::div_mod::lemma_mod_adds(c, size as int, 8);
            }
            assert(nb + 16 <= N);
            self.set_raw_size(new_block, remainder);
            proof { t2 = *self; }
            assert(Self::wrote(t1, t2, nb + 8, rem as u64));
            self.set_raw_size(chosen, size as u64);
            proof { t3 = *self; }
            assert(Self::wrote(t2, t3, c + 8, size as u64));
            // The remainder takes the chosen block's place in the list.
            let previous_next = self.next_from(previous);
            proof {
                if i > 0 {
                    assert(t3.w(prev_pos) == t2.w(prev_pos) && t2.w(prev_pos) == t1.w(prev_pos));
                }
            }
            assert(previous_next == after as u64);
            self.set_next(new_block, previous_next);
            proof { t4 = *self; }
            assert(Self::wrote(t3, t4, nb, after as u64));
            self.set_next_from(previous, new_block);
        }
        let ghost t5 = *self;
        assert(split ==> Self::wrote(t4, t5, prev_pos, nb as u64));
        assert(!split ==> Self::kept(t1, t5));

        let taken = self.size_of(chosen);
        let ghost used: int = if split { size as int } else { fl[i].1 };
        proof {
            lemma_flag_bits(size as u64);
            assert(t5.w(c + 8) == (if split { size as u64 } else { t1.w(c + 8) }));
        }
        assert(taken == used);
        self.free_bytes = self.free_bytes.saturating_sub(taken as usize);
        if self.free_bytes < self.minimum_ever_free {
            self.minimum_ever_free = self.free_bytes;
        }

        // `heapALLOCATE_BLOCK`, and then the link word, dead while the block is
        // allocated, stamped with the allocation's generation.
        let ghost t6 = *self;
        assert(Self::kept(t5, t6));
        let raw = self.raw_size_of(chosen);
        self.set_raw_size(chosen, raw | ALLOCATED_BIT);
        let ghost t7 = *self;
        assert(Self::wrote(t6, t7, c + 8, raw | ALLOCATED_BIT));
        let generation = self.next_generation;
        self.next_generation = self.next_generation.wrapping_add(1);
        let ghost t8 = *self;
        assert(Self::kept(t7, t8));
        self.set_next(chosen, generation as u64);
        let ghost t9 = *self;
        assert(Self::wrote(t8, t9, c, generation as u64));
        self.allocations = self.allocations.saturating_add(1);
        proof {
            lemma_flag_bits(used as u64);
            assert(raw == used as u64);
            Self::lemma_alloc_words(t0, t1, t2, t3, t4, t5, t6, t7, t8, t9, c, nb, prev, split, after, size as int, rem, raw | ALLOCATED_BIT, generation as u64);
            self.free_list@ = if split { fl.update(i, (c + size, fl[i].1 - size)) } else { fl.remove(i) };
            self.live@ = old_heap.live@.insert(c, (used, old_heap.next_generation as int));
            assert(Self::kept(t9, *self));
            assert(Self::taken_words(old_heap, *self, i, size as int));
            Self::lemma_taken(old_heap, *self, i, size as int);
        }
        let offset = if user <= u32::MAX as u64 { user as u32 } else { u32::MAX };
        Block { offset, generation }
    }

    /// Walk the address-ordered free list for the first block of at least
    /// `size` bytes, stopping at `pxEnd`: the block found, or `pxEnd`, and the
    /// node before it (`None` for `xStart`).
    fn find(&self, size: usize) -> (r: (Option<u64>, u64))
        requires
            self.wf(),
            self.initialised,
            0 < size < 0x8000_0000_0000_0000,
        ensures
            ({
                let fl = self.free_list@;
                let i = first_fit(fl, size as int);
                &&& r.1 == (if i < fl.len() { fl[i].0 } else { self.end as int }) as u64
                &&& r.0 == (if i == 0 { None } else { Some(fl[i - 1].0 as u64) })
            }),
    {
        let ghost fl = self.free_list@;
        let mut previous: Option<u64> = None;
        let mut block = self.start_next;
        let ghost mut i: int = 0;
        proof {
            if fl.len() > 0 {
                Self::lemma_node(*self, 0);
            }
        }
        loop
            invariant
                self.wf(),
                self.initialised,
                fl == self.free_list@,
                0 <= i <= fl.len(),
                block == (if i < fl.len() { fl[i].0 } else { self.end as int }) as u64,
                previous == (if i == 0 { None } else { Some(fl[i - 1].0 as u64) }),
                forall|k: int| 0 <= k < i ==> fl[k].1 < size,
                0 < size < 0x8000_0000_0000_0000,
            ensures
                0 <= i <= fl.len(),
                block == (if i < fl.len() { fl[i].0 } else { self.end as int }) as u64,
                previous == (if i == 0 { None } else { Some(fl[i - 1].0 as u64) }),
                forall|k: int| 0 <= k < i ==> fl[k].1 < size,
                i < fl.len() ==> fl[i].1 >= size,
            decreases fl.len() - i,
        {
            proof {
                if i < fl.len() {
                    Self::lemma_node(*self, i);
                }
            }
            // Reaching `pxEnd` means nothing was large enough.
            if block == self.end {
                break;
            }
            // One read of the header serves both tests.
            let (next, raw) = self.header_of(block);
            proof {
                lemma_flag_bits(raw);
                assert(i < fl.len());
                assert(block as int == fl[i].0);
                assert(raw == fl[i].1 as u64);
                assert(next != NONE);
            }
            if (raw & !ALLOCATED_BIT) >= size as u64 || next == NONE {
                break;
            }
            previous = Some(block);
            block = next;
            proof {
                i = i + 1;
            }
        }
        proof {
            lemma_first_fit_at(fl, size as int, i);
        }
        (previous, block)
    }

    /// `pvPortMalloc`, answering the offset of the **user** bytes (the block
    /// plus its header) and the generation the block is handed out under.
    ///
    /// `None` is `pvPortMalloc`'s `NULL`: a zero request, one too large to describe,
    /// more than the free bytes, or no single free block large enough. The
    /// first allocation lays the arena out, as `prvHeapInit` does. The bytes
    /// of every block allocated before are left as they were.
    #[verifier::spinoff_prover]
    #[verifier::rlimit(100)]
    pub fn allocate(&mut self, wanted: usize) -> (r: Option<Block>)
        requires
            old(self).wf(),
        ensures
            final(self).wf(),
            Self::alloc_spec(old(self)@, wanted, final(self)@, r),
            Self::blocks_kept(old(self)@, old(self).arena(), final(self).arena()),
    {
        if wanted == 0 {
            return None;
        }
        // `xWantedSize += xHeapStructSize`, then round up to the alignment.
        let with_header = match wanted.checked_add(Self::struct_size()) {
            Some(v) => v,
            None => return None,
        };
        let size = align_up_exec(with_header, ALIGN);
        // `heapBLOCK_SIZE_IS_VALID`: the top bit is the allocated flag, so a
        // request that reaches it is refused rather than mis-tagged.
        if (size as u64 & ALLOCATED_BIT) != 0 {
            proof {
                lemma_flag_bits(size as u64);
            }
            return None;
        }
        proof {
            lemma_flag_bits(size as u64);
            Self::lemma_request(wanted);
        }

        self.init();

        if size > self.free_bytes {
            return None;
        }

        let ghost fl = self.free_list@;
        let (previous, block) = self.find(size);
        let ghost i = first_fit(fl, size as int);
        proof {
            lemma_first_fit(fl, size as int);
            if i < fl.len() {
                Self::lemma_node(*self, i);
            }
        }
        if block == self.end {
            return None;
        }
        proof {
            if i > 0 {
                Self::lemma_node(*self, i - 1);
            }
            Self::lemma_node(*self, i);
        }
        proof {
            Self::lemma_node(*self, i);
        }
        let ghost before_take = *self;
        let taken = self.take(previous, size, Ghost(i));
        proof {
            Self::lemma_taken_keeps(before_take, *self, i, size as int);
        }
        Some(taken)
    }
}


impl<const N: usize, const ALIGN: usize, const LINK: usize> Heap4<N, ALIGN, LINK> {
    /// The state once the allocated block at `link` is back in the free list,
    /// coalesced with its neighbours, before the free is counted.
    pub open spec fn inserted(s: HeapState, link: int) -> HeapState {
        let size = s.live[link].0;
        HeapState {
            free_list: insert_block(s.free_list, link, size),
            live: s.live.remove(link),
            free_bytes: s.free_bytes + size,
            ..s
        }
    }

    /// `vPortFree` on the allocated block at `link`: back in the free list,
    /// and counted.
    pub open spec fn freed(s: HeapState, link: int) -> HeapState {
        HeapState {
            frees: if s.frees + 1 > usize::MAX { usize::MAX as int } else { s.frees + 1 },
            ..Self::inserted(s, link)
        }
    }

    /// Where node `k` of the list after the insert came from: the index of
    /// the node it is in the list before, for every node but the inserted one.
    spec fn origin(fl: Seq<(int, int)>, link: int, size: int, k: int) -> int {
        let j = position(fl, link);
        let with_previous = j > 0 && fl[j - 1].0 + fl[j - 1].1 == link;
        let start = if with_previous { fl[j - 1].0 } else { link };
        let merged = if with_previous { fl[j - 1].1 + size } else { size };
        let with_next = j < fl.len() && start + merged == fl[j].0;
        let m = if with_previous { j - 1 } else { j };
        if k < m {
            k
        } else if with_previous && with_next {
            k + 1
        } else if !with_previous && !with_next {
            k - 1
        } else {
            k
        }
    }

    proof fn lemma_insert_shape(fl: Seq<(int, int)>, link: int, size: int)
        requires
            forall|a: int, b: int| 0 <= a < b < fl.len() ==> (#[trigger] fl[a]).0 < (#[trigger] fl[b]).0,
        ensures
            ({
                let j = position(fl, link);
                let with_previous = j > 0 && fl[j - 1].0 + fl[j - 1].1 == link;
                let start = if with_previous { fl[j - 1].0 } else { link };
                let merged = if with_previous { fl[j - 1].1 + size } else { size };
                let with_next = j < fl.len() && start + merged == fl[j].0;
                let grown = if with_next { merged + fl[j].1 } else { merged };
                let m = if with_previous { j - 1 } else { j };
                let nfl = insert_block(fl, link, size);
                &&& 0 <= j <= fl.len()
                &&& 0 <= m < nfl.len()
                &&& nfl.len() == fl.len() + (if with_previous && with_next { -1int } else if !with_previous && !with_next { 1int } else { 0int })
                &&& nfl[m] == (start, grown)
                &&& forall|k: int| 0 <= k < nfl.len() && k != m ==> {
                    &&& 0 <= #[trigger] Self::origin(fl, link, size, k) < fl.len()
                    &&& nfl[k] == fl[Self::origin(fl, link, size, k)]
                    &&& Self::origin(fl, link, size, k) != j - 1 || !with_previous
                    &&& Self::origin(fl, link, size, k) != j || !with_next
                    &&& (k < m) == (Self::origin(fl, link, size, k) < j)
                }
                &&& m + 1 < nfl.len() ==> Self::origin(fl, link, size, m + 1) == (if with_next { j + 1 } else { j })
                &&& m + 1 >= nfl.len() ==> (if with_next { j + 1 } else { j }) >= fl.len()
                &&& m > 0 ==> Self::origin(fl, link, size, m - 1) == m - 1
            }),
    {
        lemma_position(fl, link);
        let j = position(fl, link);
        let with_previous = j > 0 && fl[j - 1].0 + fl[j - 1].1 == link;
        let start = if with_previous { fl[j - 1].0 } else { link };
        let merged = if with_previous { fl[j - 1].1 + size } else { size };
        let with_next = j < fl.len() && start + merged == fl[j].0;
        let grown = if with_next { merged + fl[j].1 } else { merged };
        let m = if with_previous { j - 1 } else { j };
        let nfl = insert_block(fl, link, size);
        if with_previous {
            if with_next {
                let u = fl.update(j - 1, (start, grown));
                u.remove_ensures(j);
            }
        } else {
            if !with_next {
                fl.insert_ensures(j, (start, grown));
            }
        }
    }
}


impl<const N: usize, const ALIGN: usize, const LINK: usize> Heap4<N, ALIGN, LINK> {
    /// What the invariant says around an allocated block at `link` that is
    /// about to go back in the free list.
    proof fn lemma_insert_basics(h: Self, link: int)
        requires
            h.wf(),
            h.initialised,
            h.live@.contains_key(link),
        ensures
            ({
                let fl = h.free_list@;
                let size = h.live@[link].0;
                let j = position(fl, link);
                &&& 0 <= j <= fl.len()
                &&& size >= 16
                &&& size % (ALIGN as int) == 0
                &&& link % (ALIGN as int) == 0
                &&& link % 8 == 0
                &&& 0 <= link
                &&& link + size <= h.end
                &&& h.end <= N
                &&& h.end < 0x8000_0000_0000_0000
                &&& inside(h.regions@, link, size)
                &&& forall|a: int, b: int| 0 <= a < b < fl.len() ==> (#[trigger] fl[a]).0 < (#[trigger] fl[b]).0
                &&& forall|k: int| 0 <= k < j ==> (#[trigger] fl[k]).0 + claim(fl[k]) <= link
                &&& forall|k: int| j <= k < fl.len() ==> link + size <= (#[trigger] fl[k]).0
            }),
    {
        reveal(Heap4::nodes_ok);
        reveal(Heap4::nodes_sorted);
        reveal(Heap4::live_ok);
        reveal(Heap4::disjoint);
        let fl = h.free_list@;
        let size = h.live@[link].0;
        lemma_position(fl, link);
        let j = position(fl, link);
        assert forall|a: int, b: int| 0 <= a < b < fl.len() implies (#[trigger] fl[a]).0 < (#[trigger] fl[b]).0 by {
            assert(fl[a].0 + claim(fl[a]) <= fl[b].0);
        }
        assert forall|k: int| 0 <= k < j implies (#[trigger] fl[k]).0 + claim(fl[k]) <= link by {
            assert(link + h.live@[link].0 <= fl[k].0 || fl[k].0 + claim(fl[k]) <= link);
        }
        assert forall|k: int| j <= k < fl.len() implies link + size <= (#[trigger] fl[k]).0 by {
            assert(link + h.live@[link].0 <= fl[k].0 || fl[k].0 + claim(fl[k]) <= link);
            if j < fl.len() {
                assert(fl[j].0 >= link);
                if k > j {
                    assert(fl[j].0 < fl[k].0);
                }
            }
        }
    }

    /// The free list after the insert is a well-formed free list, and holds
    /// the freed bytes on top of what it held.
    #[verifier::spinoff_prover]
    #[verifier::rlimit(60)]
    proof fn lemma_inserted_list(h: Self, link: int)
        requires
            h.wf(),
            h.initialised,
            h.live@.contains_key(link),
        ensures
            ({
                let fl = h.free_list@;
                let nfl = insert_block(fl, link, h.live@[link].0);
                let e = h.end as int;
                &&& forall|k: int| 0 <= k < nfl.len() ==> {
                    &&& (#[trigger] nfl[k]).0 % 8 == 0
                    &&& nfl[k].0 % (ALIGN as int) == 0
                    &&& nfl[k].1 % (ALIGN as int) == 0
                    &&& 0 <= nfl[k].0
                    &&& nfl[k].0 + 16 <= N
                    &&& 0 <= nfl[k].1
                    &&& nfl[k].0 < e
                    &&& nfl[k].0 + nfl[k].1 <= e
                    &&& inside(h.regions@, nfl[k].0, nfl[k].1)
                }
                &&& forall|a: int, b: int| 0 <= a < b < nfl.len() ==> (#[trigger] nfl[a]).0 + claim(nfl[a]) <= (#[trigger] nfl[b]).0
                &&& total(nfl) == total(fl) + h.live@[link].0
                &&& total(nfl) <= e
            }),
    {
        reveal(Heap4::nodes_ok);
        reveal(Heap4::nodes_sorted);
        Self::lemma_insert_basics(h, link);
        Self::lemma_geometry();
        let fl = h.free_list@;
        let size = h.live@[link].0;
        let e = h.end as int;
        let rg = h.regions@;
        let j = position(fl, link);
        let with_previous = j > 0 && fl[j - 1].0 + fl[j - 1].1 == link;
        let start = if with_previous { fl[j - 1].0 } else { link };
        let merged = if with_previous { fl[j - 1].1 + size } else { size };
        let with_next = j < fl.len() && start + merged == fl[j].0;
        let grown = if with_next { merged + fl[j].1 } else { merged };
        let m = if with_previous { j - 1 } else { j };
        let nfl = insert_block(fl, link, size);
        Self::lemma_insert_shape(fl, link, size);
        if with_previous {
            assert(fl[j - 1].0 + claim(fl[j - 1]) <= link);
            assert(claim(fl[j - 1]) == fl[j - 1].1);
        }
        assert(start + merged == link + size);
        if with_next {
            assert(fl[j].0 + fl[j].1 <= e);
        }
        assert(start + grown <= e);
        assert(grown >= 16);
        // The merged node lies in the regions.
        assert(inside(rg, start, grown)) by {
            if with_previous {
                lemma_inside_merge(rg, fl[j - 1].0, fl[j - 1].1, size);
            }
            if with_next {
                lemma_inside_merge(rg, start, merged, fl[j].1);
            }
        }
        assert(grown % (ALIGN as int) == 0) by {
            if with_previous {
                vstd::arithmetic::div_mod::lemma_mod_adds(fl[j - 1].1, size, ALIGN as int);
            }
            if with_next {
                vstd::arithmetic::div_mod::lemma_mod_adds(merged, fl[j].1, ALIGN as int);
            }
        }
        assert forall|k: int| 0 <= k < nfl.len() implies {
            &&& (#[trigger] nfl[k]).0 % 8 == 0
            &&& nfl[k].0 % (ALIGN as int) == 0
            &&& nfl[k].1 % (ALIGN as int) == 0
            &&& 0 <= nfl[k].0
            &&& nfl[k].0 + 16 <= N
            &&& 0 <= nfl[k].1
            &&& nfl[k].0 < e
            &&& nfl[k].0 + nfl[k].1 <= e
            &&& inside(h.regions@, nfl[k].0, nfl[k].1)
        } by {
            if k != m {
                let ok = Self::origin(fl, link, size, k);
                assert(nfl[k] == fl[ok]);
            }
        }
        assert forall|a: int, b: int| 0 <= a < b < nfl.len() implies (#[trigger] nfl[a]).0 + claim(nfl[a]) <= (#[trigger] nfl[b]).0 by {
            let oa = Self::origin(fl, link, size, a);
            let ob = Self::origin(fl, link, size, b);
            if a == m {
                assert(nfl[b] == fl[ob]);
                assert(claim(nfl[a]) == grown);
                if with_next {
                    assert(ob > j);
                    assert(fl[j].0 + claim(fl[j]) <= fl[ob].0);
                } else {
                    assert(ob >= j);
                }
            } else if b == m {
                assert(nfl[a] == fl[oa]);
                if with_previous {
                    assert(fl[oa].0 + claim(fl[oa]) <= fl[j - 1].0);
                }
            } else {
                assert(nfl[a] == fl[oa] && nfl[b] == fl[ob]);
                assert(oa < ob);
                assert(fl[oa].0 + claim(fl[oa]) <= fl[ob].0);
            }
        }
        if with_previous {
            let u = fl.update(j - 1, (start, grown));
            lemma_total_update(fl, j - 1, (start, grown));
            if with_next {
                lemma_total_remove(u, j);
            }
        } else {
            if with_next {
                lemma_total_update(fl, j, (start, grown));
            } else {
                lemma_total_insert(fl, j, (start, grown));
            }
        }
        assert forall|k: int| 0 <= k < nfl.len() implies 0 <= (#[trigger] nfl[k]).0 && 0 <= nfl[k].1 && nfl[k].0 + nfl[k].1 <= e by {
        }
        assert forall|a: int, b: int| 0 <= a < b < nfl.len() implies (#[trigger] nfl[a]).0 + nfl[a].1 <= (#[trigger] nfl[b]).0 by {
            assert(nfl[a].0 + claim(nfl[a]) <= nfl[b].0);
        }
        crate::free_list::lemma_total_span(nfl, 0, e);
    }
}


impl<const N: usize, const ALIGN: usize, const LINK: usize> Heap4<N, ALIGN, LINK> {
    /// The words `prvInsertBlockIntoFreeList` leaves: the merged node's header,
    /// the freed block's size word cleared, and the predecessor's link (or
    /// `xStart`) pointed at the block when it did not merge backwards.
    spec fn insert_words(old: Self, new: Self, link: int) -> bool {
        let fl = old.free_list@;
        let size = old.live@[link].0;
        let e = old.end as int;
        let j = position(fl, link);
        let with_previous = j > 0 && fl[j - 1].0 + fl[j - 1].1 == link;
        let start = if with_previous { fl[j - 1].0 } else { link };
        let merged = if with_previous { fl[j - 1].1 + size } else { size };
        let with_next = j < fl.len() && start + merged == fl[j].0;
        let grown = if with_next { merged + fl[j].1 } else { merged };
        let following = if j < fl.len() { fl[j].0 } else { e };
        let after = if j + 1 < fl.len() { fl[j + 1].0 } else { e };
        &&& old.wf()
        &&& old.initialised
        &&& old.live@.contains_key(link)
        &&& new@ == Self::inserted(old@, link)
        &&& new.start_next == (if !with_previous && j == 0 { link as u64 } else { old.start_next })
        &&& forall|q: int| Self::word_slot(q) ==> #[trigger] new.w(q) == (
            if q == start + 8 { grown as u64 }
            else if q == start { (if with_next { after } else { following }) as u64 }
            else if q == link + 8 { size as u64 }
            else if !with_previous && j > 0 && q == fl[j - 1].0 { link as u64 }
            else { old.w(q) })
    }

    #[verifier::spinoff_prover]
    #[verifier::rlimit(100)]
    proof fn lemma_inserted_nodes(old: Self, new: Self, link: int)
        requires
            Self::insert_words(old, new, link),
        ensures
            new.nodes_ok(),
    {
        reveal(Heap4::nodes_ok);
        reveal(Heap4::links_ok);
        reveal(Heap4::nodes_sorted);
        Self::lemma_insert_basics(old, link);
        Self::lemma_inserted_list(old, link);
        Self::lemma_geometry();
        let fl = old.free_list@;
        let size = old.live@[link].0;
        let e = old.end as int;
        let j = position(fl, link);
        let with_previous = j > 0 && fl[j - 1].0 + fl[j - 1].1 == link;
        let start = if with_previous { fl[j - 1].0 } else { link };
        let merged = if with_previous { fl[j - 1].1 + size } else { size };
        let with_next = j < fl.len() && start + merged == fl[j].0;
        let grown = if with_next { merged + fl[j].1 } else { merged };
        let m = if with_previous { j - 1 } else { j };
        let nfl = new.free_list@;
        assert(nfl == insert_block(fl, link, size));
        Self::lemma_insert_shape(fl, link, size);
        assert(new.end == old.end && new.regions@ == old.regions@);
        if with_previous {
            assert(fl[j - 1].0 + claim(fl[j - 1]) <= link);
        }
        assert forall|k: int| 0 <= k < nfl.len() implies {
            &&& (#[trigger] nfl[k]).0 % 8 == 0
            &&& nfl[k].0 % (ALIGN as int) == 0
            &&& nfl[k].1 % (ALIGN as int) == 0
            &&& 0 <= nfl[k].0
            &&& nfl[k].0 + 16 <= N
            &&& 0 <= nfl[k].1
            &&& nfl[k].0 < e
            &&& nfl[k].0 + nfl[k].1 <= e
            &&& new.w(nfl[k].0 + 8) == nfl[k].1 as u64
            &&& inside(new.regions@, nfl[k].0, nfl[k].1)
        } by {
            if k == m {
                assert(new.w(start + 8) == grown as u64);
            } else {
                let ok = Self::origin(fl, link, size, k);
                assert(nfl[k] == fl[ok]);
                if ok < j {
                    assert(fl[ok].0 + claim(fl[ok]) <= link);
                    if with_previous {
                        assert(fl[ok].0 + claim(fl[ok]) <= fl[j - 1].0);
                    }
                    if !with_previous && j > 0 && ok != j - 1 {
                        assert(fl[ok].0 + claim(fl[ok]) <= fl[j - 1].0);
                    }
                } else {
                    assert(link + size <= fl[ok].0);
                    if with_next {
                        assert(fl[j].0 + claim(fl[j]) <= fl[ok].0);
                    }
                }
                assert(new.w(fl[ok].0 + 8) == old.w(fl[ok].0 + 8));
            }
        }
    }

    #[verifier::spinoff_prover]
    #[verifier::rlimit(60)]
    proof fn lemma_inserted_links(old: Self, new: Self, link: int)
        requires
            Self::insert_words(old, new, link),
        ensures
            new.links_ok(),
    {
        reveal(Heap4::nodes_ok);
        reveal(Heap4::links_ok);
        reveal(Heap4::nodes_sorted);
        Self::lemma_insert_basics(old, link);
        Self::lemma_inserted_list(old, link);
        Self::lemma_geometry();
        let fl = old.free_list@;
        let size = old.live@[link].0;
        let e = old.end as int;
        let j = position(fl, link);
        let with_previous = j > 0 && fl[j - 1].0 + fl[j - 1].1 == link;
        let start = if with_previous { fl[j - 1].0 } else { link };
        let merged = if with_previous { fl[j - 1].1 + size } else { size };
        let with_next = j < fl.len() && start + merged == fl[j].0;
        let grown = if with_next { merged + fl[j].1 } else { merged };
        let m = if with_previous { j - 1 } else { j };
        let nfl = new.free_list@;
        assert(nfl == insert_block(fl, link, size));
        Self::lemma_insert_shape(fl, link, size);
        assert(new.end == old.end && new.regions@ == old.regions@);
        if with_previous {
            assert(fl[j - 1].0 + claim(fl[j - 1]) <= link);
        }
        assert forall|k: int| 0 <= k < nfl.len() implies #[trigger] new.w(nfl[k].0) == (if k + 1 < nfl.len() { nfl[k + 1].0 } else { e }) as u64 by {
            if k == m {
                assert(new.w(start) == (if with_next { if j + 1 < fl.len() { fl[j + 1].0 } else { e } } else { if j < fl.len() { fl[j].0 } else { e } }) as u64);
            } else {
                let ok = Self::origin(fl, link, size, k);
                assert(nfl[k] == fl[ok]);
                if !with_previous && j > 0 && ok == j - 1 {
                    assert(new.w(fl[ok].0) == link as u64);
                } else {
                    if ok < j {
                        assert(fl[ok].0 + claim(fl[ok]) <= link);
                        if with_previous && ok != j - 1 {
                            assert(fl[ok].0 + claim(fl[ok]) <= fl[j - 1].0);
                        }
                        if !with_previous && j > 0 {
                            assert(fl[ok].0 + claim(fl[ok]) <= fl[j - 1].0);
                        }
                    } else {
                        assert(link + size <= fl[ok].0);
                        if with_next {
                            assert(fl[j].0 + claim(fl[j]) <= fl[ok].0);
                        }
                    }
                    assert(new.w(fl[ok].0) == old.w(fl[ok].0));
                    assert(old.w(fl[ok].0) == (if ok + 1 < fl.len() { fl[ok + 1].0 } else { e }) as u64);
                    if k + 1 < nfl.len() && k + 1 != m {
                        assert(nfl[k + 1] == fl[Self::origin(fl, link, size, k + 1)]);
                    }
                }
            }
        }
    }

    proof fn lemma_inserted_sorted(old: Self, new: Self, link: int)
        requires
            Self::insert_words(old, new, link),
        ensures
            new.nodes_sorted(),
    {
        reveal(Heap4::nodes_sorted);
        Self::lemma_inserted_list(old, link);
    }

    #[verifier::spinoff_prover]
    #[verifier::rlimit(60)]
    proof fn lemma_inserted_live(old: Self, new: Self, link: int)
        requires
            Self::insert_words(old, new, link),
        ensures
            new.live_ok(),
            new.disjoint(),
            new.flags_ok(),
    {
        reveal(Heap4::nodes_ok);
        reveal(Heap4::nodes_sorted);
        reveal(Heap4::live_ok);
        reveal(Heap4::disjoint);
        reveal(Heap4::flags_ok);
        Self::lemma_insert_basics(old, link);
        Self::lemma_inserted_list(old, link);
        Self::lemma_geometry();
        let fl = old.free_list@;
        let lv = old.live@;
        let nlv = new.live@;
        let size = lv[link].0;
        let e = old.end as int;
        let j = position(fl, link);
        let with_previous = j > 0 && fl[j - 1].0 + fl[j - 1].1 == link;
        let start = if with_previous { fl[j - 1].0 } else { link };
        let merged = if with_previous { fl[j - 1].1 + size } else { size };
        let with_next = j < fl.len() && start + merged == fl[j].0;
        let grown = if with_next { merged + fl[j].1 } else { merged };
        let m = if with_previous { j - 1 } else { j };
        let nfl = new.free_list@;
        assert(nfl == insert_block(fl, link, size));
        Self::lemma_insert_shape(fl, link, size);
        assert(new.end == old.end && new.regions@ == old.regions@);
        assert(nlv == lv.remove(link));
        // Another live block lies clear of everything the insert touches.
        assert forall|a: int| #[trigger] nlv.contains_key(a) implies
            a + lv[a].0 <= start || start + grown <= a by {
            assert(lv.contains_key(a) && a != link);
            assert(a + lv[a].0 <= link || link + size <= a);
            if with_previous {
                assert(a + lv[a].0 <= fl[j - 1].0 || fl[j - 1].0 + claim(fl[j - 1]) <= a);
            }
            if with_next {
                assert(a + lv[a].0 <= fl[j].0 || fl[j].0 + claim(fl[j]) <= a);
            }
        }
        assert forall|a: int| #[trigger] nlv.contains_key(a) implies {
            &&& a % 8 == 0
            &&& a % (ALIGN as int) == 0
            &&& 0 <= a
            &&& nlv[a].0 >= 16
            &&& nlv[a].0 % (ALIGN as int) == 0
            &&& a + nlv[a].0 <= e
            &&& 0 <= nlv[a].1 <= u32::MAX
            &&& new.w(a) == nlv[a].1 as u64
            &&& new.w(a + 8) == (nlv[a].0 + ALLOCATED_BIT) as u64
            &&& inside(new.regions@, a, nlv[a].0)
        } by {
            assert(lv.contains_key(a) && nlv[a] == lv[a]);
            if !with_previous && j > 0 {
                assert(a + lv[a].0 <= fl[j - 1].0 || fl[j - 1].0 + claim(fl[j - 1]) <= a);
            }
            assert(new.w(a) == old.w(a));
            assert(new.w(a + 8) == old.w(a + 8));
        }
        assert forall|a: int, k: int|
            #![trigger nlv.contains_key(a), nfl[k]]
            nlv.contains_key(a) && 0 <= k < nfl.len() implies a + nlv[a].0 <= nfl[k].0 || nfl[k].0 + claim(nfl[k]) <= a by {
            if k != m {
                let ok = Self::origin(fl, link, size, k);
                assert(nfl[k] == fl[ok]);
                assert(a + lv[a].0 <= fl[ok].0 || fl[ok].0 + claim(fl[ok]) <= a);
            }
        }
        assert forall|a: int, b: int|
            #![trigger nlv.contains_key(a), nlv.contains_key(b)]
            nlv.contains_key(a) && nlv.contains_key(b) && a != b implies a + nlv[a].0 <= b || b + nlv[b].0 <= a by {
            assert(lv.contains_key(a) && lv.contains_key(b));
        }
        assert(grown <= e);
        assert forall|q: int| Self::word_slot(q) && flagged(#[trigger] new.w(q))
            implies nlv.contains_key(q - 8) || new.w(q) == NONE by {
            if q == start + 8 || q == start || q == link + 8 || (!with_previous && j > 0 && q == fl[j - 1].0) {
                assert(j + 1 < fl.len() ==> fl[j + 1].0 < e);
                assert(j < fl.len() ==> fl[j].0 < e);
            } else {
                assert(new.w(q) == old.w(q));
            }
        }
    }

    /// The insert keeps the arena well formed.
    #[verifier::spinoff_prover]
    proof fn lemma_inserted(old: Self, new: Self, link: int)
        requires
            Self::insert_words(old, new, link),
        ensures
            new.wf(),
    {
        assert(new.gens_ok()) by {
            reveal(Heap4::gens_ok);
            let lv = old.live@;
            let nlv = new.live@;
            if new.allocations + 1 < 0x1_0000_0000 {
                assert forall|a: int, b: int|
                    #![trigger nlv.contains_key(a), nlv.contains_key(b)]
                    nlv.contains_key(a) && nlv.contains_key(b) && a != b implies nlv[a].1 != nlv[b].1 by {
                    assert(lv.contains_key(a) && lv.contains_key(b));
                }
                assert forall|a: int| #[trigger] nlv.contains_key(a) implies nlv[a].1 <= new.allocations by {
                    assert(lv.contains_key(a));
                }
            }
        }
        Self::lemma_inserted_nodes(old, new, link);
        Self::lemma_inserted_links(old, new, link);
        Self::lemma_inserted_sorted(old, new, link);
        Self::lemma_inserted_live(old, new, link);
        Self::lemma_inserted_list(old, link);
        Self::lemma_insert_basics(old, link);
        let fl = old.free_list@;
        let nfl = new.free_list@;
        Self::lemma_insert_shape(fl, link, old.live@[link].0);
        if fl.len() > 0 {
            Self::lemma_node(old, 0);
        }
        if nfl.len() > 0 && Self::origin(fl, link, old.live@[link].0, 0) == 0 {
            assert(nfl[0].0 == fl[0].0 || nfl[0].0 == link);
        }
        assert(new.regions_ok());
        lemma_allocated_remove(old.live@, link);
        assert(new.apart_ok()) by {
            reveal(Heap4::apart_ok);
            reveal(Heap4::disjoint);
            Self::lemma_in_order(old);
            lemma_position(fl, link);
            let j = position(fl, link);
            let size = old.live@[link].0;
            Self::lemma_live_words(old, link);
            if j > 0 {
                assert(link + size <= fl[j - 1].0 || fl[j - 1].0 + claim(fl[j - 1]) <= link);
            }
            if j < fl.len() {
                assert(link + size <= fl[j].0 || fl[j].0 + claim(fl[j]) <= link);
            }
            lemma_apart_insert(fl, link, size);
        }
    }
}


impl<const N: usize, const ALIGN: usize, const LINK: usize> Heap4<N, ALIGN, LINK> {
    proof fn lemma_insert_compose(
        h0: Self, u0: Self, u1: Self, u2: Self, u3: Self, u4: Self,
        link: int, size: int, with_previous: bool, previous: int, with_next: bool,
        start: int, merged: int, grown: int, next: int, relink: bool, relink_at: int,
    )
        requires
            Self::wrote(h0, u0, link + 8, size as u64),
            with_previous ==> Self::wrote(u0, u1, previous + 8, merged as u64),
            !with_previous ==> Self::kept(u0, u1),
            with_next ==> Self::wrote(u1, u2, start + 8, grown as u64),
            !with_next ==> Self::kept(u1, u2),
            Self::wrote(u2, u3, start, next as u64),
            relink ==> Self::wrote(u3, u4, relink_at, link as u64),
            !relink ==> Self::kept(u3, u4),
            start == (if with_previous { previous } else { link }),
            !with_next ==> grown == merged,
            !with_previous ==> merged == size,
            link % 8 == 0,
            with_previous ==> previous + 16 <= link && previous % 8 == 0,
            relink ==> relink_at + 16 <= link && !with_previous,
        ensures
            forall|q: int| Self::word_slot(q) ==> #[trigger] u4.w(q) == (
                if q == start + 8 { grown as u64 }
                else if q == start { next as u64 }
                else if q == link + 8 { size as u64 }
                else if relink && q == relink_at { link as u64 }
                else { h0.w(q) }),
    {
        assert forall|q: int| Self::word_slot(q) implies #[trigger] u4.w(q) == (
                if q == start + 8 { grown as u64 }
                else if q == start { next as u64 }
                else if q == link + 8 { size as u64 }
                else if relink && q == relink_at { link as u64 }
                else { h0.w(q) }) by {
            assert(u4.w(q) == u4.w(q) && u3.w(q) == u3.w(q) && u2.w(q) == u2.w(q));
            assert(u1.w(q) == u1.w(q) && u0.w(q) == u0.w(q) && h0.w(q) == h0.w(q));
        }
    }

    /// `prvInsertBlockIntoFreeList`: address-ordered insert that coalesces
    /// with the block before and the block after. `h0` is the heap before the
    /// free began; since then only the block's size word was cleared and the
    /// free bytes counted.
    #[verifier::spinoff_prover]
    #[verifier::rlimit(100)]
    fn insert_into_free_list(&mut self, block: u64, Ghost(h0): Ghost<Self>)
        requires
            h0.wf(),
            h0.initialised,
            h0.live@.contains_key(block as int),
            Self::wrote(h0, *old(self), block + 8, h0.live@[block as int].0 as u64),
            old(self)@ == (HeapState { free_bytes: h0@.free_bytes + h0.live@[block as int].0, ..h0@ }),
            old(self).start_next == h0.start_next,
        ensures
            final(self).wf(),
            final(self)@ == Self::inserted(h0@, block as int),
            Self::insert_words(h0, *final(self), block as int),
    {
        let ghost fl = h0.free_list@;
        let ghost link = block as int;
        let ghost size = h0.live@[link].0;
        let ghost e = h0.end as int;
        let ghost u0 = *self;
        proof {
            Self::lemma_insert_basics(h0, link);
            Self::lemma_geometry();
            lemma_position(fl, link);
            lemma_flag_bits(size as u64);
            assert(u0.w(link + 8) == size as u64);
        }
        let mut insert = block;
        let mut insert_size = self.size_of(insert);
        assert(insert_size == size);

        // Walk to the position, which is the address order the whole design
        // rests on. `next` is carried rather than re-read.
        let mut iterator: Option<u64> = None;
        let mut next = self.start_next;
        let ghost mut j: int = 0;
        proof {
            if fl.len() > 0 {
                Self::lemma_node(h0, 0);
            }
        }
        while next < insert
            invariant
                0 <= j <= fl.len(),
                fl == h0.free_list@,
                insert == block,
                link == block as int,
                e == h0.end as int,
                h0.wf(),
                h0.initialised,
                Self::wrote(h0, *self, link + 8, size as u64),
                link + size <= e,
                size >= 16,
                next == (if j < fl.len() { fl[j].0 } else { e }) as u64,
                iterator == (if j == 0 { None } else { Some(fl[j - 1].0 as u64) }),
                forall|k: int| 0 <= k < j ==> (#[trigger] fl[k]).0 < link,
                e < 0x8000_0000_0000_0000,
            decreases fl.len() - j,
        {
            proof {
                if j < fl.len() {
                    Self::lemma_node(h0, j);
                    assert(self.w(fl[j].0) == h0.w(fl[j].0));
                }
            }
            iterator = Some(next);
            next = self.next_of(next);
            proof {
                j = j + 1;
            }
        }
        proof {
            lemma_position_at(fl, link, j);
            if j > 0 {
                Self::lemma_node(h0, j - 1);
            }
            if j < fl.len() {
                Self::lemma_node(h0, j);
            }
        }
        let ghost with_previous = j > 0 && fl[j - 1].0 + fl[j - 1].1 == link;
        let ghost start = if with_previous { fl[j - 1].0 } else { link };
        let ghost merged = if with_previous { fl[j - 1].1 + size } else { size };
        let ghost with_next = j < fl.len() && start + merged == fl[j].0;
        let ghost grown = if with_next { merged + fl[j].1 } else { merged };
        let ghost following = if j < fl.len() { fl[j].0 } else { e };
        let ghost after = if j + 1 < fl.len() { fl[j + 1].0 } else { e };
        let ghost previous_at = if j > 0 { fl[j - 1].0 } else { -1 };

        // Coalesce with the block BEFORE, if it ends exactly here. `xStart`
        // can never satisfy this: it is not in the arena.
        let ghost mut u1 = *self;
        if let Some(previous) = iterator {
            let previous_size = self.size_of(previous);
            proof {
                assert(self.w(fl[j - 1].0 + 8) == h0.w(fl[j - 1].0 + 8));
                lemma_flag_bits(fl[j - 1].1 as u64);
            }
            assert(previous_size == fl[j - 1].1);
            if previous.saturating_add(previous_size) == insert {
                insert_size = previous_size.saturating_add(insert_size);
                self.set_raw_size(previous, insert_size);
                insert = previous;
            }
            proof { u1 = *self; }
        }
        assert(insert == start);
        assert(insert_size == merged);
        assert(with_previous ==> Self::wrote(u0, u1, previous_at + 8, merged as u64));
        assert(!with_previous ==> Self::kept(u0, u1));

        // Coalesce with the block AFTER, unless that block is `pxEnd`, which
        // is a marker and must not be absorbed.
        let following_exec = next;
        let ghost u2 = *self;
        if insert.saturating_add(insert_size) == following_exec {
            if following_exec == self.end {
                self.set_next(insert, self.end);
            } else {
                let (after_exec, following_raw) = self.header_of(following_exec);
                proof {
                    assert(self.w(fl[j].0) == h0.w(fl[j].0));
                    assert(self.w(fl[j].0 + 8) == h0.w(fl[j].0 + 8));
                    lemma_flag_bits(fl[j].1 as u64);
                }
                assert(after_exec == after as u64);
                self.set_raw_size(insert, insert_size.saturating_add(following_raw & !ALLOCATED_BIT));
                let ghost u2b = *self;
                assert(Self::wrote(u1, u2b, start + 8, grown as u64));
                self.set_next(insert, after_exec);
                let ghost u3b = *self;
                assert(Self::wrote(u2b, u3b, start, after as u64));
                proof {
                    Self::lemma_insert_compose(h0, u0, u1, u2b, u3b, u3b, link, size, with_previous, previous_at,
                        true, start, merged, grown, after, false, 0);
                }
            }
        } else {
            self.set_next(insert, following_exec);
        }
        let ghost u3 = *self;
        assert(!with_next ==> Self::wrote(u2, u3, start, following as u64));

        // Only relink when the block did not merge into its predecessor; if it
        // did, the predecessor is already in the list.
        let ghost relink = !with_previous && j > 0;
        if insert != iterator.unwrap_or(NONE) {
            self.set_next_from(iterator, insert);
        }
        let ghost u4 = *self;
        assert(relink ==> Self::wrote(u3, u4, previous_at, link as u64));
        assert(!relink ==> Self::kept(u3, u4));
        proof {
            if !with_next {
                Self::lemma_insert_compose(h0, u0, u1, u2, u3, u4, link, size, with_previous, previous_at,
                    false, start, merged, grown, following, relink, previous_at);
            }
            self.free_list@ = insert_block(fl, link, size);
            self.live@ = h0.live@.remove(link);
            assert(self@ == Self::inserted(h0@, link));
            assert(self.start_next == (if !with_previous && j == 0 { link as u64 } else { h0.start_next }));
            assert(Self::kept(u4, *self));
            assert(forall|q: int| Self::word_slot(q) ==> #[trigger] self.w(q) == (
                if q == start + 8 { grown as u64 }
                else if q == start { (if with_next { after } else { following }) as u64 }
                else if q == link + 8 { size as u64 }
                else if !with_previous && j > 0 && q == fl[j - 1].0 { link as u64 }
                else { h0.w(q) }));
            assert(Self::insert_words(h0, *self, link));
            Self::lemma_inserted(h0, *self, link);
        }
    }
}


impl<const N: usize, const ALIGN: usize, const LINK: usize> Heap4<N, ALIGN, LINK> {
    /// The bytes `at..at + len` of `after` are those of `before`.
    pub open spec fn block_kept(before: Seq<u8>, after: Seq<u8>, at: int, len: int) -> bool {
        forall|i: int| at <= i < at + len ==> #[trigger] after[i] == before[i]
    }

    /// Every block allocated in `s` but the one at `except` holds the same
    /// bytes, header and user bytes alike, in `after` as in `before`.
    pub open spec fn others_kept(s: HeapState, before: Seq<u8>, after: Seq<u8>, except: int) -> bool {
        forall|a: int|
            #[trigger] s.live.contains_key(a) && a != except ==> Self::block_kept(before, after, a, s.live[a].0)
    }

    /// Every block allocated in `s` holds the same bytes in `after` as in
    /// `before` (no block starts at offset -1).
    pub open spec fn blocks_kept(s: HeapState, before: Seq<u8>, after: Seq<u8>) -> bool {
        Self::others_kept(s, before, after, -1)
    }

    /// Bytes whose words are all unchanged are unchanged.
    proof fn lemma_words_kept_bytes(h1: Self, h2: Self, a: int, len: int)
        requires
            0 <= a,
            a % 8 == 0,
            0 <= len,
            len % 8 == 0,
            a + len <= N,
            forall|q: int| Self::word_slot(q) && a <= q < a + len ==> #[trigger] h2.w(q) == h1.w(q),
        ensures
            Self::block_kept(h1.store@, h2.store@, a, len),
    {
        assert forall|i: int| a <= i < a + len implies #[trigger] h2.store@[i] == h1.store@[i] by {
            let d = (i - a) / 8;
            let r = (i - a) % 8;
            vstd::arithmetic::div_mod::lemma_fundamental_div_mod(i - a, 8);
            vstd::arithmetic::div_mod::lemma_fundamental_div_mod(len, 8);
            let q = a + 8 * d;
            assert(q % 8 == 0) by {
                vstd::arithmetic::div_mod::lemma_mod_multiples_vanish(d, a, 8);
            }
            assert(d < len / 8);
            assert(a <= q && q + 8 <= a + len);
            assert(Self::word_slot(q));
            assert(h2.w(q) == h1.w(q));
            lemma_word_bytes(h1.store@, h2.store@, q);
            assert(i == q + r);
        }
    }

    /// An allocated block's size is a whole number of words.
    proof fn lemma_live_words(h: Self, a: int)
        requires
            h.wf(),
            h.initialised,
            h.live@.contains_key(a),
        ensures
            a % 8 == 0,
            0 <= a,
            h.live@[a].0 >= 16,
            h.live@[a].0 % 8 == 0,
            a + h.live@[a].0 <= h.end <= N,
    {
        reveal(Heap4::live_ok);
        Self::lemma_geometry();
        let sz = h.live@[a].0;
        assert(sz % 8 == 0) by {
            vstd::arithmetic::div_mod::lemma_mod_mod(sz, 8, (ALIGN / 8) as int);
            assert(ALIGN == 8 * (ALIGN / 8));
        }
    }

    /// The allocation path writes no allocated block's bytes.
    proof fn lemma_taken_keeps(old: Self, new: Self, i: int, size: int)
        requires
            Self::taken_words(old, new, i, size),
        ensures
            Self::blocks_kept(old@, old.store@, new.store@),
    {
        let fl = old.free_list@;
        let lv = old.live@;
        let c = fl[i].0;
        reveal(Heap4::disjoint);
        Self::lemma_geometry();
        Self::lemma_node(old, i);
        if i > 0 {
            Self::lemma_node(old, i - 1);
        }
        assert forall|a: int| #[trigger] lv.contains_key(a) && a != -1 implies Self::block_kept(old.store@, new.store@, a, lv[a].0) by {
            Self::lemma_live_words(old, a);
            let sz = lv[a].0;
            assert(a + sz <= fl[i].0 || fl[i].0 + claim(fl[i]) <= a);
            if i > 0 {
                assert(a + sz <= fl[i - 1].0 || fl[i - 1].0 + claim(fl[i - 1]) <= a);
            }
            assert forall|q: int| Self::word_slot(q) && a <= q < a + sz implies #[trigger] new.w(q) == old.w(q) by {
                assert(q != c && q != c + 8);
            }
            Self::lemma_words_kept_bytes(old, new, a, sz);
        }
    }

    /// Putting a block back in the free list writes no other allocated
    /// block's bytes.
    proof fn lemma_inserted_keeps(old: Self, new: Self, link: int)
        requires
            Self::insert_words(old, new, link),
        ensures
            Self::others_kept(old@, old.store@, new.store@, link),
    {
        let fl = old.free_list@;
        let lv = old.live@;
        let j = position(fl, link);
        reveal(Heap4::disjoint);
        Self::lemma_geometry();
        lemma_position(fl, link);
        Self::lemma_live_words(old, link);
        if j > 0 {
            Self::lemma_node(old, j - 1);
        }
        assert forall|a: int| #[trigger] lv.contains_key(a) && a != link implies Self::block_kept(old.store@, new.store@, a, lv[a].0) by {
            Self::lemma_live_words(old, a);
            let sz = lv[a].0;
            assert(lv.contains_key(link));
            assert(a + sz <= link || link + lv[link].0 <= a);
            if j > 0 {
                assert(a + sz <= fl[j - 1].0 || fl[j - 1].0 + claim(fl[j - 1]) <= a);
            }
            Self::lemma_words_kept_bytes(old, new, a, sz);
        }
    }
}


impl<const N: usize, const ALIGN: usize, const LINK: usize> Heap4<N, ALIGN, LINK> {
    /// The outcome `vPortFree` owes for the user offset `user`, checked against
    /// `generation` when one is given: refused as not this allocator's when it
    /// is before the first header, past the arena or off the alignment;
    /// refused as gone when no allocated block starts there (or another
    /// allocation lives there now); and otherwise freed.
    pub open spec fn free_spec(old: HeapState, user: int, generation: Option<u32>, new: HeapState, r: Result<(), Error>) -> bool {
        let s = Self::header_size();
        let link = user - s;
        if user < s || user > N || link % (ALIGN as int) != 0 {
            r == Err::<(), Error>(Error::InvalidArgument) && new == old
        } else if !old.live.contains_key(link) || (generation matches Some(g) && old.live[link].1 != g) {
            r == Err::<(), Error>(Error::Gone) && new == old
        } else {
            r == Ok::<(), Error>(()) && new == Self::freed(old, link)
        }
    }

    /// Whether an allocated block's header is at `link`: the heap is laid
    /// out, the header's size word carries the allocated flag, and the size it
    /// records fits inside the heap.
    #[verifier::spinoff_prover]
    fn holds(&self, link: u64) -> (r: bool)
        requires
            self.wf(),
            link % 8 == 0,
        ensures
            r == self@.live.contains_key(link as int),
    {
        if !self.initialised {
            return false;
        }
        proof {
            reveal(Heap4::live_ok);
            reveal(Heap4::flags_ok);
            Self::lemma_geometry();
        }
        if !self.is_allocated(link) || link >= self.end {
            proof {
                if self.live@.contains_key(link as int) {
                    lemma_flag_bits(self.w(link + 8));
                    assert(self.w(link + 8) == (self.live@[link as int].0 + ALLOCATED_BIT) as u64);
                }
            }
            return false;
        }
        let size = self.size_of(link);
        proof {
            let raw = self.w(link + 8);
            lemma_flag_bits(raw);
            assert(Self::word_slot(link + 8));
            assert(self.live@.contains_key(link as int) || raw == NONE);
            if self.live@.contains_key(link as int) {
                assert(raw == (self.live@[link as int].0 + ALLOCATED_BIT) as u64);
            }
        }
        size <= self.end - link
    }

    /// The part of `vPortFree` after the checks: clear the allocated flag,
    /// count the bytes, and put the block back in the free list.
    fn free_at(&mut self, link: u64)
        requires
            old(self).wf(),
            old(self).initialised,
            old(self)@.live.contains_key(link as int),
        ensures
            final(self).wf(),
            final(self)@ == Self::freed(old(self)@, link as int),
            Self::others_kept(old(self)@, old(self).store@, final(self).store@, link as int),
    {
        let ghost h0 = *self;
        let ghost size = h0.live@[link as int].0;
        proof {
            Self::lemma_insert_basics(h0, link as int);
            Self::lemma_inserted_list(h0, link as int);
            reveal(Heap4::live_ok);
            lemma_flag_bits(self.w(link + 8));
            lemma_flag_bits(size as u64);
        }
        // `heapFREE_BLOCK`.
        let raw = self.raw_size_of(link);
        self.set_raw_size(link, raw & !ALLOCATED_BIT);
        assert(Self::wrote(h0, *self, link + 8, size as u64));
        let freed = self.size_of(link);
        assert(freed == size);
        let ghost h1 = *self;
        self.free_bytes = self.free_bytes.saturating_add(freed as usize);
        proof {
            assert(self.store == h1.store);
            assert forall|q: int| Self::word_slot(q) implies #[trigger] self.w(q) == (if q == link + 8 { size as u64 } else { h0.w(q) }) by {
                assert(self.w(q) == h1.w(q));
            }
        }
        self.insert_into_free_list(link, Ghost(h0));
        let ghost h2 = *self;
        self.frees = self.frees.saturating_add(1);
        proof {
            Self::lemma_wf_frame(h2, *self);
            Self::lemma_inserted_keeps(h0, h2, link as int);
            assert(self.store == h2.store);
        }
    }

    /// `vPortFree`, taking the [`Block`] [`Heap4::allocate`] answered.
    ///
    /// Refuses, rather than ignores, what `vPortFree` asserts on: an offset this
    /// allocator could not have handed out (before the first block, past the
    /// arena, or off the alignment, which also catches an interior offset) is
    /// `InvalidArgument`; a block that is not allocated (a double free, or an
    /// offset never handed out) or that has been handed out again since this
    /// [`Block`] was is `Gone`. A refused free changes nothing.
    pub fn free(&mut self, block: Block) -> (r: Result<(), Error>)
        requires
            old(self).wf(),
        ensures
            final(self).wf(),
            Self::free_spec(old(self)@, block@.0 as int, Some(block@.1), final(self)@, r),
            r is Err ==> final(self).arena() == old(self).arena(),
            Self::others_kept(old(self)@, old(self).arena(), final(self).arena(), block@.0 - Self::header_size()),
    {
        let user = block.offset();
        let link = match self.link_of(user) {
            Some(l) => l,
            None => return Err(Error::InvalidArgument),
        };
        // The allocated flag FIRST: a free block's link word holds a next
        // pointer, and reading that as a generation is how this check would
        // fool itself.
        if !self.holds(link) {
            return Err(Error::Gone);
        }
        proof {
            reveal(Heap4::live_ok);
        }
        if self.next_of(link) != block.generation() as u64 {
            return Err(Error::Gone);
        }
        self.free_at(link);
        Ok(())
    }

    /// `vPortFree`, taking a bare offset: the protection an address can carry,
    /// which is the `heap_4` scheme's. A double free is caught; a free of a block that
    /// has been handed out again is not, because an address alone cannot
    /// tell the two allocations apart.
    pub fn free_raw(&mut self, offset: u64) -> (r: Result<(), Error>)
        requires
            old(self).wf(),
        ensures
            final(self).wf(),
            Self::free_spec(old(self)@, offset as int, None, final(self)@, r),
            r is Err ==> final(self).arena() == old(self).arena(),
            Self::others_kept(old(self)@, old(self).arena(), final(self).arena(), offset - Self::header_size()),
    {
        let link = match self.link_of(offset) {
            Some(l) => l,
            None => return Err(Error::InvalidArgument),
        };
        if !self.holds(link) {
            return Err(Error::Gone);
        }
        self.free_at(link);
        Ok(())
    }

    /// `heapVALIDATE_BLOCK_POINTER`, and then the part it does not do: the
    /// header offset behind a user offset, when one could be there at all.
    fn link_of(&self, user: u64) -> (r: Option<u64>)
        requires
            self.wf(),
        ensures
            ({
                let s = Self::header_size();
                let link = user - s;
                match r {
                    None => user < s || user > N || link % (ALIGN as int) != 0,
                    Some(l) => !(user < s || user > N || link % (ALIGN as int) != 0) && l == link && l % 8 == 0,
                }
            }),
    {
        let header = Self::struct_size() as u64;
        let link = match user.checked_sub(header) {
            Some(l) => l,
            None => return None,
        };
        // A block start is always aligned, so an offset that is not cannot
        // name one: the cheapest way to refuse an interior offset.
        if link.saturating_add(header) > N as u64 || link.checked_rem(ALIGN as u64) != Some(0) {
            return None;
        }
        proof {
            Self::lemma_geometry();
            assert(link % 8 == 0) by {
                vstd::arithmetic::div_mod::lemma_mod_mod(link as int, 8, (ALIGN / 8) as int);
                assert(ALIGN == 8 * (ALIGN / 8));
            }
        }
        Some(link)
    }
}


impl<const N: usize, const ALIGN: usize, const LINK: usize> Default for Heap4<N, ALIGN, LINK> {
    /// An uninitialised arena, as [`Heap4::new`].
    fn default() -> (h: Self)
        ensures
            Self::geometry() ==> h.wf(),
            h@ == Self::fresh(),
    {
        Self::new()
    }
}


/// `a + b`, saturating at `usize::MAX`.
pub open spec fn sat_add(a: int, b: int) -> int {
    if a + b > usize::MAX { usize::MAX as int } else { a + b }
}

/// `a - b`, saturating at zero.
pub open spec fn sat_sub(a: int, b: int) -> int {
    if a - b < 0 { 0 } else { a - b }
}

impl<const N: usize, const ALIGN: usize, const LINK: usize> Heap4<N, ALIGN, LINK> {
    /// Where a region's block starts: its start aligned up.
    pub open spec fn region_start(r: Region) -> int {
        align_up(r.start, ALIGN) as int
    }

    /// How many of a region's bytes are left once its start is aligned.
    pub open spec fn region_size(r: Region) -> int {
        sat_sub(r.size as int, sat_sub(Self::region_start(r), r.start as int))
    }

    /// Where a region's end marker sits: its top less a header, aligned down.
    pub open spec fn region_end(r: Region) -> int {
        let raw = sat_sub(sat_add(Self::region_start(r), Self::region_size(r)), Self::header_size());
        align_down(raw as usize, ALIGN) as int
    }

    /// A region that fits the arena and has room for a block and its marker.
    pub open spec fn region_fits(r: Region) -> bool {
        &&& sat_add(Self::region_start(r), Self::region_size(r)) <= N
        &&& Self::region_end(r) > Self::region_start(r)
        &&& sat_add(Self::region_end(r), Self::header_size()) <= N
    }

    /// Region `k` fits and starts after the marker of region `k - 1`.
    pub open spec fn region_good(rs: Seq<Region>, k: int) -> bool {
        &&& Self::region_fits(rs[k])
        &&& k > 0 ==> Self::region_start(rs[k]) > Self::region_end(rs[k - 1])
    }

    /// The first region from `k` on that is refused, or `rs.len()`.
    pub open spec fn first_refused(rs: Seq<Region>, k: int) -> int
        decreases rs.len() - k,
    {
        if k >= rs.len() || k < 0 {
            rs.len() as int
        } else if !Self::region_good(rs, k) {
            k
        } else {
            Self::first_refused(rs, k + 1)
        }
    }

    /// The regions as laid out: (first block, end marker) for each.
    pub open spec fn laid_regions(rs: Seq<Region>, n: int) -> Seq<(int, int)> {
        Seq::new(n as nat, |k: int| (Self::region_start(rs[k]), Self::region_end(rs[k])))
    }

    /// The free list `vPortDefineHeapRegions` threads through the first `n`
    /// regions: each region's block, then (for all but the last) its marker.
    pub open spec fn laid_list(rs: Seq<Region>, n: int) -> Seq<(int, int)> {
        if n <= 0 {
            Seq::empty()
        } else {
            Seq::new((2 * n - 1) as nat, |x: int|
                if x % 2 == 0 {
                    (Self::region_start(rs[x / 2]), Self::region_end(rs[x / 2]) - Self::region_start(rs[x / 2]))
                } else {
                    (Self::region_end(rs[x / 2]), 0int)
                })
        }
    }

    /// The bytes of the blocks of the first `n` regions.
    pub open spec fn laid_total(rs: Seq<Region>, n: int) -> int
        decreases n,
    {
        if n <= 0 {
            0
        } else {
            Self::laid_total(rs, n - 1) + Self::region_end(rs[n - 1]) - Self::region_start(rs[n - 1])
        }
    }

    /// A layout the arena can be well formed over: every block but the last
    /// holds both header words, and every marker but the last keeps its two
    /// words clear of the next region.
    pub open spec fn layout_sound(rs: Seq<Region>, n: int) -> bool {
        forall|k: int| 0 <= k < n - 1 ==> {
            &&& Self::region_end(#[trigger] rs[k]) - Self::region_start(rs[k]) >= 16
            &&& Self::region_end(rs[k]) + 16 <= Self::region_start(rs[k + 1])
        }
    }

    /// The outcome `vPortDefineHeapRegions` owes.
    pub open spec fn define_spec(old: HeapState, rs: Seq<Region>, new: HeapState, r: Result<(), Error>) -> bool {
        let f = Self::first_refused(rs, 0);
        if old.initialised {
            r == Err::<(), Error>(Error::Busy) && new == old
        } else if rs.len() == 0 {
            r == Err::<(), Error>(Error::InvalidArgument) && new == old
        } else if f < rs.len() {
            &&& r == Err::<(), Error>(Error::InvalidArgument)
            &&& new == (HeapState { end: if f == 0 { old.end } else { Self::region_end(rs[f - 1]) }, ..old })
        } else {
            &&& r == Ok::<(), Error>(())
            &&& new == (HeapState {
                initialised: true,
                end: Self::region_end(rs.last()),
                regions: Self::laid_regions(rs, rs.len() as int),
                free_list: Self::laid_list(rs, rs.len() as int),
                live: Map::empty(),
                free_bytes: Self::laid_total(rs, rs.len() as int),
                minimum_ever_free: Self::laid_total(rs, rs.len() as int),
                ..old
            })
        }
    }

    /// `first_refused(rs, k)` is the first region from `k` on that
    /// `define_regions` refuses, or the number of regions when it refuses
    /// none of them.
    pub proof fn lemma_first_refused(rs: Seq<Region>, k: int)
        requires
            0 <= k <= rs.len(),
        ensures
            k <= Self::first_refused(rs, k) <= rs.len(),
            forall|x: int| k <= x < Self::first_refused(rs, k) ==> Self::region_good(rs, x),
            Self::first_refused(rs, k) < rs.len() ==> !Self::region_good(rs, Self::first_refused(rs, k)),
        decreases rs.len() - k,
    {
        if k < rs.len() && Self::region_good(rs, k) {
            Self::lemma_first_refused(rs, k + 1);
        }
    }

    /// What a region that fits looks like.
    proof fn lemma_region(r: Region)
        requires
            Self::geometry(),
            Self::region_fits(r),
        ensures
            Self::region_start(r) % (ALIGN as int) == 0,
            Self::region_start(r) % 8 == 0,
            Self::region_end(r) % (ALIGN as int) == 0,
            Self::region_end(r) % 8 == 0,
            0 <= Self::region_start(r),
            Self::region_start(r) + 8 <= Self::region_end(r),
            Self::region_end(r) + 8 <= N,
            Self::region_start(r) + 16 <= N,
            (Self::region_end(r) - Self::region_start(r)) % (ALIGN as int) == 0,
    {
        Self::lemma_geometry();
        lemma_align_up(r.start, ALIGN);
        let raw = sat_sub(sat_add(Self::region_start(r), Self::region_size(r)), Self::header_size());
        lemma_align_down(raw as usize, ALIGN);
        let st = Self::region_start(r);
        let en = Self::region_end(r);
        assert(en - st >= ALIGN) by {
            vstd::arithmetic::div_mod::lemma_sub_mod_noop(en, st, ALIGN as int);
            assert((en - st) % (ALIGN as int) == 0);
            assert(en - st >= ALIGN) by (nonlinear_arith)
                requires (en - st) % (ALIGN as int) == 0, en - st > 0, ALIGN > 0;
        }
        vstd::arithmetic::div_mod::lemma_sub_mod_noop(en, st, ALIGN as int);
    }

    proof fn lemma_laid_total(rs: Seq<Region>, n: int)
        requires
            Self::geometry(),
            0 <= n <= rs.len(),
            forall|k: int| 0 <= k < n ==> Self::region_good(rs, k),
        ensures
            0 <= Self::laid_total(rs, n),
            n > 0 ==> Self::laid_total(rs, n) <= Self::region_end(rs[n - 1]),
            n > 0 ==> Self::laid_total(rs, n) > 0,
            total(Self::laid_list(rs, n)) == Self::laid_total(rs, n),
        decreases n,
    {
        if n > 0 {
            Self::lemma_laid_total(rs, n - 1);
            assert(Self::region_good(rs, n - 1));
            Self::lemma_region(rs[n - 1]);
            let l = Self::laid_list(rs, n);
            let b = (Self::region_start(rs[n - 1]), Self::region_end(rs[n - 1]) - Self::region_start(rs[n - 1]));
            if n == 1 {
                assert(l =~= seq![b]);
                crate::free_list::lemma_total_single(b);
            } else {
                assert(Self::region_good(rs, n - 2));
                Self::lemma_region(rs[n - 2]);
                let mk = (Self::region_end(rs[n - 2]), 0int);
                let p = Self::laid_list(rs, n - 1);
                assert(l =~= p + seq![mk] + seq![b]);
                crate::free_list::lemma_total_append(p + seq![mk], seq![b]);
                crate::free_list::lemma_total_append(p, seq![mk]);
                crate::free_list::lemma_total_single(b);
                crate::free_list::lemma_total_single(mk);
            }
        }
    }
}


impl<const N: usize, const ALIGN: usize, const LINK: usize> Heap4<N, ALIGN, LINK> {
    #[verifier::spinoff_prover]
    #[verifier::rlimit(60)]
    proof fn lemma_laid_order(rs: Seq<Region>, n: int)
        requires
            Self::geometry(),
            0 <= n <= rs.len(),
            forall|k: int| 0 <= k < n ==> Self::region_good(rs, k),
        ensures
            forall|a: int, b: int| 0 <= a < b < n ==> Self::region_end(#[trigger] rs[a]) < Self::region_start(#[trigger] rs[b]),
            Self::layout_sound(rs, n) ==> forall|a: int, b: int| 0 <= a < b < n ==>
                Self::region_end(#[trigger] rs[a]) + 16 <= Self::region_start(#[trigger] rs[b]),
        decreases n,
    {
        if n > 1 {
            Self::lemma_laid_order(rs, n - 1);
            assert(Self::layout_sound(rs, n) ==> Self::layout_sound(rs, n - 1));
            assert forall|a: int, b: int| 0 <= a < b < n implies Self::region_end(#[trigger] rs[a]) < Self::region_start(#[trigger] rs[b])
                && (Self::layout_sound(rs, n) ==> Self::region_end(rs[a]) + 16 <= Self::region_start(rs[b])) by {
                assert(Self::region_good(rs, b));
                if b == n - 1 && a < n - 2 {
                    assert(Self::region_good(rs, n - 2));
                    Self::lemma_region(rs[n - 2]);
                    assert(Self::region_end(rs[a]) < Self::region_start(rs[n - 2]));
                    if Self::layout_sound(rs, n - 1) {
                        assert(Self::region_end(rs[a]) + 16 <= Self::region_start(rs[n - 2]));
                    }
                }
                if b == n - 1 && Self::layout_sound(rs, n) {
                    assert(Self::region_end(rs[n - 2]) + 16 <= Self::region_start(rs[n - 1]));
                }
            }
        }
    }

    /// The words `vPortDefineHeapRegions` leaves over the first `n` regions of
    /// a sound layout: each block's header, and each marker's (the last
    /// marker's link aside, which nothing reads).
    spec fn laid_words(h: Self, rs: Seq<Region>, n: int) -> bool {
        &&& forall|k: int| 0 <= k < n ==> #[trigger] h.w(Self::region_start(rs[k]) + 8) == (Self::region_end(rs[k]) - Self::region_start(rs[k])) as u64
        &&& forall|k: int| 0 <= k < n ==> #[trigger] h.w(Self::region_start(rs[k])) == Self::region_end(rs[k]) as u64
        &&& forall|k: int| 0 <= k < n - 1 ==> #[trigger] h.w(Self::region_end(rs[k])) == Self::region_start(rs[k + 1]) as u64
        &&& forall|k: int| 0 <= k < n && Self::region_end(rs[k]) + 16 <= N ==> #[trigger] h.w(Self::region_end(rs[k]) + 8) == 0
    }

    /// What a region that fits looks like, collected.
    pub open spec fn region_facts(r: Region) -> bool {
        &&& Self::region_start(r) % (ALIGN as int) == 0
        &&& Self::region_start(r) % 8 == 0
        &&& Self::region_end(r) % (ALIGN as int) == 0
        &&& Self::region_end(r) % 8 == 0
        &&& 0 <= Self::region_start(r)
        &&& Self::region_start(r) + 8 <= Self::region_end(r)
        &&& Self::region_end(r) + 8 <= N
        &&& Self::region_start(r) + 16 <= N
        &&& (Self::region_end(r) - Self::region_start(r)) % (ALIGN as int) == 0
    }

    proof fn lemma_laid_facts(rs: Seq<Region>, n: int)
        requires
            Self::geometry(),
            0 < n <= rs.len(),
            forall|k: int| 0 <= k < n ==> Self::region_good(rs, k),
        ensures
            forall|k: int| 0 <= k < n ==> Self::region_facts(#[trigger] rs[k])
                && Self::region_end(rs[k]) <= Self::region_end(rs[n - 1]),
    {
        Self::lemma_laid_order(rs, n);
        assert forall|k: int| 0 <= k < n implies Self::region_facts(#[trigger] rs[k])
            && Self::region_end(rs[k]) <= Self::region_end(rs[n - 1]) by {
            assert(Self::region_good(rs, k));
            Self::lemma_region(rs[k]);
            if k < n - 1 {
                assert(Self::region_end(rs[k]) < Self::region_start(rs[n - 1]));
                assert(Self::region_good(rs, n - 1));
                Self::lemma_region(rs[n - 1]);
            }
        }
    }

    /// Region `k`'s block lies inside the laid-out regions.
    #[verifier::spinoff_prover]
    #[verifier::rlimit(40)]
    proof fn lemma_laid_block(rs: Seq<Region>, n: int, k: int)
        requires
            Self::geometry(),
            0 < n <= rs.len(),
            forall|x: int| 0 <= x < n ==> Self::region_good(rs, x),
            0 <= k < n,
        ensures
            inside(Self::laid_regions(rs, n), Self::region_start(rs[k]), Self::region_end(rs[k]) - Self::region_start(rs[k])),
    {
        let rg = Self::laid_regions(rs, n);
        Self::lemma_laid_order(rs, n);
        Self::lemma_laid_facts(rs, n);
        let st = Self::region_start(rs[k]);
        let en = Self::region_end(rs[k]);
        assert(rs[k] == rs[k] && rs[0] == rs[0] && rs[n - 1] == rs[n - 1]);
        if k > 0 {
            assert(Self::region_end(rs[0]) < Self::region_start(rs[k]));
        }
        assert(rg.last() == (Self::region_start(rs[n - 1]), Self::region_end(rs[n - 1])));
        assert forall|r: int| 0 <= r < rg.len() - 1 implies en <= #[trigger] rg[r].1 || st >= rg[r + 1].0 by {
            assert(rg[r] == (Self::region_start(rs[r]), Self::region_end(rs[r])));
            assert(rg[r + 1] == (Self::region_start(rs[r + 1]), Self::region_end(rs[r + 1])));
            assert(rs[r] == rs[r] && rs[r + 1] == rs[r + 1]);
            if r + 1 < k {
                assert(Self::region_end(rs[r + 1]) < st);
            } else if r > k {
                assert(en < Self::region_start(rs[r]));
            }
        }
        assert(inside(rg, st, en - st)) by {
            reveal(inside);
        }
    }

    /// Region `k`'s end marker, for all but the last region, lies inside the
    /// laid-out regions.
    #[verifier::spinoff_prover]
    #[verifier::rlimit(40)]
    proof fn lemma_laid_marker(rs: Seq<Region>, n: int, k: int)
        requires
            Self::geometry(),
            0 < n <= rs.len(),
            forall|x: int| 0 <= x < n ==> Self::region_good(rs, x),
            0 <= k < n - 1,
        ensures
            inside(Self::laid_regions(rs, n), Self::region_end(rs[k]), 0),
    {
        let rg = Self::laid_regions(rs, n);
        Self::lemma_laid_order(rs, n);
        Self::lemma_laid_facts(rs, n);
        let en = Self::region_end(rs[k]);
        assert(rs[k] == rs[k] && rs[0] == rs[0] && rs[n - 1] == rs[n - 1]);
        assert(Self::region_start(rs[0]) <= en);
        assert(rg.last() == (Self::region_start(rs[n - 1]), Self::region_end(rs[n - 1])));
        assert forall|r: int| 0 <= r < rg.len() - 1 implies en <= #[trigger] rg[r].1 || en >= rg[r + 1].0 by {
            assert(rg[r] == (Self::region_start(rs[r]), Self::region_end(rs[r])));
            assert(rg[r + 1] == (Self::region_start(rs[r + 1]), Self::region_end(rs[r + 1])));
            assert(rs[r] == rs[r] && rs[r + 1] == rs[r + 1]);
            if r + 1 <= k {
                assert(Self::region_start(rs[r + 1]) <= en);
            } else {
                assert(en <= Self::region_end(rs[r]));
            }
        }
        assert(inside(rg, en, 0)) by {
            reveal(inside);
        }
    }

    #[verifier::spinoff_prover]
    #[verifier::rlimit(100)]
    proof fn lemma_laid_nodes(h: Self, rs: Seq<Region>)
        requires
            Self::geometry(),
            rs.len() > 0,
            forall|k: int| 0 <= k < rs.len() ==> Self::region_good(rs, k),
            Self::layout_sound(rs, rs.len() as int),
            Self::laid_words(h, rs, rs.len() as int),
            h.initialised,
            h.end as int == Self::region_end(rs.last()),
            h.regions@ == Self::laid_regions(rs, rs.len() as int),
            h.free_list@ == Self::laid_list(rs, rs.len() as int),
        ensures
            h.nodes_ok(),
    {
        reveal(Heap4::nodes_ok);
        let n = rs.len() as int;
        let fl = h.free_list@;
        let e = h.end as int;
        Self::lemma_laid_facts(rs, n);
        assert forall|x: int| 0 <= x < fl.len() implies {
            &&& (#[trigger] fl[x]).0 % 8 == 0
            &&& fl[x].0 % (ALIGN as int) == 0
            &&& fl[x].1 % (ALIGN as int) == 0
            &&& 0 <= fl[x].0
            &&& fl[x].0 + 16 <= N
            &&& 0 <= fl[x].1
            &&& fl[x].0 < e
            &&& fl[x].0 + fl[x].1 <= e
            &&& h.w(fl[x].0 + 8) == fl[x].1 as u64
            &&& inside(h.regions@, fl[x].0, fl[x].1)
        } by {
            let k = x / 2;
            assert(rs[k] == rs[k] && rs[n - 1] == rs[n - 1]);
            if x % 2 == 0 {
                assert(fl[x] == (Self::region_start(rs[k]), Self::region_end(rs[k]) - Self::region_start(rs[k])));
                Self::lemma_laid_block(rs, n, k);
            } else {
                assert(fl[x] == (Self::region_end(rs[k]), 0int));
                assert(Self::region_end(rs[k]) + 16 <= Self::region_start(rs[k + 1]));
                assert(rs[k + 1] == rs[k + 1]);
                Self::lemma_laid_order(rs, n);
                assert(Self::region_end(rs[k]) < Self::region_start(rs[n - 1]));
                Self::lemma_laid_marker(rs, n, k);
            }
        }
    }

    #[verifier::spinoff_prover]
    #[verifier::rlimit(100)]
    proof fn lemma_laid_links(h: Self, rs: Seq<Region>)
        requires
            Self::geometry(),
            rs.len() > 0,
            forall|k: int| 0 <= k < rs.len() ==> Self::region_good(rs, k),
            Self::layout_sound(rs, rs.len() as int),
            Self::laid_words(h, rs, rs.len() as int),
            forall|q: int| Self::word_slot(q) && flagged(#[trigger] h.w(q)) ==> h.w(q) == NONE,
            h.initialised,
            h.end as int == Self::region_end(rs.last()),
            h.regions@ == Self::laid_regions(rs, rs.len() as int),
            h.free_list@ == Self::laid_list(rs, rs.len() as int),
            h.live@ == Map::<int, (int, int)>::empty(),
            h.start_next == Self::region_start(rs[0]) as u64,
            h.free_bytes == Self::laid_total(rs, rs.len() as int),
            h.minimum_ever_free == h.free_bytes,
        ensures
            h.links_ok(),
    {
        reveal(Heap4::links_ok);
        let n = rs.len() as int;
        let fl = h.free_list@;
        let rg = h.regions@;
        let e = h.end as int;
        Self::lemma_laid_order(rs, n);
        Self::lemma_laid_total(rs, n);
        Self::lemma_geometry();
        assert forall|x: int| 0 <= x < fl.len() implies #[trigger] h.w(fl[x].0) == (if x + 1 < fl.len() { fl[x + 1].0 } else { e }) as u64 by {
            let k = x / 2;
            if x % 2 == 0 {
                assert(fl[x].0 == Self::region_start(rs[k]));
                assert(h.w(Self::region_start(rs[k])) == Self::region_end(rs[k]) as u64);
                if x + 1 < fl.len() {
                    assert(fl[x + 1] == (Self::region_end(rs[k]), 0int));
                }
            } else {
                assert(fl[x].0 == Self::region_end(rs[k]));
                assert(h.w(Self::region_end(rs[k])) == Self::region_start(rs[k + 1]) as u64);
                assert(fl[x + 1].0 == Self::region_start(rs[k + 1]));
            }
        }
    }

    #[verifier::spinoff_prover]
    #[verifier::rlimit(60)]
    proof fn lemma_laid_sorted(h: Self, rs: Seq<Region>)
        requires
            Self::geometry(),
            rs.len() > 0,
            forall|k: int| 0 <= k < rs.len() ==> Self::region_good(rs, k),
            Self::layout_sound(rs, rs.len() as int),
            h.free_list@ == Self::laid_list(rs, rs.len() as int),
        ensures
            h.nodes_sorted(),
    {
        reveal(Heap4::nodes_sorted);
        let n = rs.len() as int;
        let fl = h.free_list@;
        Self::lemma_laid_order(rs, n);
        Self::lemma_laid_facts(rs, n);
        assert forall|a: int, b: int| 0 <= a < b < fl.len() implies (#[trigger] fl[a]).0 + claim(fl[a]) <= (#[trigger] fl[b]).0 by {
            let ka = a / 2;
            let kb = b / 2;
            assert(rs[ka] == rs[ka] && rs[kb] == rs[kb]);
            assert(fl[b].0 >= Self::region_start(rs[kb]));
            if a % 2 == 0 {
                assert(ka < n - 1);
                assert(Self::region_end(rs[ka]) - Self::region_start(rs[ka]) >= 16);
                if kb > ka {
                    assert(Self::region_end(rs[ka]) < Self::region_start(rs[kb]));
                }
            } else {
                assert(kb > ka);
                assert(rs[ka + 1] == rs[ka + 1]);
                assert(Self::region_end(rs[ka]) + 16 <= Self::region_start(rs[ka + 1]));
                if kb > ka + 1 {
                    assert(Self::region_end(rs[ka + 1]) < Self::region_start(rs[kb]));
                }
            }
        }
    }

    /// A sound layout, laid out, is a well-formed arena.
    #[verifier::spinoff_prover]
    #[verifier::rlimit(60)]
    proof fn lemma_laid_wf(h: Self, rs: Seq<Region>)
        requires
            Self::geometry(),
            rs.len() > 0,
            forall|k: int| 0 <= k < rs.len() ==> Self::region_good(rs, k),
            Self::layout_sound(rs, rs.len() as int),
            Self::laid_words(h, rs, rs.len() as int),
            forall|q: int| Self::word_slot(q) && flagged(#[trigger] h.w(q)) ==> h.w(q) == NONE,
            h.initialised,
            h.end as int == Self::region_end(rs.last()),
            h.regions@ == Self::laid_regions(rs, rs.len() as int),
            h.free_list@ == Self::laid_list(rs, rs.len() as int),
            h.live@ == Map::<int, (int, int)>::empty(),
            h.start_next == Self::region_start(rs[0]) as u64,
            h.free_bytes == Self::laid_total(rs, rs.len() as int),
            h.minimum_ever_free == h.free_bytes,
            h.gens_ok(),
        ensures
            h.wf(),
    {
        Self::lemma_laid_nodes(h, rs);
        Self::lemma_laid_links(h, rs);
        Self::lemma_laid_sorted(h, rs);
        assert(h.apart_ok()) by {
            reveal(Heap4::apart_ok);
            let fl = h.free_list@;
            assert forall|a: int, b: int| #![trigger fl[a], fl[b]]
                0 <= a && b == a + 1 && b < fl.len() && fl[b].1 != 0 implies fl[a].0 + fl[a].1 < fl[b].0 by {
                if b % 2 == 1 {
                    assert(fl[b].1 == 0);
                } else {
                    let k = a / 2;
                    assert(a % 2 == 1 && b / 2 == k + 1);
                    assert(fl[a] == (Self::region_end(rs[k]), 0int));
                    assert(fl[b].0 == Self::region_start(rs[k + 1]));
                    assert(Self::region_good(rs, k + 1));
                }
            }
        }
        reveal(Heap4::live_ok);
        reveal(Heap4::disjoint);
        reveal(Heap4::flags_ok);
        let n = rs.len() as int;
        let fl = h.free_list@;
        let rg = h.regions@;
        let e = h.end as int;
        Self::lemma_laid_order(rs, n);
        Self::lemma_laid_total(rs, n);
        assert(Self::region_good(rs, n - 1));
        Self::lemma_region(rs[n - 1]);
        assert(fl[0] == (Self::region_start(rs[0]), Self::region_end(rs[0]) - Self::region_start(rs[0])));
        assert forall|r: int| 0 <= r < rg.len() - 1 implies #[trigger] rg[r].1 < rg[r + 1].0 by {
            assert(rs[r] == rs[r] && rs[r + 1] == rs[r + 1]);
        }
        assert forall|r: int| 0 <= r < rg.len() implies #[trigger] rg[r].0 <= rg[r].1 by {
            assert(rs[r] == rs[r]);
        }
        assert(rg.last() == (Self::region_start(rs.last()), Self::region_end(rs.last())));
        assert(h.regions_ok());
        assert(h.live_ok());
        assert(h.disjoint());
        assert(h.flags_ok());
        lemma_allocated_empty();
        Self::lemma_laid_span(rs, n);
        assert(h.live@.dom() =~= Set::<int>::empty());
    }

    /// The laid-out regions span the bytes of their blocks.
    proof fn lemma_laid_span(rs: Seq<Region>, n: int)
        requires
            0 <= n <= rs.len(),
        ensures
            span_total(Self::laid_regions(rs, n)) == Self::laid_total(rs, n),
        decreases n,
    {
        if n > 0 {
            Self::lemma_laid_span(rs, n - 1);
            assert(Self::laid_regions(rs, n).drop_last() =~= Self::laid_regions(rs, n - 1));
        }
    }

}


impl<const N: usize, const ALIGN: usize, const LINK: usize> Heap4<N, ALIGN, LINK> {
    /// The words laying out region `k` leaves: its block's header, its end
    /// marker's (when the marker's two words fit the arena), and the previous
    /// marker's link pointed at the block.
    spec fn region_words(before: Self, after: Self, rs: Seq<Region>, k: int) -> bool {
        let st = Self::region_start(rs[k]);
        let en = Self::region_end(rs[k]);
        let pe = if k > 0 { Self::region_end(rs[k - 1]) } else { -1 };
        let big = en + 16 <= N;
        forall|q: int| Self::word_slot(q) ==> #[trigger] after.w(q) == (
            if q == pe { st as u64 }
            else if q == st { en as u64 }
            else if q == st + 8 { (en - st) as u64 }
            else if big && q == en { NONE }
            else if big && q == en + 8 { 0u64 }
            else { before.w(q) })
    }

    proof fn lemma_region_compose(
        t0: Self, t1: Self, t2: Self, t3: Self, t4: Self, t5: Self,
        rs: Seq<Region>, k: int,
    )
        requires
            0 <= k < rs.len(),
            Self::wrote(t0, t1, if Self::region_end(rs[k]) + 16 <= N { Self::region_end(rs[k]) + 8 } else { -1 }, 0u64),
            Self::wrote(t1, t2, if Self::region_end(rs[k]) + 16 <= N { Self::region_end(rs[k]) } else { -1 }, NONE),
            Self::wrote(t2, t3, Self::region_start(rs[k]) + 8, (Self::region_end(rs[k]) - Self::region_start(rs[k])) as u64),
            Self::wrote(t3, t4, Self::region_start(rs[k]), Self::region_end(rs[k]) as u64),
            k > 0 ==> Self::wrote(t4, t5, Self::region_end(rs[k - 1]), Self::region_start(rs[k]) as u64),
            k == 0 ==> Self::kept(t4, t5),
        ensures
            Self::region_words(t0, t5, rs, k),
    {
        let st = Self::region_start(rs[k]);
        let en = Self::region_end(rs[k]);
        let pe = if k > 0 { Self::region_end(rs[k - 1]) } else { -1 };
        let big = en + 16 <= N;
        assert forall|q: int| Self::word_slot(q) implies #[trigger] t5.w(q) == (
            if q == pe { st as u64 }
            else if q == st { en as u64 }
            else if q == st + 8 { (en - st) as u64 }
            else if big && q == en { NONE }
            else if big && q == en + 8 { 0u64 }
            else { t0.w(q) }) by {
            assert(t5.w(q) == t5.w(q) && t4.w(q) == t4.w(q) && t3.w(q) == t3.w(q));
            assert(t2.w(q) == t2.w(q) && t1.w(q) == t1.w(q) && t0.w(q) == t0.w(q));
        }
    }

    /// Every word of the regions before region `k` lies below its block, and
    /// all but the previous region's marker lie below that marker too.
    proof fn lemma_laid_below(rs: Seq<Region>, k: int)
        requires
            Self::geometry(),
            0 <= k < rs.len(),
            forall|x: int| 0 <= x <= k ==> Self::region_good(rs, x),
            Self::layout_sound(rs, k + 1),
        ensures
            forall|j: int| 0 <= j < k ==>
                Self::region_start(#[trigger] rs[j]) + 8 < Self::region_start(rs[k])
                && Self::region_end(rs[j]) + 8 < Self::region_start(rs[k])
                && (j < k - 1 ==> Self::region_end(rs[j]) + 8 < Self::region_end(rs[k - 1])
                    && Self::region_start(rs[j]) + 8 < Self::region_end(rs[k - 1]))
                && (j == k - 1 ==> Self::region_start(rs[j]) + 8 < Self::region_end(rs[k - 1])),
            k > 0 ==> Self::region_end(rs[k - 1]) + 16 <= Self::region_start(rs[k]),
            Self::region_facts(rs[k]),
    {
        let n = k + 1;
        Self::lemma_laid_order(rs, n);
        Self::lemma_laid_facts(rs, n);
        assert(rs[k] == rs[k]);
        if k > 0 {
            assert(rs[k - 1] == rs[k - 1]);
            assert(Self::region_good(rs, k));
        }
        assert forall|j: int| 0 <= j < k implies
            Self::region_start(#[trigger] rs[j]) + 8 < Self::region_start(rs[k])
            && Self::region_end(rs[j]) + 8 < Self::region_start(rs[k])
            && (j < k - 1 ==> Self::region_end(rs[j]) + 8 < Self::region_end(rs[k - 1])
                && Self::region_start(rs[j]) + 8 < Self::region_end(rs[k - 1]))
            && (j == k - 1 ==> Self::region_start(rs[j]) + 8 < Self::region_end(rs[k - 1])) by {
            assert(Self::region_good(rs, j + 1));
            assert(rs[j + 1] == rs[j + 1]);
            if j + 1 < k {
                assert(Self::region_end(rs[j + 1]) < Self::region_start(rs[k]));
            }
            if j < k - 1 {
                assert(Self::region_end(rs[j]) < Self::region_start(rs[k - 1]));
                assert(rs[k - 1] == rs[k - 1]);
            }
        }
    }

    /// Laying out one more region of a good layout keeps the words of the
    /// ones before and adds its own.
    #[verifier::spinoff_prover]
    #[verifier::rlimit(60)]
    proof fn lemma_laid_step_words(h0: Self, h1: Self, rs: Seq<Region>, k: int)
        requires
            Self::geometry(),
            0 <= k < rs.len(),
            forall|x: int| 0 <= x <= k ==> Self::region_good(rs, x),
            forall|j: int| 0 <= j < k ==>
                Self::region_start(#[trigger] rs[j]) + 8 < Self::region_start(rs[k])
                && Self::region_end(rs[j]) + 8 < Self::region_start(rs[k])
                && (j < k - 1 ==> Self::region_end(rs[j]) + 8 < Self::region_end(rs[k - 1])
                    && Self::region_start(rs[j]) + 8 < Self::region_end(rs[k - 1]))
                && (j == k - 1 ==> Self::region_start(rs[j]) + 8 < Self::region_end(rs[k - 1])),
            k > 0 ==> Self::region_end(rs[k - 1]) + 16 <= Self::region_start(rs[k]),
            Self::region_facts(rs[k]),
            Self::laid_words(h0, rs, k),
            Self::region_words(h0, h1, rs, k),
        ensures
            Self::laid_words(h1, rs, k + 1),
    {
        let n = k + 1;
        Self::lemma_laid_facts(rs, n);
        let st = Self::region_start(rs[k]);
        let en = Self::region_end(rs[k]);
        assert(rs[k] == rs[k]);
        assert forall|j: int| 0 <= j < n implies #[trigger] h1.w(Self::region_start(rs[j]) + 8)
            == (Self::region_end(rs[j]) - Self::region_start(rs[j])) as u64 by {
            assert(rs[j] == rs[j]);
            if j < k {
                assert(h0.w(Self::region_start(rs[j]) + 8) == (Self::region_end(rs[j]) - Self::region_start(rs[j])) as u64);
            }
        }
        assert forall|j: int| 0 <= j < n implies #[trigger] h1.w(Self::region_start(rs[j]))
            == Self::region_end(rs[j]) as u64 by {
            assert(rs[j] == rs[j]);
            if j < k {
                assert(h0.w(Self::region_start(rs[j])) == Self::region_end(rs[j]) as u64);
            }
        }
        assert forall|j: int| 0 <= j < n - 1 implies #[trigger] h1.w(Self::region_end(rs[j]))
            == Self::region_start(rs[j + 1]) as u64 by {
            assert(rs[j] == rs[j]);
            if j < k - 1 {
                assert(h0.w(Self::region_end(rs[j])) == Self::region_start(rs[j + 1]) as u64);
            }
        }
        assert forall|j: int| 0 <= j < n && Self::region_end(rs[j]) + 16 <= N implies
            #[trigger] h1.w(Self::region_end(rs[j]) + 8) == 0 by {
            assert(rs[j] == rs[j]);
            if j < k {
                assert(h0.w(Self::region_end(rs[j]) + 8) == 0);
            }
        }
    }

    /// Laying out a region puts no allocated flag anywhere.
    proof fn lemma_laid_step_flags(h0: Self, h1: Self, rs: Seq<Region>, k: int)
        requires
            Self::geometry(),
            0 <= k < rs.len(),
            forall|x: int| 0 <= x <= k ==> Self::region_good(rs, x),
            Self::region_words(h0, h1, rs, k),
            h0.no_flags(),
        ensures
            h1.no_flags(),
    {
        assert(Self::region_good(rs, k));
        Self::lemma_region(rs[k]);
        if k > 0 {
            assert(Self::region_good(rs, k - 1));
            Self::lemma_region(rs[k - 1]);
        }
        let st = Self::region_start(rs[k]);
        let en = Self::region_end(rs[k]);
        let pe = if k > 0 { Self::region_end(rs[k - 1]) } else { -1 };
        let big = en + 16 <= N;
        reveal(Heap4::no_flags);
        assert forall|q: int| Self::word_slot(q) && flagged(#[trigger] h1.w(q)) implies h1.w(q) == NONE by {
            if q != pe && q != st && q != st + 8 && !(big && q == en) && !(big && q == en + 8) {
                assert(h1.w(q) == h0.w(q));
            }
        }
    }

    /// Laying out one more region puts no allocated flag anywhere; in a
    /// sound layout it keeps the words of the regions before and adds its own.
    proof fn lemma_laid_step(h0: Self, h1: Self, rs: Seq<Region>, k: int)
        requires
            Self::geometry(),
            0 <= k < rs.len(),
            forall|x: int| 0 <= x <= k ==> Self::region_good(rs, x),
            Self::layout_sound(rs, k) ==> Self::laid_words(h0, rs, k),
            Self::region_words(h0, h1, rs, k),
            h0.no_flags(),
        ensures
            Self::layout_sound(rs, k + 1) ==> Self::laid_words(h1, rs, k + 1),
            h1.no_flags(),
    {
        Self::lemma_laid_step_flags(h0, h1, rs, k);
        if Self::layout_sound(rs, k + 1) {
            assert(Self::layout_sound(rs, k));
            Self::lemma_laid_below(rs, k);
            Self::lemma_laid_step_words(h0, h1, rs, k);
        }
    }

    /// Where the layout is refused at region `k`, the first refused region is `k`.
    proof fn lemma_refused_at(rs: Seq<Region>, k: int)
        requires
            0 <= k < rs.len(),
            forall|x: int| 0 <= x < k ==> Self::region_good(rs, x),
            !Self::region_good(rs, k),
        ensures
            Self::first_refused(rs, 0) == k,
    {
        Self::lemma_first_refused(rs, 0);
        let f = Self::first_refused(rs, 0);
        if f < k {
            assert(Self::region_good(rs, f));
        }
        if f > k {
            assert(Self::region_good(rs, k));
        }
    }

    /// `vPortDefineHeapRegions`, the `heap_5` initialiser: each region becomes
    /// a free block covering it plus an end marker at its top, and each
    /// marker is pointed at the next region's block, so one address-ordered
    /// free list threads them all.
    ///
    /// Refused with `Busy` when the heap is already laid out, and with
    /// `InvalidArgument` when there are no regions, or a region does not fit
    /// the arena, has no room for a block and its end marker, or does not
    /// start past the previous region's marker. Regions out of address order
    /// are refused, not sorted.
    ///
    /// Every header here is two 64-bit words, whatever `LINK` is. With a
    /// header smaller than those 16 bytes, a marker that ends less than 16
    /// bytes before the next region (two abutting regions, say) shares a
    /// word with that region's first header, and a block under 16 bytes
    /// shares one with its own marker. Such a layout is accepted and written
    /// all the same, and then the next block's link lies over the marker's
    /// size, so the marker reads as a free block reaching into the next
    /// region. The heap is well formed, and the other operations' contracts
    /// apply, only when the layout is sound (`layout_sound`): every block but
    /// the last at least 16 bytes, and every marker but the last 16 bytes
    /// clear of the next region.
    #[verifier::spinoff_prover]
    #[verifier::rlimit(100)]
    pub fn define_regions(&mut self, regions: &[Region]) -> (r: Result<(), Error>)
        requires
            old(self).wf(),
        ensures
            r is Err || Self::layout_sound(regions@, regions@.len() as int) ==> final(self).wf(),
            Self::define_spec(old(self)@, regions@, final(self)@, r),
    {
        if self.initialised {
            return Err(Error::Busy);
        }
        if regions.len() == 0 {
            return Err(Error::InvalidArgument);
        }
        let ghost rs = regions@;
        let ghost h_old = *self;
        proof {
            Self::lemma_geometry();
        }
        let mask = ALIGN.saturating_sub(1);
        let header = Self::struct_size();
        let mut previous_end: Option<u64> = None;
        let mut total: usize = 0;
        let mut k: usize = 0;
        while k < regions.len()
            invariant
                Self::geometry(),
                h_old.wf(),
                !h_old.initialised,
                h_old@ == old(self)@,
                rs == regions@,
                0 <= k <= rs.len(),
                rs.len() > 0,
                mask == ALIGN - 1,
                header == Self::header_size(),
                forall|x: int| 0 <= x < k ==> Self::region_good(rs, x),
                !self.initialised,
                self@ == (HeapState { end: if k == 0 { h_old@.end } else { Self::region_end(rs[k - 1]) }, ..h_old@ }),
                self.no_flags(),
                self.gens_ok(),
                previous_end == (if k == 0 { None } else { Some(Self::region_end(rs[k - 1]) as u64) }),
                k > 0 ==> Self::region_facts(rs[k - 1]),
                total == Self::laid_total(rs, k as int),
                k > 0 ==> self.start_next == Self::region_start(rs[0]) as u64,
                Self::layout_sound(rs, k as int) ==> Self::laid_words(*self, rs, k as int),
            decreases rs.len() - k,
        {
            let region = regions[k];
            // `xAddress` aligned UP, with the loss taken out of the size.
            let start = align_up_exec(region.start, ALIGN);
            let lost = start.saturating_sub(region.start);
            let size = region.size.saturating_sub(lost);
            // The end marker sits at the top, aligned DOWN.
            let raw_end = start.saturating_add(size).saturating_sub(header);
            let end = raw_end & !mask;
            assert(start == Self::region_start(rs[k as int]));
            assert(size == Self::region_size(rs[k as int]));
            assert(end == Self::region_end(rs[k as int]));
            // A region must fit, and must have room for a block AND its marker.
            if start.saturating_add(size) > N || end <= start || end.saturating_add(header) > N {
                proof {
                    Self::lemma_refused_at(rs, k as int);
                }
                return Err(Error::InvalidArgument);
            }
            proof {
                Self::lemma_region(rs[k as int]);
            }
            let start = start as u64;
            let end = end as u64;
            if let Some(previous) = previous_end {
                // Increasing start addresses, which `vPortDefineHeapRegions`
                // asserts rather than sorts.
                if start <= previous {
                    proof {
                        Self::lemma_refused_at(rs, k as int);
                    }
                    return Err(Error::InvalidArgument);
                }
            }
            assert(Self::region_good(rs, k as int));
            let ghost t0 = *self;
            self.set_raw_size(end, 0);
            let ghost t1 = *self;
            self.set_next(end, NONE);
            let ghost t2 = *self;
            let block_size = end - start;
            self.set_raw_size(start, block_size);
            let ghost t3 = *self;
            self.set_next(start, end);
            let ghost t4 = *self;
            match previous_end {
                // `xStart.pxNextFreeBlock` for the first region.
                None => self.start_next = start,
                // Otherwise the PREVIOUS region's marker points at this block,
                // which is what threads the regions into one list.
                Some(previous) => self.set_next(previous, start),
            }
            let ghost t5 = *self;
            proof {
                assert(Self::region_facts(rs[k as int]));
                Self::lemma_region_compose(t0, t1, t2, t3, t4, t5, rs, k as int);
                Self::lemma_laid_step(t0, t5, rs, k as int);
                Self::lemma_laid_total(rs, k as int + 1);
                Self::lemma_laid_facts(rs, k as int + 1);
                assert(rs[k as int] == rs[k as int]);
            }
            total = total.saturating_add(block_size as usize);
            previous_end = Some(end);
            self.end = end;
            proof {
                assert(Self::kept(t5, *self));
                assert(Self::layout_sound(rs, k + 1) ==> Self::laid_words(*self, rs, k + 1)) by {
                    assert forall|q: int| #[trigger] self.w(q) == t5.w(q) by {}
                }
                assert(self.no_flags()) by {
                    reveal(Heap4::no_flags);
                    assert forall|q: int| #[trigger] self.w(q) == t5.w(q) by {}
                }
                assert(self.gens_ok()) by {
                    reveal(Heap4::gens_ok);
                }
            }
            k = k + 1;
        }
        let ghost laid = *self;
        proof {
            Self::lemma_laid_total(rs, rs.len() as int);
        }
        // `configASSERT( xTotalHeapSize )`.
        if total == 0 {
            return Err(Error::InvalidArgument);
        }
        self.initialised = true;
        self.free_bytes = total;
        self.minimum_ever_free = total;
        proof {
            Self::lemma_first_refused(rs, 0);
            let n = rs.len() as int;
            self.regions@ = Self::laid_regions(rs, n);
            self.free_list@ = Self::laid_list(rs, n);
            assert(self.live@ == Map::<int, (int, int)>::empty()) by {
                reveal(Heap4::no_flags);
            }
            Self::lemma_laid_order(rs, n);
            assert(self.store == laid.store);
            if Self::layout_sound(rs, n) {
                assert(Self::laid_words(*self, rs, n)) by {
                    assert forall|q: int| #[trigger] self.w(q) == laid.w(q) by {}
                }
                assert(forall|q: int| Self::word_slot(q) && flagged(#[trigger] self.w(q)) ==> self.w(q) == NONE) by {
                    reveal(Heap4::no_flags);
                    assert forall|q: int| #[trigger] self.w(q) == laid.w(q) by {}
                }
                assert(self.gens_ok()) by {
                    reveal(Heap4::gens_ok);
                }
                Self::lemma_laid_wf(*self, rs);
            }
        }
        Ok(())
    }
}


impl<const N: usize, const ALIGN: usize, const LINK: usize> Heap4<N, ALIGN, LINK> {
    /// The arena's bytes.
    pub closed spec fn arena(&self) -> Seq<u8> {
        self.store@
    }

    /// Free-list node `i` starts at least `16 * i` bytes in.
    proof fn lemma_node_floor(h: Self, i: int)
        requires
            h.wf(),
            h.initialised,
            0 <= i < h.free_list@.len(),
        ensures
            h.free_list@[i].0 >= 16 * i,
        decreases i,
    {
        Self::lemma_node(h, i);
        if i > 0 {
            Self::lemma_node_floor(h, i - 1);
            Self::lemma_node(h, i - 1);
            let fl = h.free_list@;
            assert(fl[i - 1].0 + claim(fl[i - 1]) <= fl[i].0);
            assert(claim(fl[i - 1]) >= 16);
        }
    }

    /// The free list holds no more nodes than the arena has bytes.
    proof fn lemma_list_len(h: Self)
        requires
            h.wf(),
        ensures
            h.free_list@.len() <= N,
    {
        let fl = h.free_list@;
        if fl.len() > 0 {
            Self::lemma_node_floor(h, fl.len() - 1);
            Self::lemma_node(h, fl.len() - 1);
        }
    }

    /// `xPortGetFreeHeapSize`.
    pub fn free_bytes(&self) -> (r: usize)
        ensures
            r == self@.free_bytes,
    {
        self.free_bytes
    }

    /// `xPortGetMinimumEverFreeHeapSize`.
    pub fn minimum_ever_free_bytes(&self) -> (r: usize)
        ensures
            r == self@.minimum_ever_free,
    {
        self.minimum_ever_free
    }

    /// `xNumberOfSuccessfulAllocations`.
    pub fn allocations(&self) -> (r: usize)
        ensures
            r == self@.allocations,
    {
        self.allocations
    }

    /// `xNumberOfSuccessfulFrees`.
    pub fn frees(&self) -> (r: usize)
        ensures
            r == self@.frees,
    {
        self.frees
    }

    /// How many free blocks the free list holds (the size-0 end markers
    /// between regions are not free blocks), and the largest:
    /// `vPortGetHeapStats`' two interesting fields. A heap not laid out yet
    /// holds none.
    pub fn free_list_shape(&self) -> (r: (usize, usize))
        requires
            self.wf(),
        ensures
            r.0 == blocks(self@.free_list),
            r.1 == largest(self@.free_list),
    {
        if !self.initialised {
            return (0, 0);
        }
        let ghost fl = self.free_list@;
        proof {
            Self::lemma_list_len(*self);
            if fl.len() > 0 {
                Self::lemma_node(*self, 0);
            }
            assert(fl.take(0) =~= Seq::<(int, int)>::empty());
        }
        let mut count: usize = 0;
        let mut largest_size: usize = 0;
        let mut block = self.start_next;
        let ghost mut i: int = 0;
        while block != NONE && block != self.end
            invariant
                self.wf(),
                self.initialised,
                fl == self.free_list@,
                fl.len() <= N,
                0 <= i <= fl.len(),
                block == (if i < fl.len() { fl[i].0 } else { self.end as int }) as u64,
                count == blocks(fl.take(i)),
                largest_size == largest(fl.take(i)),
            decreases fl.len() - i,
        {
            proof {
                Self::lemma_node(*self, i);
                lemma_flag_bits(fl[i].1 as u64);
                lemma_largest_take(fl, i);
                lemma_blocks_take(fl, i);
            }
            let size = self.size_of(block) as usize;
            if size != 0 {
                count = count + 1;
            }
            if size > largest_size {
                largest_size = size;
            }
            block = self.next_of(block);
            proof {
                i = i + 1;
            }
        }
        proof {
            if i < fl.len() {
                Self::lemma_node(*self, i);
            }
            assert(fl.take(fl.len() as int) =~= fl);
        }
        (count, largest_size)
    }

    /// Whether byte offset `q` holds a word of a header the heap reads: the
    /// link or the size of a free-list node, or of an allocated block.
    pub open spec fn header_word(s: HeapState, q: int) -> bool {
        ||| exists|i: int| 0 <= i < s.free_list.len() && (q == (#[trigger] s.free_list[i]).0 || q == s.free_list[i].0 + 8)
        ||| s.live.contains_key(q)
        ||| s.live.contains_key(q - 8)
    }

    /// Whether the bytes `after` keep every header of `s` that `before`
    /// holds: each word either is what it was, or lies off every header and
    /// does not carry the allocated flag.
    pub open spec fn keeps_headers(s: HeapState, before: Seq<u8>, after: Seq<u8>) -> bool {
        forall|q: int|
            #![trigger word(after, q)]
            Self::word_slot(q) ==> word(after, q) == word(before, q) || (!flagged(word(after, q))
                && !Self::header_word(s, q))
    }

    /// Two heaps that differ in their arena alone.
    spec fn same_books(a: Self, b: Self) -> bool {
        &&& a.start_next == b.start_next
        &&& a.end == b.end
        &&& a.free_bytes == b.free_bytes
        &&& a.minimum_ever_free == b.minimum_ever_free
        &&& a.allocations == b.allocations
        &&& a.frees == b.frees
        &&& a.initialised == b.initialised
        &&& a.next_generation == b.next_generation
        &&& a.free_list == b.free_list
        &&& a.live == b.live
        &&& a.regions == b.regions
    }

    /// Bytes that keep every header keep the heap well formed.
    proof fn lemma_headers_kept(h: Self, h2: Self)
        requires
            h.wf(),
            Self::same_books(h, h2),
            Self::keeps_headers(h@, h.store@, h2.store@),
        ensures
            h2.wf(),
    {
        let fl = h.free_list@;
        let lv = h.live@;
        reveal(Heap4::gens_ok);
        if !h.initialised {
            reveal(Heap4::no_flags);
            assert forall|q: int| Self::word_slot(q) && flagged(#[trigger] h2.w(q)) implies h2.w(q) == NONE by {
                assert(word(h2.store@, q) == word(h.store@, q));
                assert(h2.w(q) == h.w(q));
                assert(flagged(h.w(q)));
            }
        } else {
            reveal(Heap4::nodes_ok);
            reveal(Heap4::links_ok);
            reveal(Heap4::nodes_sorted);
            reveal(Heap4::live_ok);
            reveal(Heap4::disjoint);
            reveal(Heap4::flags_ok);
            assert(h2.apart_ok()) by {
                reveal(Heap4::apart_ok);
            }
            assert forall|i: int| 0 <= i < fl.len() implies h2.w((#[trigger] fl[i]).0) == h.w(fl[i].0)
                && h2.w(fl[i].0 + 8) == h.w(fl[i].0 + 8) by {
                assert(h@.free_list[i] == fl[i]);
                assert(Self::header_word(h@, fl[i].0));
                assert(Self::header_word(h@, fl[i].0 + 8));
                assert(word(h2.store@, fl[i].0) == word(h.store@, fl[i].0));
                assert(word(h2.store@, fl[i].0 + 8) == word(h.store@, fl[i].0 + 8));
            }
            assert forall|a: int| #[trigger] lv.contains_key(a) implies h2.w(a) == h.w(a) && h2.w(a + 8) == h.w(a + 8) by {
                assert(h@.live.contains_key(a));
                assert(h@.live.contains_key(a + 8 - 8));
                assert(Self::header_word(h@, a));
                assert(Self::header_word(h@, a + 8));
                assert(word(h2.store@, a) == word(h.store@, a));
                assert(word(h2.store@, a + 8) == word(h.store@, a + 8));
            }
            assert forall|q: int| Self::word_slot(q) && flagged(#[trigger] h2.w(q)) implies h2.live@.contains_key(q - 8)
                || h2.w(q) == NONE by {
                assert(word(h2.store@, q) == word(h.store@, q));
                assert(h2.w(q) == h.w(q));
                assert(flagged(h.w(q)));
            }
            assert(h2.nodes_ok());
            assert(h2.links_ok());
            assert(h2.live_ok());
            assert(h2.flags_ok());
        }
    }

    /// The arena's bytes, to read and write: what a binding that hands out
    /// addresses needs. The heap stays well formed when the bytes written
    /// keep its headers; a word that looks like a header where none is
    /// would mislead a later free, as in any allocator that keeps its
    /// headers in the arena, and so does a write over a header.
    pub fn arena_mut(&mut self) -> (r: &mut [u8; N])
        ensures
            r@ == old(self).arena(),
            final(self).arena() == final(r)@,
            final(self)@ == old(self)@,
            old(self).wf() && Self::keeps_headers(old(self)@, old(self).arena(), final(r)@) ==> final(self).wf(),
    {
        proof {
            assert forall|h2: Self|
                self.wf() && Self::same_books(*self, h2) && Self::keeps_headers(self@, self.store@, h2.store@)
                implies #[trigger] h2.wf() by {
                Self::lemma_headers_kept(*self, h2);
            }
        }
        &mut self.store
    }

    /// The arena's bytes.
    pub fn bytes(&self) -> (r: &[u8; N])
        ensures
            r@ == self.arena(),
    {
        &self.store
    }

    /// The index into the arena of an offset, when the offset is inside it.
    pub fn index_of(offset: u64) -> (r: Option<usize>)
        ensures
            r == (if offset < N { Some(offset as usize) } else { None::<usize> }),
    {
        if offset < N as u64 {
            Some(offset as usize)
        } else {
            None
        }
    }

    /// The offset of `address` in an arena whose first byte is at `base`, or
    /// `None` when the address is not inside the arena.
    pub open spec fn offset_at(base: usize, address: usize) -> Option<u64> {
        if base <= address && address < sat_add(base as int, N as int) {
            Some((address - base) as u64)
        } else {
            None
        }
    }

    /// The offset of `address` in an arena whose first byte is at `base`, or
    /// `None` when the address is not inside the arena.
    pub fn offset_in(base: usize, address: usize) -> (r: Option<u64>)
        ensures
            r == Self::offset_at(base, address),
    {
        if address < base || address >= base.saturating_add(N) {
            return None;
        }
        Some((address - base) as u64)
    }
}


impl<const N: usize, const ALIGN: usize, const LINK: usize> Heap4<N, ALIGN, LINK> {
    /// A request's block holds at least its header.
    proof fn lemma_header_fits(wanted: usize)
        requires
            Self::geometry(),
            Self::request(wanted) is Some,
        ensures
            Self::header_size() <= Self::request(wanted)->0,
    {
        Self::lemma_geometry();
        let hs = Self::header_size();
        let with = (wanted + hs) as usize;
        let size = Self::request(wanted)->0;
        lemma_align_up(with, ALIGN);
        lemma_align_up(LINK, ALIGN);
        assert(hs % (ALIGN as int) == 0);
        assert(size % (ALIGN as int) == 0);
        if hs > size {
            vstd::arithmetic::div_mod::lemma_sub_mod_noop(hs, size, ALIGN as int);
            assert((hs - size) % (ALIGN as int) == 0);
            assert(hs - size >= ALIGN) by (nonlinear_arith)
                requires (hs - size) % (ALIGN as int) == 0, hs - size > 0, ALIGN > 0;
        }
    }

    /// What a node of the free list the next allocation walks looks like.
    #[verifier::spinoff_prover]
    proof fn lemma_laid_out_node(h: Self, i: int)
        requires
            h.wf(),
            0 <= i < Self::laid_out(h@).free_list.len(),
        ensures
            ({
                let s = Self::laid_out(h@);
                &&& s.free_list[i].0 % (ALIGN as int) == 0
                &&& s.free_list[i].0 % 8 == 0
                &&& 0 <= s.free_list[i].0
                &&& s.free_list[i].0 + s.free_list[i].1 <= N
                &&& !s.live.contains_key(s.free_list[i].0)
            }),
    {
        Self::lemma_geometry();
        if h.initialised {
            assert(Self::laid_out(h@) == h@);
            Self::lemma_node(h, i);
            let fl = h.free_list@;
            let c = fl[i].0;
            assert(c % (ALIGN as int) == 0) by {
                reveal(Heap4::nodes_ok);
            }
            assert(!h.live@.contains_key(c)) by {
                reveal(Heap4::disjoint);
                reveal(Heap4::live_ok);
                if h.live@.contains_key(c) {
                    assert(c + h.live@[c].0 <= fl[i].0 || fl[i].0 + claim(fl[i]) <= c);
                }
            }
        } else {
            let e = Self::init_end();
            lemma_align_down(if N >= Self::header_size() { (N - Self::header_size()) as usize } else { 0usize }, ALIGN);
            assert(e <= N);
            assert(Self::laid_out(h@).free_list[i] == (0int, e));
            vstd::arithmetic::div_mod::lemma_small_mod(0, ALIGN as nat);
            assert(Self::laid_out(h@).live == Map::<int, (int, int)>::empty());
        }
    }

    /// The books balance: a laid-out heap's free bytes are exactly the bytes
    /// of its free list, never more than the arena up to the last end
    /// marker, and never less than the lowest they have been; with the bytes
    /// of the allocated blocks they make up the bytes the regions span, so
    /// once every block is freed every byte is back. A heap not yet laid out
    /// has no free list and nothing allocated.
    pub proof fn lemma_free_bytes_balance(h: Self)
        requires
            h.wf(),
        ensures
            h@.initialised ==> h@.free_bytes == total(h@.free_list),
            h@.initialised ==> h@.free_bytes <= h@.end <= N,
            h@.initialised ==> h@.free_bytes + allocated(h@.live) == span_total(h@.regions),
            h@.initialised && h@.live.is_empty() ==> h@.free_bytes == span_total(h@.regions),
            h@.minimum_ever_free <= h@.free_bytes || !h@.initialised,
            !h@.initialised ==> h@.free_list.len() == 0 && h@.live.is_empty(),
    {
        if h@.live.is_empty() {
            lemma_allocated_empty();
            assert(h@.live == Map::<int, (int, int)>::empty());
        }
        if h.initialised {
            reveal(Heap4::nodes_ok);
            reveal(Heap4::nodes_sorted);
            let fl = h.free_list@;
            let e = h.end as int;
            assert forall|k: int| 0 <= k < fl.len() implies 0 <= #[trigger] fl[k].0 && 0 <= fl[k].1 && fl[k].0 + fl[k].1 <= e by {}
            assert forall|a: int, b: int| 0 <= a < b < fl.len() implies (#[trigger] fl[a]).0 + fl[a].1 <= (#[trigger] fl[b]).0 by {
                assert(fl[a].0 + claim(fl[a]) <= fl[b].0);
            }
            crate::free_list::lemma_total_span(fl, 0, e);
        }
    }

    /// No two allocations overlap, none overlaps a free block, and none
    /// crosses the gap between two regions.
    pub proof fn lemma_live_blocks_apart(h: Self)
        requires
            h.wf(),
        ensures
            forall|a: int, b: int|
                #![trigger h@.live.contains_key(a), h@.live.contains_key(b)]
                h@.live.contains_key(a) && h@.live.contains_key(b) && a != b
                ==> a + h@.live[a].0 <= b || b + h@.live[b].0 <= a,
            forall|a: int, i: int|
                #![trigger h@.live.contains_key(a), h@.free_list[i]]
                h@.live.contains_key(a) && 0 <= i < h@.free_list.len()
                ==> a + h@.live[a].0 <= h@.free_list[i].0 || h@.free_list[i].0 + h@.free_list[i].1 <= a,
            forall|a: int| #[trigger] h@.live.contains_key(a) ==> inside(h@.regions, a, h@.live[a].0),
            forall|a: int| #[trigger] h@.live.contains_key(a) ==> 0 <= a && a + h@.live[a].0 <= h@.end,
    {
        if h.initialised {
            reveal(Heap4::disjoint);
            reveal(Heap4::live_ok);
            let fl = h.free_list@;
            let lv = h.live@;
            assert forall|a: int, i: int|
                #![trigger lv.contains_key(a), fl[i]]
                lv.contains_key(a) && 0 <= i < fl.len() implies a + lv[a].0 <= fl[i].0 || fl[i].0 + fl[i].1 <= a by {
                assert(a + lv[a].0 <= fl[i].0 || fl[i].0 + claim(fl[i]) <= a);
            }
        }
    }

    /// The free list is in address order: each node starts past the end of
    /// the one before it, and every node lies inside the arena.
    pub proof fn lemma_free_list_in_address_order(h: Self)
        requires
            h.wf(),
        ensures
            forall|i: int|
                0 <= i < h@.free_list.len() ==> 0 <= (#[trigger] h@.free_list[i]).0 && 0 <= h@.free_list[i].1
                    && h@.free_list[i].0 + h@.free_list[i].1 <= N,
            forall|i: int, j: int|
                0 <= i < j < h@.free_list.len() ==> (#[trigger] h@.free_list[i]).0 + h@.free_list[i].1
                    <= (#[trigger] h@.free_list[j]).0 && h@.free_list[i].0 < h@.free_list[j].0,
    {
        if h.initialised {
            reveal(Heap4::nodes_sorted);
            let fl = h.free_list@;
            assert forall|i: int| 0 <= i < fl.len() implies 0 <= (#[trigger] fl[i]).0 && 0 <= fl[i].1
                && fl[i].0 + fl[i].1 <= N by {
                Self::lemma_node(h, i);
            }
            assert forall|i: int, j: int| 0 <= i < j < fl.len() implies (#[trigger] fl[i]).0 + fl[i].1
                <= (#[trigger] fl[j]).0 && fl[i].0 < fl[j].0 by {
                Self::lemma_node(h, i);
                assert(fl[i].0 + claim(fl[i]) <= fl[j].0);
            }
        }
    }

    /// Free blocks that meet are merged: no free-list node ends where the
    /// next one begins, unless the next is an end marker between regions.
    /// Every insert and every allocation keeps it so.
    pub proof fn lemma_free_blocks_never_meet(h: Self)
        requires
            h.wf(),
        ensures
            apart(h@.free_list),
            in_order(h@.free_list),
    {
        if h.initialised {
            reveal(Heap4::apart_ok);
            Self::lemma_in_order(h);
        }
    }

    /// Address-ordered first fit: an allocation succeeds exactly when some
    /// free block (once the arena is laid out) is at least the block the
    /// request needs, and then hands out the lowest-addressed such block.
    pub proof fn lemma_first_fit_is_lowest(h: Self, wanted: usize, s1: HeapState, r: Option<Block>)
        requires
            h.wf(),
            Self::alloc_spec(h@, wanted, s1, r),
            Self::request(wanted) is Some,
        ensures
            ({
                let fl = Self::laid_out(h@).free_list;
                let size = Self::request(wanted)->0;
                &&& (r is Some <==> exists|j: int| 0 <= j < fl.len() && (#[trigger] fl[j]).1 >= size)
                &&& r matches Some(b) ==> exists|i: int|
                    0 <= i < fl.len() && (#[trigger] fl[i]).1 >= size && b@.0 == Self::user_offset(fl[i].0)
                        && forall|j: int| 0 <= j < fl.len() && (#[trigger] fl[j]).1 >= size ==> fl[i].0 <= fl[j].0
            }),
    {
        let s = Self::laid_out(h@);
        let fl = s.free_list;
        let size = Self::request(wanted)->0;
        let i = first_fit(fl, size);
        lemma_first_fit(fl, size);
        if h.initialised {
            Self::lemma_free_list_in_address_order(h);
            Self::lemma_free_bytes_balance(h);
            assert forall|k: int| 0 <= k < fl.len() implies fl[k].1 >= 0 by {
                assert(0 <= fl[k].0);
            }
            lemma_total_nonneg(fl);
        } else {
            Self::lemma_geometry();
            if fl.len() > 0 {
                assert(fl[0] == (0int, Self::init_end()));
            }
        }
        if r is Some {
            assert(0 <= i < fl.len() && fl[i].1 >= size);
            assert forall|j: int| 0 <= j < fl.len() && (#[trigger] fl[j]).1 >= size implies fl[i].0 <= fl[j].0 by {
                if j < i {
                    assert(fl[j].1 < size);
                }
            }
        } else {
            assert forall|j: int| 0 <= j < fl.len() implies (#[trigger] fl[j]).1 < size by {
                if i < fl.len() {
                    assert(fl[i].1 <= total(fl));
                }
            }
        }
    }

    /// The low-water mark of a laid-out heap never rises: an allocation
    /// lowers it to the free bytes left when they fall below it, and a free,
    /// or a refused call, leaves it as it was. It never exceeds the free bytes.
    pub proof fn lemma_low_water_never_rises(
        h: Self,
        wanted: usize,
        s1: HeapState,
        r1: Option<Block>,
        user: int,
        generation: Option<u32>,
        s2: HeapState,
        r2: Result<(), Error>,
    )
        requires
            h.wf(),
            h@.initialised,
        ensures
            Self::alloc_spec(h@, wanted, s1, r1) ==> s1.minimum_ever_free <= h@.minimum_ever_free
                && s1.minimum_ever_free <= s1.free_bytes
                && s1.minimum_ever_free == (if s1.free_bytes < h@.minimum_ever_free { s1.free_bytes } else { h@.minimum_ever_free }),
            Self::free_spec(h@, user, generation, s2, r2) ==> s2.minimum_ever_free == h@.minimum_ever_free
                && s2.minimum_ever_free <= s2.free_bytes,
    {
        Self::lemma_free_bytes_balance(h);
        if Self::free_spec(h@, user, generation, s2, r2) && r2 is Ok {
            let link = user - Self::header_size();
            Self::lemma_live_words(h, link);
            reveal(Heap4::live_ok);
            assert(s2.free_bytes == h@.free_bytes + h@.live[link].0);
        }
    }

    /// The counters count successful calls: an allocation that answers a
    /// block adds one to the allocations (saturating) and one that does not
    /// leaves it; a free that succeeds adds one to the frees (saturating)
    /// and one that is refused leaves it; neither touches the other count.
    pub proof fn lemma_counters_count_successes(
        h: Self,
        wanted: usize,
        s1: HeapState,
        r1: Option<Block>,
        user: int,
        generation: Option<u32>,
        s2: HeapState,
        r2: Result<(), Error>,
    )
        requires
            h.wf(),
        ensures
            Self::alloc_spec(h@, wanted, s1, r1) ==> s1.frees == h@.frees
                && s1.allocations == (if r1 is Some { sat_add(h@.allocations, 1) } else { h@.allocations }),
            Self::free_spec(h@, user, generation, s2, r2) ==> s2.allocations == h@.allocations
                && s2.frees == (if r2 is Ok { sat_add(h@.frees, 1) } else { h@.frees }),
    {
    }

    /// The counters agree with the allocated blocks: until the allocation
    /// count saturates, allocations less frees is how many blocks are
    /// allocated.
    pub open spec fn counts_balance(s: HeapState) -> bool {
        s.allocations < usize::MAX ==> s.allocations - s.frees == s.live.dom().len()
    }

    /// A new heap's counters agree with its allocated blocks, and every
    /// allocation, free and layout keeps them in agreement: successful
    /// allocations less successful frees is the number of blocks allocated.
    pub proof fn lemma_counts_balance(
        h: Self,
        wanted: usize,
        s1: HeapState,
        r1: Option<Block>,
        user: int,
        generation: Option<u32>,
        s2: HeapState,
        r2: Result<(), Error>,
        rs: Seq<Region>,
        s3: HeapState,
        r3: Result<(), Error>,
    )
        requires
            h.wf(),
            Self::counts_balance(h@),
        ensures
            Self::counts_balance(Self::fresh()),
            Self::alloc_spec(h@, wanted, s1, r1) ==> Self::counts_balance(s1),
            Self::free_spec(h@, user, generation, s2, r2) ==> Self::counts_balance(s2),
            Self::define_spec(h@, rs, s3, r3) ==> Self::counts_balance(s3),
    {
        broadcast use vstd::set::axiom_set_insert_len, vstd::set::axiom_set_remove_len;
        let lv = h@.live;
        assert(Map::<int, (int, int)>::empty().dom() =~= Set::<int>::empty());
        Self::lemma_free_bytes_balance(h);
        if Self::alloc_spec(h@, wanted, s1, r1) && r1 is Some {
            let s = Self::laid_out(h@);
            let size = Self::request(wanted)->0;
            let i = first_fit(s.free_list, size);
            lemma_first_fit(s.free_list, size);
            let c = s.free_list[i].0;
            if h.initialised {
                reveal(Heap4::disjoint);
                if lv.contains_key(c) {
                    Self::lemma_live_words(h, c);
                    assert(c + lv[c].0 <= h.free_list@[i].0 || h.free_list@[i].0 + claim(h.free_list@[i]) <= c);
                }
            }
            assert(!s.live.contains_key(c));
            assert(s1.live.dom() == s.live.dom().insert(c));
        }
        if Self::free_spec(h@, user, generation, s2, r2) && r2 is Ok {
            let link = user - Self::header_size();
            assert(lv.contains_key(link));
            assert(s2.live.dom() == lv.dom().remove(link));
        }
    }

    /// Two allocations in a row carry consecutive generations, wrapping at
    /// 2^32; a new heap's first allocation carries generation 1.
    pub proof fn lemma_generations_consecutive(
        h: Self,
        w1: usize,
        s1: HeapState,
        b1: Block,
        w2: usize,
        s2: HeapState,
        b2: Block,
    )
        requires
            h.wf(),
            Self::alloc_spec(h@, w1, s1, Some(b1)),
            Self::alloc_spec(s1, w2, s2, Some(b2)),
        ensures
            b2@.1 == (b1@.1 + 1) % 0x1_0000_0000,
            Self::fresh().next_generation == 1,
    {
    }

    /// Until the generations wrap, after 2^32 - 1 allocations, no two
    /// allocated blocks carry the same generation, and the next block handed
    /// out carries one no allocated block does.
    pub proof fn lemma_live_generations_distinct(h: Self)
        requires
            h.wf(),
            h@.allocations + 1 < 0x1_0000_0000,
        ensures
            h@.next_generation == h@.allocations + 1,
            forall|a: int| #[trigger] h@.live.contains_key(a) ==> h@.live[a].1 < h@.next_generation,
            forall|a: int, b: int|
                #![trigger h@.live.contains_key(a), h@.live.contains_key(b)]
                h@.live.contains_key(a) && h@.live.contains_key(b) && a != b ==> h@.live[a].1 != h@.live[b].1,
    {
        reveal(Heap4::gens_ok);
    }

    /// A refused free changes nothing.
    pub proof fn lemma_refused_free_changes_nothing(
        old: HeapState, user: int, generation: Option<u32>, new: HeapState, r: Result<(), Error>,
    )
        requires
            Self::free_spec(old, user, generation, new, r),
            r is Err,
        ensures
            new == old,
    {
    }

    /// A block freed once cannot be freed again: the second free is `Gone`
    /// and changes nothing, with or without its generation.
    pub proof fn lemma_double_free_refused(
        s0: HeapState, user: int, generation: Option<u32>, s1: HeapState, s2: HeapState, r: Result<(), Error>,
    )
        requires
            Self::free_spec(s0, user, generation, s1, Ok(())),
            Self::free_spec(s1, user, generation, s2, r),
        ensures
            r == Err::<(), Error>(Error::Gone),
            s2 == s1,
    {
    }

    /// Freeing the block an allocation handed out succeeds, and gives back
    /// exactly the bytes the allocation took: the free bytes and the
    /// allocated blocks are as they were before the allocation (once the
    /// arena was laid out). Offsets must fit the 32 bits a `Block` carries.
    pub proof fn lemma_free_undoes_allocate(
        h: Self, wanted: usize, s1: HeapState, b: Block, s2: HeapState, r: Result<(), Error>,
    )
        requires
            h.wf(),
            N <= u32::MAX,
            Self::alloc_spec(h@, wanted, s1, Some(b)),
            Self::free_spec(s1, b@.0 as int, Some(b@.1), s2, r),
        ensures
            r == Ok::<(), Error>(()),
            s2.free_bytes == Self::laid_out(h@).free_bytes,
            s2.live == Self::laid_out(h@).live,
            s2.free_list.len() >= 1,
    {
        Self::lemma_geometry();
        let size = Self::request(wanted)->0;
        Self::lemma_request(wanted);
        let s = Self::laid_out(h@);
        let i = first_fit(s.free_list, size);
        lemma_first_fit(s.free_list, size);
        Self::lemma_laid_out_node(h, i);
        let c = s.free_list[i].0;
        let hs = Self::header_size();
        Self::lemma_header_fits(wanted);
        assert(b@.0 == c + hs);
        assert(s1.live.contains_key(c));
        assert(s1.live[c].1 == b@.1) by {
            assert(h.next_generation as int == s.next_generation);
        }
        assert((c + hs - hs) % (ALIGN as int) == 0);
        assert(s2 == Self::freed(s1, c));
        assert(s2.live =~= s.live);
        assert(s2.free_list.len() >= 1) by {
            let fl1 = s1.free_list;
            crate::free_list::lemma_position(fl1, c);
        }
    }

    /// The bytes a block is handed out with hold the request: they start on
    /// the alignment, past the block's header, and end inside the block,
    /// which is allocated under the block's generation. Holds when rounding
    /// the request does not saturate; offsets must fit the 32 bits a `Block`
    /// carries.
    pub proof fn lemma_allocation_holds_request(h: Self, wanted: usize, s1: HeapState, b: Block)
        requires
            h.wf(),
            N <= u32::MAX,
            wanted + Self::header_size() + ALIGN - 1 <= usize::MAX,
            Self::alloc_spec(h@, wanted, s1, Some(b)),
        ensures
            ({
                let link = b@.0 - Self::header_size();
                &&& s1.live.contains_key(link)
                &&& s1.live[link].1 == b@.1
                &&& (b@.0 as int) % (ALIGN as int) == 0
                &&& link + Self::header_size() + wanted <= link + s1.live[link].0
            }),
    {
        Self::lemma_geometry();
        let size = Self::request(wanted)->0;
        Self::lemma_request(wanted);
        Self::lemma_header_fits(wanted);
        let hs = Self::header_size();
        lemma_align_up((wanted + hs) as usize, ALIGN);
        let s = Self::laid_out(h@);
        let i = first_fit(s.free_list, size);
        lemma_first_fit(s.free_list, size);
        Self::lemma_laid_out_node(h, i);
        let c = s.free_list[i].0;
        assert(b@.0 == c + hs);
        assert((c + hs) % (ALIGN as int) == 0) by {
            vstd::arithmetic::div_mod::lemma_mod_adds(c, hs, ALIGN as int);
        }
        assert(h.next_generation as int == s.next_generation);
    }

    /// The bytes a request is handed lie clear of every block allocated
    /// before it: from the new block's header to the end of the request, no
    /// byte belongs to another allocated block. Offsets must fit the 32 bits
    /// a `Block` carries, and rounding the request must not saturate.
    pub proof fn lemma_request_apart(h: Self, wanted: usize, s1: HeapState, b: Block)
        requires
            h.wf(),
            N <= u32::MAX,
            wanted + Self::header_size() + ALIGN - 1 <= usize::MAX,
            Self::alloc_spec(h@, wanted, s1, Some(b)),
        ensures
            forall|a: int|
                #[trigger] h@.live.contains_key(a) ==> b@.0 + wanted <= a || a + h@.live[a].0 <= b@.0
                    - Self::header_size(),
    {
        Self::lemma_allocation_holds_request(h, wanted, s1, b);
        Self::lemma_geometry();
        let size = Self::request(wanted)->0;
        let s = Self::laid_out(h@);
        let fl = s.free_list;
        let i = first_fit(fl, size);
        lemma_first_fit(fl, size);
        Self::lemma_laid_out_node(h, i);
        if h.initialised {
            reveal(Heap4::disjoint);
            let lv = h.live@;
            assert forall|a: int| #[trigger] lv.contains_key(a) implies b@.0 + wanted <= a || a + lv[a].0
                <= b@.0 - Self::header_size() by {
                assert(a + lv[a].0 <= h.free_list@[i].0 || h.free_list@[i].0 + claim(h.free_list@[i]) <= a);
            }
        }
    }

    /// A block inside the regions lies inside one of them.
    proof fn lemma_inside_one(regions: Seq<(int, int)>, at: int, len: int, r: int)
        requires
            inside(regions, at, len),
            0 <= r < regions.len(),
            regions[r].0 <= at,
        ensures
            exists|k: int| 0 <= k < regions.len() && (#[trigger] regions[k]).0 <= at && at + len <= regions[k].1,
        decreases regions.len() - r,
    {
        reveal(inside);
        if r == regions.len() - 1 {
            assert(regions[r].0 <= at && at + len <= regions[r].1);
        } else if at >= regions[r + 1].0 {
            Self::lemma_inside_one(regions, at, len, r + 1);
        } else {
            assert(at + len <= regions[r].1 || at >= regions[r + 1].0);
            assert(regions[r].0 <= at && at + len <= regions[r].1);
        }
    }

    /// A region that fits lays out its block and marker inside the bytes it
    /// was given.
    proof fn lemma_region_within(r: Region)
        requires
            Self::geometry(),
            Self::region_fits(r),
        ensures
            r.start <= Self::region_start(r),
            Self::region_end(r) + Self::header_size() <= r.start + r.size,
    {
        Self::lemma_region(r);
        Self::lemma_geometry();
        lemma_align_up(r.start, ALIGN);
        let st = Self::region_start(r);
        let en = Self::region_end(r);
        let raw = sat_sub(sat_add(st, Self::region_size(r)), Self::header_size());
        lemma_align_down(raw as usize, ALIGN);
        assert(en - st >= ALIGN) by {
            vstd::arithmetic::div_mod::lemma_sub_mod_noop(en, st, ALIGN as int);
            assert(en - st >= ALIGN) by (nonlinear_arith)
                requires (en - st) % (ALIGN as int) == 0, en - st > 0, ALIGN > 0;
        }
        assert(r.start + (ALIGN - 1) <= usize::MAX);
    }

    /// Every block allocated in a heap laid out over the regions `rs` lies
    /// inside one of those regions as they were given: no allocation crosses
    /// the gap between two regions.
    pub proof fn lemma_blocks_within_given_regions(h: Self, rs: Seq<Region>)
        requires
            h.wf(),
            h@.initialised,
            Self::first_refused(rs, 0) == rs.len(),
            h@.regions == Self::laid_regions(rs, rs.len() as int),
        ensures
            forall|a: int|
                #[trigger] h@.live.contains_key(a) ==> exists|k: int|
                    0 <= k < rs.len() && (#[trigger] rs[k]).start <= a && a + h@.live[a].0 <= rs[k].start + rs[k].size,
    {
        Self::lemma_first_refused(rs, 0);
        Self::lemma_live_blocks_apart(h);
        let rg = h@.regions;
        let lv = h@.live;
        assert forall|a: int| #[trigger] lv.contains_key(a) implies exists|k: int|
            0 <= k < rs.len() && (#[trigger] rs[k]).start <= a && a + lv[a].0 <= rs[k].start + rs[k].size by {
            assert(inside(rg, a, lv[a].0));
            assert(rg[0].0 <= a) by {
                reveal(inside);
            }
            Self::lemma_inside_one(rg, a, lv[a].0, 0);
            let k = choose|k: int| 0 <= k < rg.len() && (#[trigger] rg[k]).0 <= a && a + lv[a].0 <= rg[k].1;
            assert(Self::region_good(rs, k));
            Self::lemma_region_within(rs[k]);
            assert(rg[k] == (Self::region_start(rs[k]), Self::region_end(rs[k])));
            Self::lemma_geometry();
            assert(rs[k].start <= a && a + lv[a].0 <= rs[k].start + rs[k].size);
        }
    }

    /// Laying a heap out is done once: a second layout changes nothing.
    pub proof fn lemma_layout_once(s: HeapState)
        ensures
            Self::laid_out(Self::laid_out(s)) == Self::laid_out(s),
            Self::laid_out(s).initialised,
    {
    }

    /// `offset_of` undoes `address_of`: an offset inside the arena is its own
    /// index, and the address that many bytes past the arena's first byte
    /// gives the offset back; an address outside the arena gives none.
    pub proof fn lemma_offset_round_trip(base: usize, o: u64, address: usize)
        requires
            base + N <= usize::MAX,
        ensures
            o < N ==> Self::offset_at(base, (base + o) as usize) == Some(o),
            address < base || address >= base + N ==> Self::offset_at(base, address) is None,
    {
    }

    /// A stale handle cannot free the allocation that replaced it: after a
    /// block is freed and the same offset handed out again, freeing the first
    /// handle is `Gone`. Offsets must fit the 32 bits a `Block` carries.
    pub proof fn lemma_stale_handle_refused(
        h: Self, w1: usize, s1: HeapState, a: Block, h2: Self, w2: usize, s3: HeapState, b: Block,
        s4: HeapState, r: Result<(), Error>,
    )
        requires
            h.wf(),
            h2.wf(),
            N <= u32::MAX,
            Self::alloc_spec(h@, w1, s1, Some(a)),
            Self::free_spec(s1, a@.0 as int, Some(a@.1), h2@, Ok(())),
            Self::alloc_spec(h2@, w2, s3, Some(b)),
            b@.0 == a@.0,
            Self::free_spec(s3, a@.0 as int, Some(a@.1), s4, r),
        ensures
            b@.1 != a@.1,
            r == Err::<(), Error>(Error::Gone),
            s4 == s3,
    {
        Self::lemma_geometry();
        let size = Self::request(w1)->0;
        Self::lemma_request(w1);
        let s = Self::laid_out(h@);
        let i = first_fit(s.free_list, size);
        lemma_first_fit(s.free_list, size);
        Self::lemma_laid_out_node(h, i);
        let c = s.free_list[i].0;
        let hs = Self::header_size();
        Self::lemma_header_fits(w1);
        assert(a@.0 == c + hs);
        let s2 = h2@;
        assert(s2 == Self::freed(s1, c));
        assert(s2.initialised);
        assert(Self::laid_out(s2) == s2);
        let size2 = Self::request(w2)->0;
        Self::lemma_request(w2);
        let i2 = first_fit(s2.free_list, size2);
        lemma_first_fit(s2.free_list, size2);
        assert(i2 < s2.free_list.len());
        Self::lemma_laid_out_node(h2, i2);
        let c2 = s2.free_list[i2].0;
        assert(b@.0 == Self::user_offset(c2));
        assert(0 <= h.next_generation < 0x1_0000_0000);
        assert(b@.1 == ((h.next_generation + 1) % 0x1_0000_0000) as u32);
        assert(a@.1 == h.next_generation as u32);
        // The block now at the offset carries the second allocation's generation.
        if c2 + hs <= u32::MAX {
            assert(c2 == c);
        } else {
            assert(b@.0 == u32::MAX);
            assert((c + hs) % 8 == 0);
            assert(false);
        }
        assert(s3.live.contains_key(c));
        assert(s3.live[c].1 == b@.1);
    }
}


impl<const N: usize, const ALIGN: usize, const LINK: usize> Heap4<N, ALIGN, LINK> {
    /// `pvPortMalloc` as a function of the state: the state after, and the
    /// handed-out block as (user offset, generation).
    pub open spec fn alloc_step(s: HeapState, wanted: usize) -> (HeapState, Option<(u32, u32)>) {
        match Self::request(wanted) {
            None => (s, None),
            Some(size) => {
                let t = Self::laid_out(s);
                let i = first_fit(t.free_list, size);
                if size > t.free_bytes || i == t.free_list.len() {
                    (t, None)
                } else {
                    (Self::taken(t, i, size), Some((Self::user_offset(t.free_list[i].0), t.next_generation as u32)))
                }
            }
        }
    }

    /// `vPortFree` as a function of the state.
    pub open spec fn free_step(s: HeapState, user: int, generation: Option<u32>) -> (HeapState, Result<(), Error>) {
        let hs = Self::header_size();
        let link = user - hs;
        if user < hs || user > N || link % (ALIGN as int) != 0 {
            (s, Err(Error::InvalidArgument))
        } else if !s.live.contains_key(link) || (generation matches Some(g) && s.live[link].1 != g) {
            (s, Err(Error::Gone))
        } else {
            (Self::freed(s, link), Ok(()))
        }
    }

    /// The outcome `allocate` owes is the step.
    pub proof fn lemma_alloc_step(old: HeapState, wanted: usize, new: HeapState, r: Option<Block>)
        requires
            Self::alloc_spec(old, wanted, new, r),
        ensures
            new == Self::alloc_step(old, wanted).0,
            (r is Some) == (Self::alloc_step(old, wanted).1 is Some),
            r matches Some(b) ==> b@ == Self::alloc_step(old, wanted).1->0,
    {
    }

    /// The outcome `free` owes is the step.
    pub proof fn lemma_free_step(old: HeapState, user: int, generation: Option<u32>, new: HeapState, r: Result<(), Error>)
        requires
            Self::free_spec(old, user, generation, new, r),
        ensures
            (new, r) == Self::free_step(old, user, generation),
    {
    }
}

} // verus!
