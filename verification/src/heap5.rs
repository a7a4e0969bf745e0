//! `heap_5`: `heap_4`'s free list, laid out over several regions of one arena.
//!
//! The allocate, free and insert paths are `heap_4`'s; only the initialiser
//! differs, so this is [`Heap4`] laid out by [`Heap4::define_regions`] with a
//! type around it. A `Heap5` cannot be built without its regions, so the lazy
//! `heap_4` layout can never run on one.
use vstd::prelude::*;
use crate::error::Error;
use crate::free_list::{blocks, largest};
use crate::heap4::{Block, Heap4, HeapState, Region};

verus! {

/// The `heap_5` scheme over an `N`-byte arena carved into regions.
///
/// * `ALIGN` is `portBYTE_ALIGNMENT`.
/// * `LINK` is `sizeof( BlockLink_t )`.
pub struct Heap5<const N: usize, const ALIGN: usize, const LINK: usize> {
    inner: Heap4<N, ALIGN, LINK>,
}

impl<const N: usize, const ALIGN: usize, const LINK: usize> View for Heap5<N, ALIGN, LINK> {
    type V = HeapState;

    closed spec fn view(&self) -> HeapState {
        self.inner@
    }
}

impl<const N: usize, const ALIGN: usize, const LINK: usize> Heap5<N, ALIGN, LINK> {
    /// The heap is well formed and laid out over its regions.
    pub closed spec fn wf(&self) -> bool {
        &&& self.inner.wf()
        &&& self.inner@.initialised
    }

    /// The arena's bytes.
    pub closed spec fn arena(&self) -> Seq<u8> {
        self.inner.arena()
    }

    /// `xHeapStructSize`.
    pub fn struct_size() -> (r: usize)
        ensures
            r == Heap4::<N, ALIGN, LINK>::header_size(),
    {
        Heap4::<N, ALIGN, LINK>::struct_size()
    }

    /// A heap over `regions`, which is `vPortDefineHeapRegions`.
    ///
    /// Refused with `InvalidArgument` when there are no regions, or one does
    /// not fit, has no room for a block and its end marker, or is out of
    /// address order (that order is asserted, not sorted into). The heap is
    /// well formed when the layout is sound; see [`Heap4::define_regions`].
    pub fn new(regions: &[Region]) -> (r: Result<Self, Error>)
        requires
            Heap4::<N, ALIGN, LINK>::geometry(),
        ensures
            (r is Ok) == (regions@.len() > 0
                && Heap4::<N, ALIGN, LINK>::first_refused(regions@, 0) == regions@.len()),
            r matches Err(e) ==> e == Error::InvalidArgument,
            r matches Ok(h) ==> Heap4::<N, ALIGN, LINK>::define_spec(Heap4::<N, ALIGN, LINK>::fresh(), regions@, h@, Ok(())),
            r matches Ok(h) ==> (Heap4::<N, ALIGN, LINK>::layout_sound(regions@, regions@.len() as int) ==> h.wf()),
    {
        proof {
            Heap4::<N, ALIGN, LINK>::lemma_first_refused(regions@, 0);
        }
        let mut inner = Heap4::new();
        match inner.define_regions(regions) {
            Ok(()) => Ok(Heap5 { inner }),
            Err(e) => Err(e),
        }
    }

    /// `pvPortMalloc`: the block first fit chooses, or `None`.
    pub fn allocate(&mut self, wanted: usize) -> (r: Option<Block>)
        requires
            old(self).wf(),
        ensures
            final(self).wf(),
            Heap4::<N, ALIGN, LINK>::alloc_spec(old(self)@, wanted, final(self)@, r),
            Heap4::<N, ALIGN, LINK>::blocks_kept(old(self)@, old(self).arena(), final(self).arena()),
    {
        self.inner.allocate(wanted)
    }

    /// `vPortFree`, with `heap_4`'s refusals.
    pub fn free(&mut self, block: Block) -> (r: Result<(), Error>)
        requires
            old(self).wf(),
        ensures
            final(self).wf(),
            Heap4::<N, ALIGN, LINK>::free_spec(old(self)@, block@.0 as int, Some(block@.1), final(self)@, r),
            r is Err ==> final(self).arena() == old(self).arena(),
            Heap4::<N, ALIGN, LINK>::others_kept(
                old(self)@,
                old(self).arena(),
                final(self).arena(),
                block@.0 - Heap4::<N, ALIGN, LINK>::header_size(),
            ),
    {
        self.inner.free(block)
    }

    /// `xPortGetFreeHeapSize`.
    pub fn free_bytes(&self) -> (r: usize)
        ensures
            r == self@.free_bytes,
    {
        self.inner.free_bytes()
    }

    /// `xPortGetMinimumEverFreeHeapSize`.
    pub fn minimum_ever_free_bytes(&self) -> (r: usize)
        ensures
            r == self@.minimum_ever_free,
    {
        self.inner.minimum_ever_free_bytes()
    }

    /// How many allocations succeeded.
    pub fn allocations(&self) -> (r: usize)
        ensures
            r == self@.allocations,
    {
        self.inner.allocations()
    }

    /// How many frees succeeded.
    pub fn frees(&self) -> (r: usize)
        ensures
            r == self@.frees,
    {
        self.inner.frees()
    }

    /// How many free blocks there are (the end markers between regions are
    /// not free blocks), and the largest.
    pub fn free_list_shape(&self) -> (r: (usize, usize))
        requires
            self.wf(),
        ensures
            r.0 == blocks(self@.free_list),
            r.1 == largest(self@.free_list),
    {
        self.inner.free_list_shape()
    }

    /// The arena's bytes, to read and write; the heap stays well formed when
    /// the bytes written keep its headers.
    pub fn arena_mut(&mut self) -> (r: &mut [u8; N])
        ensures
            r@ == old(self).arena(),
            final(self).arena() == final(r)@,
            final(self)@ == old(self)@,
            old(self).wf() && Heap4::<N, ALIGN, LINK>::keeps_headers(old(self)@, old(self).arena(), final(r)@)
                ==> final(self).wf(),
    {
        self.inner.arena_mut()
    }
}

} // verus!
