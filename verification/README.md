# rusty_rtos_heap_core

FreeRTOS's heap schemes over arenas the allocators own, with handles that
carry a generation, and every operation's behaviour stated as a contract and
proved with Verus.

- `Heap1` (`src/heap1.rs`): a bump index over `N - ALIGN` bytes; requests are
  rounded to the alignment and refused on a strict bound; freeing is refused.
- `Heap4` (`src/heap4.rs`): address-ordered first fit, split when the
  remainder is strictly larger than twice the header, coalescing with both
  neighbours on free. Headers are two little-endian 64-bit words stored in
  the arena. `free` takes the `Block` an allocation answered and refuses an
  offset it could not have handed out, a double free and a stale handle.
- `Heap5` (`src/heap5.rs`): `Heap4` laid out over several regions of its
  arena by `define_regions`.

  `define_regions` accepts every region layout the scheme accepts, and
  `Heap4::new` any parameters. The contracts are proved for a power-of-two
  alignment of at least 8 bytes (headers then sit on whole words), which
  `Heap5::new` and the operations require, and for layouts in which no end
  marker shares a word with another header (`layout_sound`); on an unsound
  layout the heap is laid out as the scheme lays it out, with nothing
  proved of it afterwards.
- `Heap3` (`src/heap3.rs`): the global allocator behind handles and reused
  slots; the one call into the allocator is the only code taken on trust.
- `Pool` (`src/pool.rs`): fixed-size blocks served from a stack of free
  indices.
- `src/workload.rs`: the benchmark workloads as functions of their
  parameters; `app/` is the benchmark binary that prints them, and the
  binding from offsets to addresses.

The abstract state of each allocator is its `View`; the free list of a
`Heap4` is a sequence of `(offset, size)` nodes (`src/free_list.rs`), and its
well-formedness ties that sequence, the allocated blocks and the words in the
arena together. The laws the allocators keep are public proof functions next
to them (`lemma_*`).

The tests under `tests/` run the allocators on concrete workloads.
