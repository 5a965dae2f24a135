# rcore_lab

The logic of a small RISC-V teaching kernel, written in Verus with its
behaviour stated in contracts.

- `src/allocator`: fixed-capacity allocators — a free list, a segment tree
  (the frame allocator's backend) and two buddy-system allocators, one with
  vectors of blocks, one with fixed arrays of block slots.
- `src/scheduler`: stride scheduling.
- `src/process`: thread control blocks, the process they belong to, and the
  processor (running, runnable
  and sleeping threads).
- `src/memory`: addresses and page numbers, Sv39 page-table entries,
  segments, the frame allocator and the page tables of an address space.
- `src/interrupt`: the saved register context, the interrupt descriptor
  table and what the trap handlers decide.
- `src/kernel`: system calls about the calling thread.
- `app`: a hosted driver that plays the part of the boot code, the trap
  entry and the console.
