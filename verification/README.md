# rcore_os

The bookkeeping of a small RISC-V (Sv39) teaching kernel as a Verus-verified
library: frame allocation, page tables and address spaces, the kernel's own
address space and its self-check, processes and their stacks, a FIFO
scheduler and the processor's thread switching, saved register contexts, and
the console files.

Layout:

- `src/memory/` — addresses and page numbers, ranges, the frame allocators
  (`frame/`), page-table entries, page tables, segments, `Mapping` (the
  three-level walk) and `MemorySet`, and `new_kernel`.
- `src/process/` — processes (`alloc_page_range`), threads, the kernel stack,
  the `Scheduler` trait with `FifoScheduler`, and `Processor`.
- `src/interrupt/` — `Context` and the breakpoint step.
- `src/fs/`, `src/drivers/` — standard input and output, the driver interface.
- `src/test/` — `kernel_memory_check`, with the proof that the kernel's
  address space always passes it.
- `src/bits.rs` — bit-range access through the `bit_field` crate.
- `app/` — the entry point: the global frame allocator, building the kernel
  process and its threads, and driving the timer ticks.
- `tests/` — tests on concrete values.

Page tables live in the `Mapping` that owns them (512 entries per table), so
the translation of every page is a function of the library's own state, and
the contracts speak of it as a map from 27-bit page keys to entries.
