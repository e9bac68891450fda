# tcg_prof

Profiling data for QEMU's TCG plugin interface, verified with Verus.

The library (`src/`) holds the logic of the profiler and of its converter:

- `decoder`: instruction classification (direct and indirect calls and
  jumps, coprocessor use) for AArch64, x86, RISC-V and Hexagon.
- `state`, `edge_storage`, `counters`, `resources`, `plugin`: the
  bookkeeping of a profiling run (blocks, symbols, per-vCPU edge and
  call counters, streaming flushes, discontinuities and device
  accesses) and the records written when the guest exits.
- `exit`, `listing`: merged edge counts, fall-through edges and
  execution-weighted call counts, and why they do not depend on the
  order in which counters are walked.
- `output`, `native`, `roundtrip`: the native profile format, its
  writer and its parser, and the laws that tie them together.
- `elf_index`, `export`, `dump`, `report`, `text`, `bytes`, `sorting`:
  symbol lookup in the guest binary and the renderings for BOLT,
  llvm-profgen, GCC AutoFDO, lld call-graph ordering, temporal traces
  and a readable listing.

`app/` holds what Verus does not see: the converter's command line and
file I/O, and the QEMU plugin's FFI bindings and callbacks, which hand
plain values to the library.

Some of the tables are laid out for verification: the ELF symbol map is
a vector sorted by address (found by binary search), since vstd gives no
specification of an ordered map's range lookup; tables keyed by a struct
or a tuple (translated blocks, merged edge counts, discontinuities) are
vectors with an index keyed by integers, the key type vstd's hash-map
specification supports, and their contracts state that keys are
distinct. The per-vCPU counters that use `rustc_hash` maps keep them,
behind small wrappers.
