# memorytracking

Bookkeeping for a memory profiler, written in Rust and verified with Verus.

A tracker is told of every `malloc()`, `free()`, anonymous `mmap()` and `munmap()` of a Python
program, together with the callstack from which it came. It knows at any time how many bytes each
callstack holds and how many each held when most memory was in use, and it prepares reports of
either: lines for a flamegraph that cover the top 99% of memory.

- `src/` is the library. Calls into `im` and `itertools`, and into the standard library where Verus
  has no specification for it (hash maps that hash with `ahash`, hashing), stand behind small
  functions whose contracts are trusted (in `usage.rs`, `hashing.rs`, `interner.rs`, `filter.rs`,
  `text.rs` and `callstack.rs`). Every other function is verified against its contract.
- `src/state.rs` says what a tracker knows and what each event does to it, and `src/laws.rs` what
  can be relied on across events.
- `app/` prints, writes files, draws flamegraphs with `inferno`, and exits.
- `tests/` runs the library.
