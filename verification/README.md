# circbuf

Bounded circular buffers and a bounded first-in first-out queue built on
them, verified with Verus.

- `src/util/buffer.rs`: `Buffer<T>`, a power-of-two array of slots, each
  stamped with an index that packs a lap and an offset; `TryRecv`.
- `src/util/stamp.rs`: the arithmetic of those indices (offsets, laps,
  wrapping around the range of `usize`).
- `src/util/mp/mc/bounded.rs`: `Queue<T>`, the stamp protocol of a bounded
  MPMC queue over a `Buffer`, with its view as a sequence of values and the
  first-in first-out laws.
- `src/server/storage.rs`: a sharded buffer type.
- `app/`: a lock around the queue for sharing it between threads.
- `tests/`: tests on concrete values.
