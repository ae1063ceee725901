# fluxon_kv

The core of a distributed key-value store for large values, written in Verus.

A value has copies in the memory of nodes and on their SSDs. A router knows where they lie and decides
what may be done with them: where a put goes, which copy a get reads and whether the get leaves a
further one, what has to go when a node leaves or a cache is full, and how copies are reclaimed from
their owners. On each node a store lays values out on SSDs in rings.

- `src/` is the library. Everything in it is verified against the contracts it states; the laws that
  hold of several functions together are the public proof functions. What is taken from other crates
  stands behind a few functions that are trusted and say so.
- `tests/` runs the library.
- `app/` runs it for real: io_uring, files, tasks, channels and calls to other nodes.
