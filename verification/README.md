# lumina_core

The portable raster core of the Lumina editor: RGBA8 frames and their
codecs, the render and preview caches, mask bookkeeping (loading, graph
evaluation, tiles, alignment), the heuristic transparent fill and canvas
expand, denoise tile assembly and status, memory budgets and the largest
axis-aligned crop.

- `src/` is the library, written in Verus. Its functions carry
  `requires`/`ensures` contracts that Verus proves (the cancellation flag
  and the job-generation counter, which live in std atomics, state nothing
  of the values they hold); the public `lemma_*` proof
  functions state properties that span several calls (what a cache read gives
  back after a write, which entries an insert evicts, that mask memoization is
  transparent, ...). Calls into `blake3` and `image` go through a few small
  trusted wrappers whose contracts are documented where they stand.
- `tests/` exercises the library from outside on concrete values.
- `app/` holds what Verus does not take: floating-point rendering paths
  (bilinear scaling, rotation by arbitrary angles, histogram statistics,
  brush rasterization, denoise blending), file and environment access,
  thread-local caches and the serde-facing copies of library types.
