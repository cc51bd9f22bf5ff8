# ironnest (verified core)

The integer core of a deterministic, embeddable 2D nesting engine, verified with Verus.

`src/` is the verified library:

- `prng` — PCG64 (XSL-RR 128/64) seeded through SplitMix64: the only source of randomness of the
  placement search. Contracts state each output, Lemire's bounded draw and the Fisher–Yates
  shuffle exactly as functions of the 128-bit state; the shuffle is proved to be a permutation.
- `period` — the LCG behind the generator has full period: every 128-bit state is reached from
  every other in fewer than `2^128` steps, which is why Lemire's rejection loop always ends.
- `seeding` — seeding is injective: distinct seeds give distinct states, which stay distinct
  step for step.
- `pair_matrix` — the symmetric pairwise matrix of the collision tracker, stored as a flattened
  upper triangle; the cell offset is proved symmetric and a bijection onto the storage.
- `demand`, `fill` — demand bookkeeping: unplaced instances, the multi-sheet spill, and the
  demand-driven placement loop as a state machine.
- `bpp` — bin-packing instances: import (ids of kept item types and bins must be `0..k`), cost.
- `shape_modification`, `convex_hull` — the ring/index arithmetic of polygon simplification,
  concavity closing, degenerate-vertex removal, hull indices and hull reconstruction.
- `sep`, `search`, `geo_enums` — fixed search budgets, the coordinate-descent axis draw, relations.

`app/` holds the floating-point side (geometry, transformations, losses, sample evaluation),
which uses the library for its randomness and index bookkeeping. `tests/` exercises the library.
