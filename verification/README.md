# sylva_core

The integer core of a counter-based random-forest trainer (ExtraTrees and
RandomForest, classification and regression), with its contracts proved by
Verus.

## Layout

- `src/` — the verified library.
  - `rng` — Philox-4x32-10, the counter layout of every random draw, and the
    24-bit uniform numerator.
  - `bootstrap`, `split`, `choice`, `partition` — bootstrap samples, the
    Fisher-Yates feature subset, class tallies, the choice of the best scored
    split, and the row partition of a split.
  - `tree`, `forest`, `ir` — the tree builder (a state machine answered by the
    caller node by node), the assembly of trees into one structure-of-arrays
    forest, and its structural validation.
  - `float`, `float64` — exact integer descriptions of the few single- and
    double-precision operations the core depends on (integer-to-float
    rounding, quotients, square roots, scaled draws).
  - `labels`, `config`, `settings`, `fit`, `parity`, `launch`, `error` —
    label scanning, configuration rules and parsing, boundary checks, split
    statistics, device-launch checks and the typed error.
- `app/` — ordinary Rust around the library: the floating-point impurity and
  split-scoring work, the parallel training loop, serde copies of the public
  types, the Python bindings and the CUDA launches.
- `tests/` — tests of the library, including comparisons of every emulated
  floating-point step with the native operation.

Floating-point values cross the library boundary as their IEEE-754 bit
patterns.
