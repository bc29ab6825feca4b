# tern

Ternary scale theory with machine-checked contracts: scale words and their modes,
step vectors, maximum variety and MOS properties, guide frames (guided generator
sequences), just-intonation ratios and monzos, vals, and the integer solving behind
JI tunings of step signatures.

## Layout

- `src/` — the library, verified with Verus.
  - `words.rs` — scale words, `CountVector`, rotations and least modes, periods,
    spectra, maximum variety, MOS substitution, Bresenham and Bjorklund MOS words,
    chirality.
  - `guide.rs` — guided generator sequences and guide frames.
  - `helpers.rs` — gcd, modular inverses, Bézout coefficients, `ScaleError`.
  - `primes.rs` — the small primes and trial factorisation.
  - `ji_ratio.rs` — `RawJiRatio`: reduced ratios, arithmetic, equave reduction,
    named intervals and scales.
  - `monzo.rs` — `Monzo`: prime-exponent vectors, conversion from and to ratios,
    bounded linear Diophantine solutions and step-signature candidates.
  - `matrix.rs` — three-by-three integer matrices and unimodular solving.
  - `ji.rs` — JI scales: step and cumulative forms, modes, harmonic modes,
    spectra, constant structure, generator-sequence scales, odd limits, text
    forms, and the step sizes realising a step signature from two targets.
  - `equal.rs` — `Val`, a mapping of monzos to steps of an equal temperament, and the
    step counts of equal-division tunings of ternary step signatures.
- `tests/` — tests of the library.
- `app/` — what works in floating point (cents, norms, tuning ranges, patent vals,
  the size filters of the step-signature solvers) and the `serde`/`Display`
  companions of library types.

## What is not here

There is no fast step-signature solver working from a table of 270edo interval
detemperings: that table is not among these sources. JI tunings of a step signature come
from `solve_step_sig` (bounded-exponent solutions) and `solve_step_sig_slow`
(27-odd-limit targets), both in `app/`, on top of the library's integer solving.
