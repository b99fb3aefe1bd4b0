# twistypuzzle

An exact-arithmetic twisty-puzzle toolkit, verified with Verus.

- `src/num`: arbitrary-precision integers (on num-bigint), rationals,
  residues, polynomials over any ring, and factorization over the rationals.
- `src/exact.rs`, `src/math.rs`: algebraic number fields ℚ(θ) with interval
  bounds that narrow to decide signs; exact vectors, planes and quaternions.
- `src/extension.rs`: the common field ℚ(α, β) = ℚ(θ) of two number fields
  (`extend`), and bringing a list of numbers into one field (`promote`).
- `src/piece.rs`, `src/movement.rs`: pieces, exact plane slicing, cuts, stops
  and moves.
- `src/parse.rs`: the expression and recipe grammar, and writing recipes back.
- `src/layout.rs`, `src/batch.rs`, `src/turning.rs`: sticker layouts and
  batches of puzzles stepped together.
- `src/simulator.rs`: the exact state of an interactive session — puzzle,
  grips, turn history and move count — and what a turn does to it.
- `src/render`: the PNG container and the bitmap font's metrics.
- `app/`: argument handling, cube geometry in floating point, file output.

Every function in `src/` carries a contract over mathematical views; the
trusted items are the wrappers around num-bigint, flate2 and
`String::from_utf8`, each with its contract in its doc comment.

What the library does not hold: building a puzzle from a recipe (shells,
cuts and polyhedron expansion), k-th roots in a larger field, the
built-in catalog, glyph-width and polyhedron tables (callers pass them in),
colors, and anything drawn or animated in floating point.
