# pfloat

Arbitrary-precision binary floating point, written in Verus. The
basic operations (`+ − × ÷`, square root, decimal parsing) are proved
correctly rounded. The elementary and special functions aim at correct
rounding through a Ziv driver, but their contracts prove only part of
it (see `math/` below).

A `BigFloat` is a signed zero, infinity, NaN (quiet or signalling, with a
payload) or a normal value `±sig · 2^(exponent − precision + 1)` with a
`precision`-bit significand held in 64-bit limbs. Every operation takes
one of five rounding modes and returns its result with the IEEE 754
exception flags it raised (`Status`).

Layout of `src/`:

- `limbs.rs` — natural numbers as limb vectors: addition, subtraction,
  multiplication, division, shifts, with their values proved.
- `types.rs`, `round.rs`, `float.rs` — the value model, the rounding of
  an exact quantity to `p` bits under each mode, constructors and
  queries.
- `arith.rs`, `sqrt.rs`, `ordering.rs` — correctly rounded `+ − × ÷`,
  square root and comparison, each stated over the exact operands.
- `parse.rs` — decimal text to correctly rounded values, against a
  grammar stated as spec functions.
- `fixed.rs` — `FixedFloat<PREC>`, a value whose precision is part of
  its type.
- `math/` — the transcendental and special functions (exponentials and
  logarithms, circular and hyperbolic functions and their reciprocals,
  `pow`, `erf`/`erfc`, the gamma family, the exponential, logarithmic,
  sine and cosine integrals, `ζ`, Bessel `Y`), each evaluated at a
  working precision and rounded once by the Ziv driver in
  `math/ziv.rs`. Their contracts state the special values, the domain
  errors and the flags, and the results the code settles exactly: the
  tiny-argument results of `exp`, `expm1`, `log1p`, `sinh`, `tanh` and
  `Si`; the exponent-rim results of `exp` (`|x| ≥ 2^63`), `exp10`
  (`|x| ≥ 2^62`) and `exp2` (`|x| ≥ 2^62`: exact powers, overflow,
  the tie and the sliver below the smallest positive value); the
  saturation of `expm1` and `ζ`; `Γ(n) = (n−1)!` where it fits; and
  correct rounding of integer powers that fit the working precision.
  At the other arguments a contract names the evaluator (`exp_at_w`,
  `sinh_at_w`, …) and states that the result is its value at one of
  the Ziv driver's working precisions, rounded once under the mode.
  What each evaluator's value is, its error bound, and the soundness of
  the Ziv interval test are not proved: the result at an ordinary
  argument is not stated as the function's correctly rounded value.
  `FixedFloat` functions state that their result is one `BigFloat`'s
  function gives at the same value. The argument reduction of the
  circular functions (`math/trig_reduce.rs`) states its steps: the
  product with `2/π`, the nearest integer and its residue mod 4, and
  the scaled remainder, each rounded to nearest.
- `laws.rs` — properties across operations: the order's symmetry and
  reflexivity, rounding to a value's own precision, rounding under
  negation (and with it products and quotients of a negated operand),
  how rounding brackets the exact value, the commutativity of
  addition and multiplication; and the symmetries of the functions
  where their results are settled exactly (`sinh`, `tanh`, `Si` odd at
  tiny arguments, `erf` odd and `cosh` even at zeros and infinities,
  `B(a, b) = B(b, a)` at poles and infinities, `Y₋ₙ = (−1)ⁿYₙ` at the
  pole).

The tests under `tests/` run the compiled library on concrete values.
