# zkml_prover

Validation of models whose parameters were quantized to fixed point.

- `src/` is the library, verified with Verus: the range check of the parameters,
  the static overflow analysis, the accuracy validation with its reports, and the
  scaling of feature vectors. Binary64 numbers are held as their bits and computed
  with as integers; every operation is proved to return the exact result rounded to
  the nearest number.
- `tests/` runs the library, and compares its binary64 arithmetic with that of the
  machine.
- `app/` offers the same functions on `f64` and on the models of `zkml_common`,
  which also quantizes values and runs inference.
