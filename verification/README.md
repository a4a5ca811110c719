# linarith

An incremental linear feasibility solver over rational numbers, verified with
Verus. Constraints `lhs < rhs`, `lhs <= rhs`, `lhs == rhs`, `lhs >= rhs` and
`lhs > rhs` over variables are kept as bounds on variables and on slack
variables defined by rows of a simplex tableau; bounds can be grouped under
guards, asserted, and retracted in any order; `check` restores feasibility
with the simplex method or reports the guards of a conflict.

## Layout

- `src/rational.rs`, `src/numtheory.rs`: rationals with 64-bit numerator and
  denominator in lowest terms, with `±∞`; every operation states its exact
  result or that it is out of range.
- `src/inf_rational.rs`: values `r + k·ε` with an infinitesimal `ε`, ordered
  lexicographically.
- `src/terms.rs`, `src/lin.rs`: linear expressions as sorted terms, read as
  maps from variables to coefficients; substitution of a variable by an
  expression.
- `src/bounds.rs`: the bound entries of a variable, each value with the guards
  that set it.
- `src/engine.rs`: the solver. Its invariant `inv` covers the structure
  (bounds ordered, non-basic values within bounds, rows over non-basic
  variables, watch lists) and the exact agreement of every basic variable's
  value with its row.
- `src/exact.rs`, `src/rows.rs`: exact rational arithmetic on unbounded
  integers (with the law that a product divided by its factor gives back the
  value), and the lemmas that show moves of values and pivots keep the rows
  satisfied.
- `src/enclose.rs`: laws on the values of expressions: the least and
  greatest values within the bounds enclose the current value, and the value
  of a sum is the sum of the values.
- `src/laws.rs`: laws relating the operations (assert then retract,
  tightest bounds, values satisfying the rows, `check` keeping the solutions
  of the rows, soundness of conflicts).
- `src/text.rs`, `src/constraint.rs`, `src/traits.rs`: text forms, constraint
  identifiers, and `==`/`<` on the numeric types.
- `app/lib.rs`: callbacks on top of the engine's recorded notifications.
- `tests/`: executable tests.
