# sss

A small SAT solver with its proofs. `src/` is the library, verified with
Verus; `app/` is the command line around it; `tests/` runs the library.

- `primitives`, `structures`: atoms, partial assignments, clauses and CNF
  formulas, with their textual renderings.
- `semantics`: what it means for a valuation to satisfy a formula.
- `sat`: unit propagation and the DPLL search; `is_sat` answers exactly
  whether the formula has a model.
- `parser`: the DIMACS reader and the renumbering of its variables, proved
  to keep satisfiability.
- `sfol`, `logic`: the s-expression front end for first order formulas and
  the literal encoding.
- `cli`, `args`, `error`, `solver`, `util`, `text`: the command line model,
  exit codes, messages and string helpers.

`app/main.rs` reads the file named on the command line and prints `SAT` or
`UNSAT`, exiting with `10` or `20`.
