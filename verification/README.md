# p2d

Model counting and d-DNNF compilation for pseudo-Boolean formulas given in the `.opb`
format, written in Verus.

## Layout

- `src/parser.rs`, `src/opb.rs`: reading and writing `.opb` files.
- `src/normalization.rs`, `src/formula.rs`: rewriting every equation into `>=` (or `!=`)
  constraints with non-negative factors and each variable once, and building the formula.
- `src/pseudo_boolean_datastructure.rs`: constraints, propagation of assignments and undoing them.
- `src/solver.rs`: the search that counts models and builds the d-DNNF while it backtracks.
- `src/ddnnf.rs`: d-DNNF nodes, what they mean, and their textual form.
- `src/hypergraph.rs`, `src/components.rs`: the hypergraph of a solver state and its split into
  independent components.
- `src/model_count.rs`, `src/fsum.rs`, `src/key_order.rs`, `src/text.rs`: the mathematical models
  the contracts speak of.
- `src/big_count.rs`, `src/name_map.rs`, `src/literal_order.rs`: big integers, the name bimap and
  the order of literals.
- `app/`: the command-line program (argument handling, files, timing).

## What is proved

`Solver::solve` returns the number of assignments that satisfy every constraint, and a d-DNNF
that is deterministic, decomposable, mentions only the formula's variables and holds under
exactly those assignments. `PseudoBooleanFormula::new` builds constraints that hold exactly where
the file's equations hold, for every file `parse` returns. Literals with factor 0 are never
forced by propagation, and a `!=` whose rewritten right-hand side is negative holds everywhere.
Every or-node of that d-DNNF splits on a variable and puts the branch where it is false first,
and a formula whose constraints all hold before any value is assigned compiles to the true leaf.
The search only passes over a decision whose other branch has no model.
The parser, the rewriting of equations, propagation and undo, the printer and the hypergraph
functions each carry their own contracts. `Solver::to_disconnected_components` splits a solver
state into the connected parts of its hypergraph; the search itself does not branch on
components, so counts and d-DNNFs come from variable decisions alone.
