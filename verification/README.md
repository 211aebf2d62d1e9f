# paralegal

Verified core of a dependence analysis for Rust programs: the place algebra
that relates MIR places through references, fields and variants, the
traversal queries over a program dependence graph, and the bookkeeping that
builds a partial dependence graph with tentative edges.

Layout:

- `src/algebra.rs`: terms over bases (`Term`, `TermS`), equations
  (`Equality`), cancelling steps, and the equation solvers `solve` and
  `rebase_simplify`, each with an exact specification and the algebraic laws
  the operations obey.
- `src/resolver.rs`: a small model of MIR places, operands and assignments,
  the equations extracted from a body, and `PlaceResolver`, which resolves one
  place in terms of another through `solve`.
- `src/traverse.rs`: edge selections and reachability over a `petgraph`
  `StableGraph` (`generic_flows_to`, `always_depends`), specified over the set
  of the graph's edges.
- `src/construct.rs`: `PartialGraph`, registration of mutations with
  tentativeness derived from overlapping places, inlining of callee graphs,
  and conversion to a `petgraph` `Graph`.
- `app/`: adaptors that only unverified Rust can express (`petgraph` edge
  filters built from function pointers, `Display` for terms and equations).
- `tests/`: executable tests of the library.
