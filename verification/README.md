# rust_formal_verification

A library for prototyping bit-level symbolic model checking: it reads And-Inverter Graphs in
the binary AIGER format, simulates them, turns them into finite state transition systems
written as CNF formulas, and asks SAT solvers (CaDiCaL, varisat, splr) about them, for example
in a bounded model checker or to check a candidate inductive invariant.

The library under `src/` is verified with Verus: each public function carries a contract over
a mathematical model of its types (literals, clauses and CNFs as sequences and sets, graphs as
an `AigView`, transition systems as an `FstsView`), and the calls into the SAT solver crates
are the only trusted items.

- `src/formulas`: literals, clauses, cubes and CNFs, their DIMACS text and their meaning under
  a valuation.
- `src/models/and_inverter_graph`: reading binary AIGER bytes, the ASCII (`aag`) text, the
  cone of influence of literals, and simulation.
- `src/models/finite_state_transition_system`: the transition system of a graph, moving
  formulas between copies of the state, and checking invariants.
- `src/solvers/sat`: assignments, the DIMACS numbering, solvers called once per formula and the
  CaDiCaL solver that keeps its clauses between queries.
- `src/algorithms`: implication and satisfiability of formulas, the formulas and decisions of
  bounded model checking, why an invariant that the system's check accepts leaves bounded
  model checking nothing to find, and the IC3 and PDR (property directed reachability)
  searches for an inductive invariant or a counterexample.
- `app/`: reading files, printing a simulation, and running a bounded search against the
  clock on a separate thread.

## Notes on the searches and solvers

- IC3 and PDR ask their SAT queries through a solver that is called afresh for each formula
  (a `StatelessSatSolver`); each query function states the formula it asks about. The answer of
  `prove` is checked before it is given: an invariant is returned only after
  `check_invariant` accepted it, and a counterexample only at a depth whose bounded model
  checking formula is satisfiable (the first such depth from the one where the search found
  it); IC3 reports depths 0 and 1 exactly when an initial state is unsafe or one step reaches
  an unsafe state. The open-ended loops of the searches count down a budget of rounds:
  `prove_with_budget` takes it as an argument and returns `None` only when it ran out (or when
  the counterexample's depth cannot be asked for); `prove` runs with `u64::MAX` rounds, and
  the rounds taken are counted (`rounds`). PDR also counts its SAT queries by kind
  (`sat_call_counts`). When blocking fails, a chain of cubes is known to lead from an initial
  state to the bad cube.
- There is no MiniSat front end: the stateful solver is CaDiCaL.
- splr gives up on some inputs (its default configuration has a time limit); `SplrSolver`
  then asks CaDiCaL. varisat takes variable numbers up to 2^28; `VarisatSolver` asks CaDiCaL
  for a CNF with a larger variable.

