# sat_nexus

A CDCL SAT solver core with its contracts proved by Verus.

- `src/` is the verified library: literals and variables (`lit`, `var`, `lbool`), the
  clause store (`clause`, `clause_allocator`, `clause_database`, `arena`, `cref`), watch
  lists (`watch`), the assignment and trail (`assignment`), index-keyed vectors and a heap
  with a position index (`idx`), the solver core (`solver`: propagation, conflict analysis,
  backjumping, learning, assumptions, cube enumeration by propagation), cube tries
  (`trie`), sign-vector helpers (`cube`), DIMACS clause lines (`dimacs`), partition
  helpers (`partition`) and the value types of the Kissat and MiniSat interfaces.
- `app/` is the command-line program: it reads a DIMACS file (plain or gzip), runs the
  search loop with the floating-point heuristics (variable and clause activities, restart
  schedule, learnt-clause limit) and prints statistics. The solver core reports what the
  heuristics must learn as `ActivityEvent`s.
- `tests/` exercises the library on concrete values.

## What is proved about the solver

- `Solver::inv` holds after every operation: the assignment and trail are consistent,
  every reason clause is sound, every clause that is not deleted has the watches it needs
  on its first two literals, every watch's blocker is a literal of its clause (or fixed
  to false), and every deleted original clause has a literal fixed to true.
- `Solver::watches_sound` (propagation is complete up to the propagation head) is kept by
  propagation, backjumping, decisions, simplification, reduction and the cube walks, and
  is established by adding a clause whose first two literals are not fixed to false.
- `Solver::lemma_nothing_to_propagate`: with nothing left to propagate, no clause is
  falsified or unit. `Solver::lemma_model` and `Solver::lemma_model_originals`: once every
  variable is assigned, every clause (and every original clause) has a true literal.
- `Solver::analyze` returns a clause implied by the clauses and the level-0 literals
  (`implied`): every total assignment that satisfies them satisfies the learnt clause,
  also after the minimization that drops literals whose reasons it already covers.
- `Solver::derived_from(f)`: the solver holds the formula `f`. Every stored clause and
  every literal assigned at level 0 follows from `f`; while the solver is consistent, every
  clause of `f` follows from the original clauses and the level-0 literals; once it is
  inconsistent, `f` has no model. A new solver holds the empty formula; `add_clause` (and
  `add_clause_external`) extends the formula with the clause given; `add_learnt` keeps it
  for a clause that follows from it; every other operation but `clause_mut` keeps it (the
  cube checks when started at level 0), and `propagate_analyze_backtrack` reports a
  refutation only of such a formula.
- `Solver::lemma_refutation_sound`: a solver holding a formula that has a model is
  consistent, and the model makes every level-0 literal true.
  `Solver::lemma_model_of_formula`: once every variable is assigned, with propagation
  complete, the assignment satisfies every clause of the formula the solver holds.
- The cube checks (`propcheck` and its variants), started at level 0 on a solver holding
  `f`, reject a cube only when `f` together with the cube's literals as unit clauses
  (`with_units`) has no model.
- `Solver::analyze_final` (and so the explanation that `decide` returns for a false
  assumption) gives a clause implied by the clauses and the level-0 literals;
  `Solver::lemma_derived_implied`: such a clause follows from every formula the solver
  holds.
