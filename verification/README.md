# rev_gol_proof

A verified reduction from satisfiability to predecessors in the Game of Life.

A CNF formula becomes a circuit, the circuit a construction of gates, splitters and an
enforcer, and the construction a routing on a grid whose pieces are published patterns. Each
step has a contract that Verus proves, and each carries a certificate that can be checked.

## Layout

- `src/`: the library.
  - Formulas and circuits: `circuit`, `dimacs`, `reduction`.
  - Constructions: `compiler`, `netlists` (why compiled constructions are sound).
  - Patterns: `library` (the published patterns), `published` (their files), `relations`,
    `gadget_verifier` with `encoding`, `solver` and `clock` (which predecessors a pattern has,
    and for how long they are looked for).
  - Routings: `lanes`, `routing`, `extents` (how long paths get), `inputs`, `padding`.
  - Certificates: `contracts`, `matching` (why contracts match their patterns),
    `certificate`, `interfaces`, `router_basis` (why the basis of
    interfaces covers every routing), `composites`, `wholes`, `discharge`, `compositions`,
    `calibration`.
  - Boards: `stock`, `deltas`, `layout`, `corridors`, `placement`, `domains`, `repairs`,
    `search`, `exact`, `board`, `audit`.
  - Settings and paths: `settings`, `paths`, `grid`.
- `tests/`: tests on concrete values.
- `app/`: the command line, and what reads and writes files.

The pattern files are not part of the library. They are handed to it as texts, by path
(`published::PatternFiles`); `app/` reads them from `vendor/published`.

## What is proved of the whole

The proof functions whose names begin with `law_` state what holds of several functions
together, among them:

- a construction computes its formula, and is satisfiable if and only if the formula is,
  except for the formula without clauses (no value reaches its enforcer) and for formulas in
  which an input named `const_0` stands for a true empty clause;
- every contract matches its published pattern, so that the construction of a formula passes
  the checks that come before routing, unless two empty clauses, or one and an input named
  `const_0`, share a source;
- every port that reads is driven by exactly one net, and no end drives two;
- the paths of a routing are walks, of a length polynomial in the grid of instances;
- the inputs of a routing enter at different places;
- a certificate for the basis of interfaces covers every routing, and leaves the
  construction's certificate with no obligation;
- the search by single pieces finds a placement if there is one;
- what a choice of vectors rules out is in no placement that makes the choice;
- a time limit ends a search for predecessors early, but never changes its answer;
- placed patterns compose to the same pattern in any order, and wherever they lie together;
- a formula that is written in the DIMACS format is read back as it was, whatever blanks stand
  around its numbers, and blank lines and comments in a pattern's text change nothing.
