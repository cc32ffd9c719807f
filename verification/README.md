# dcs — incremental difference-constraint systems, verified with Verus

A difference constraint `v - u <= c` bounds the difference of two integer
variables. This crate keeps a set of such constraints together with an
assignment that satisfies all of them, and adds constraints one at a time.
When a new constraint is violated, the assignment is repaired by a Dijkstra
search from `v` over reduced costs (`c + value(u) - value(v)`, nonnegative
because the assignment satisfies the system); reaching `u` during the repair
means a negative cycle, and the constraint is refused. All values are `i64`;
where adding a constraint would need a value outside that range, the
addition is reported as an overflow and nothing changes.

Layout of `src/`:

- `common.rs` — `Constraint`, `MultiEdge` (the bounds between one pair of
  variables, least first) and `MultiConstraint`.
- `solution.rs` — `Solution`, a partial assignment kept in a `HashMap`.
- `feasible_system.rs` — `FeasibleSystem`: constraints filed by their two
  variables, each pair's in a priority queue with the least bound first,
  together with a satisfying assignment; the repair search, shortest-path
  queries through `pathfinding::dijkstra`, and the proofs about paths and
  negative cycles.
- `prioritized_multi_constraints.rs` — constraints grouped by pair of
  variables and taken out by priority.
- `priority_queues.rs` — the `priority_queue` crate's `PriorityQueue` as the
  library uses it: one name for what each queue type holds and a wrapper with
  a contract for each method called.
- `lib.rs` — `DCS`, which takes constraints in and on `solve` moves them into
  the feasible part by priority until one is refused, with the proofs that a
  feasible system's assignment satisfies every constraint taken in, that an
  infeasible one has no solution, and that `solve` ends feasible or
  infeasible whenever the values it may need fit `i64` (`solve_fits`).

`tests/` runs the library; `app/` gives constraints a `Display` through a copy
of the type.
