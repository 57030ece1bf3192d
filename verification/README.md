# rmf_reservations

Resource reservation for fleets of robots, written in Verus. A robot asks for
one of several alternative reservations (a resource, a duration, a window of
acceptable start times and a cost); the solvers choose one alternative per
request so that no two chosen reservations overlap on a resource.

Times are integer milliseconds since the Unix epoch; durations are integer
milliseconds; costs are integers.

Layout:

- `src/` — the verified library.
  - `request.rs`, `schedule.rs` — requests, alternatives, per-resource schedules.
  - `algorithms/` — the solvers: Kuhn–Munkres matching (`kuhn_munkres`), the
    conflict model with its greedy best-first search (`hierarchical_kuhn_munkres`),
    SAT search over fixed-time alternatives (`sat`), SAT search over start-time
    windows (`sat_flexible_time_model`), and a time-expanded SAT encoding (`sat_teg`).
  - `database/` — the reservation systems that collect requests and hand out claims.
  - `discretization/` — turning windows into fixed start times.
  - `wait_points/` — holding places where robots wait.
  - `scenario_generation/` — random scenarios with a known conflict-free choice.
  - `sat_backend.rs`, `graph.rs` — the `varisat` and `petgraph` calls, with the
    contracts the library relies on.
  - `utils/` — small helpers, and the blocking work queue.
- `tests/` — tests run against the compiled library.
- `app/` — threads, channels, clocks and serialisation around the library.

Run `verus` on `src/lib.rs` (with the outside crates of `Cargo.toml`) to check
the proofs.
