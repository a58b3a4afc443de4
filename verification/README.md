# actor_rs

A verified core of an actor framework, written in Verus.

- `src/` is the library. Every function in it is verified against its
  `requires`/`ensures`: vector clocks, the cluster reachability table and
  its laws, actor paths and addresses (and reading them from URLs),
  actor selection, supervision restart bookkeeping, coordinated-shutdown
  phase ordering and plans, death watch, stash, the timer actor's
  handling of expired schedules, and the decisions of the
  local actor reference provider and actor references.  Calls into the
  `sha2`, `url`, `regex` and `rand` crates and into the system clock go
  through small trusted wrappers whose contracts are documented where they
  stand.
- `tests/` holds the tests, run against the compiled library.
- `app/` is the runtime glue that Verus does not see: serde copies of the
  configuration types, the loop that delivers actor selections to live
  actors, running a shutdown plan phase by phase with its timeouts, and
  shutting down on Ctrl-C (through tokio).
