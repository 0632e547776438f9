# offload

Decisions of a parallel test runner: how tests are packed into batches, which
commands run them in a sandbox, what the outcome of a batch is, and how the
history of each test is kept and used.

- `src/` is the library, verified with Verus.
  - `text`, `ranking`, `shell`: characters, stable sorting, shell words
  - `config`: configuration and its defaults
  - `framework`: tests
  - `orchestrator`: scheduling, the pool of sandboxes, running a batch
  - `provider`: command lines and results of the local, default and Modal providers
  - `history`: records, bounded samples, statistics
  - `*_laws.rs` and `history/laws.rs` state what holds across functions
- `tests/` holds its tests.
- `app/` reads and writes files, runs processes and drives the library
  asynchronously.

Durations are whole nanoseconds in the scheduler. In the history, a duration in
seconds is held as a key that orders as the duration does.
