# Relay

A small, readable CI/CD engine: a pure, deterministic DAG scheduler over an
abstract executor, with content-hash caching. It is written in Verus, and what it
promises is proved.

- Dependency order. A job starts only after every job in its `needs` is done and
  lets it pass.
- Parallelism. Up to N jobs run at once, never more, and no slot stays idle while a
  job could start.
- Failure propagation. A failed job marks its transitive dependents SKIPPED, unless
  it is `continue-on-error`. Independent branches keep going.
- Caching. A job whose key has an entry is not run; its outputs and logs are
  restored. A changed byte of an input changes the key.
- Determinism. The same pipeline and the same answers give the same report. Ties
  break by config order.
- The config text and the pipeline round-trip.

## Layout

- `src/pipeline.rs`, `parser.rs`, `printer.rs`: the config, its parser and printer
- `src/dag.rs`: the graph, its defects, its waves
- `src/machine.rs`: the scheduler, as a machine that says what it waits for and
  takes the answer; `src/schedule.rs` drives it over an `Executor`
- `src/cache.rs`, `content.rs`, `entry.rs`, `hash.rs`: keys, inputs, stored entries
- `src/shell.rs`: what is decided while the steps of a job run
- `src/mock.rs`: the scripted executor
- `src/cli.rs`: arguments and output of the program
- `src/laws.rs`, `time_laws.rs`, `call_laws.rs`, `cache_laws.rs`, `key_laws.rs`,
  `round_trip.rs`: what holds of all runs, keys and configs; `soundness.rs` and
  `progress.rs` carry the proofs
- `app/`: the program itself, which reads files and runs processes

Two functions of the standard library are specified without proof: `String::push`
in `src/text.rs` and `String::from_utf8_lossy` in `src/content.rs`.

The program drives `machine::Scheduler` itself, because the entries of its cache
come from disk and its steps are processes.
