# adas_scheduler

Hybrid priority-laxity scheduling of aperiodic ADAS tasks on a multi-core
processor, verified with Verus.

All real-valued quantities (times in ticks, distances in metres,
coefficients) are fixed-point integers: the real value `x` is stored as
`x * 1_000_000` (`task::FIXED_ONE`).

## Layout

- `src/task.rs` – weather, the time-to-collision deadline model, laxity and
  the relaxation metric; laws: deadlines never get later with a higher
  tightness or earlier with a farther obstacle, and worse weather delays a
  deadline by at most the one unit that rounding can cost.
- `src/ranking.rs` – the ranking rules (score with index tie-break, and the
  relaxation tie band with its time-to-collision margin) and an insertion sort.
- `src/scheduler.rs` – Global EDF, Partitioned EDF, MLLF and the two
  relaxation-based schedulers, their core assignment, and runtime selection;
  laws: no running task is handed to a second core, a busy core only changes
  task when the preemption test passes, the hybrid schedulers keep locked
  cores and place only tasks that can still meet their deadline, laxity
  normalization spans exactly [0, 5], and partitioned EDF binds the `k`-th
  arrival to core `k mod n`.
- `src/machine.rs` – the simulation as a state machine: admission, dropping,
  preemption, assignment and execution passes of a tick.
- `src/simulator.rs` – the tick-based simulation; `run_simulation` is proved to
  end where the state machine ends, plus the laws of a run (every task
  accounted for, each fresh task completed or dropped but never both,
  drops only on negative laxity, no start before arrival, one `Started`
  event per context switch, per-task switch counters that add up to the
  total, one preemptive start per `Preempted` event, a makespan equal to the
  latest finish time, completion events that match the finish times, and
  reproducible runs for the deterministic schedulers).
- `src/sampling.rs` – uniform draws from the seeded generator, each kept with
  the range it was drawn from.
- `src/generator.rs` – random draws of task parameters (from the generator's
  stated ranges) and task construction.
- `src/experiment.rs` – the configurations of the parameter sweep.
- `src/cli.rs`, `src/text.rs` – command-line parsing. The defaults are the
  relaxation scheduler (`--scheduler relaxation`), 2 cores, sunny weather,
  tightness 1.0, utilization 1.5 and seed 42; `demo` takes `--seed <N>` for
  reproducible task sets.
- `app/` – the program: argument reading, output, the UUnifast utilization
  split and the floating-point averages of the sweep, CSV writing.
- `tests/` – scenario tests.
