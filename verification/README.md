# forgesim

A discrete-event simulator for GPU cluster scheduling, verified with Verus.

- `src/` is the verified library: the cluster model (whole GPUs and MIG
  slices), all-or-nothing placement with tenant quotas, NVLink-domain
  preference and first-fit or best-fit GPU selection, MIG repartitioning,
  the FIFO, priority and preemptive priority schedulers, the event engine
  (which loses no job, lets schedulers evict running jobs, which resume for
  their remaining time, and fails gang jobs whose timeout fires while they
  wait), metrics (topology penalties and failed jobs included), agent observations, scheduler
  trace replay, configuration building and the reading of Forge export
  documents. Times are whole seconds and memory sizes whole gigabytes.
  `src/laws.rs` and the `law_` proof functions elsewhere state properties
  that span several operations.
- `app/` reads and writes files (YAML configuration, Forge bundles, JSON
  trace lines and reports), converts between on-disk and library types,
  computes the floating-point report figures and holds the Python bindings.
- `tests/` exercises the library on concrete inputs.
