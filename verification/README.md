# workassisting

A verified core of a work-assisting scheduler and of the parallel benchmark
kernels that run on it.

`src/` is the library, checked with Verus:

- `distribution`: spreading the chunks of a data-parallel task evenly over
  several counters.
- `claims`: the chunk counters of a task, how workers take chunks from them,
  and the guarantee that every chunk is handed out exactly once.
- `worker`: the order in which an idle worker looks at the others, and the
  reference-count protocol that decides which thread runs a task's finish.
- `lookback`: the per-block bookkeeping of the scan and compaction kernels
  (decoupled look-back).
- `quicksort`: in-place and chunked partitioning, sorting, the task
  decisions and the pending-task counter of the parallel quicksorts.
- `sums`: the array and function sums, their chunks and static splits.
- `lud`: where the tiles and blocks of the tiled LU decomposition lie.
- `benchmark`, `names`: measured thread counts, chart line styles, the
  gnuplot script and data-file header of a benchmark, and the names of the
  benchmarks.

Besides the contracts of the single steps, the library proves what holds of
whole runs in which the threads interleave in any order: every chunk of a
task is handed out exactly once (also for the scheduler whose starting
worker keeps chunk 0 for itself), a task's finish runs exactly once, a
block of the look-back only moves forward and ends with its prefix, a
data-parallel partition is correct whatever order its chunks are taken in,
and both parallel quicksorts sort whatever order their tasks run in.

`app/` holds what runs around it: the threaded runtime with atomics and
work-stealing deques, the benchmark harness, the floating-point LU
decomposition and the benchmark cases. `tests/` exercises the library.
