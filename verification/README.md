# easi-job

Recurring background work inside an async process, and its clean shutdown.

Jobs are registered on a `JobSet`: periodic jobs, which tick on a `Schedule`,
and long-running tasks. On shutdown the set cancels a shared token, waits a
grace period, aborts what is left, and reports how each job ended.

* `src/` is the library, verified with Verus. Only what `token` claims of
  tokio-util's cancellation token is taken on trust. It decides and computes:
  * `schedule` — the cadence of a job;
  * `jitter` — the random variation of a wait, with `binary32`, `rounding` and
    `duration` below it;
  * `job` — the driver of a periodic job, from what happened to what to do next;
  * `job_set` — the set, its shutdown, and what its drop calls for;
  * `token` — the cancellation token;
  * `log` — the lines that are logged.
* `app/` is the runtime around it: tokio tasks, clocks, logging.
* `tests/` runs the library, also under a tokio runtime with a paused clock.

Single-precision numbers cross the library's boundary as their 32-bit patterns.
Inside, every number is an integer in a fixed unit and every rounding is spelled
out. A wait is multiplied by the single-precision number nearest to the one that
was drawn among those that differ from one by at most the fraction, so a wait of
a second or more that varies by a tenth is never less than nine nor more than
eleven tenths of it. The bounds are proved; that the arithmetic agrees with
floating point to the nanosecond is tested.
