# toyexec

A toy reactor and executor whose decisions are verified with Verus.

- `src/` is the library. It makes no system call: each part says what is to be done and
  is told what came of it.
  - `mioio`: sets of readiness kinds and of registration options.
  - `miokqueue`: the changes that a registration submits to a kernel queue, and what the
    kernel's receipts amount to.
  - `net`: sockets as event sources and the state of their registration.
  - `task`: wakers, tasks and futures.
  - `timer`, `periodic`: wakeups by time, and a task that dings at intervals.
  - `timer_run`: what becomes of every registration over a run of the timer's worker.
  - `exec`: the executor's table of tasks and its polling passes.
  - `bitset`, `sys`: words as sets of bits, and the two error numbers taken from `libc`.
- `app/` runs the library: threads, clocks, channels, sockets and `kevent`.
- `tests/` holds examples of every part.
