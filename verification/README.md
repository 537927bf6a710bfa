# zpp

Exact and heuristic subset-sum solvers that race on an instance, with a
scheduler that picks which solvers race. The library in `src/` is written in
Verus: every engine's answer is proved correct (a found selection is drawn
from the elements and sums to the target; "impossible" is claimed only when
no selection does), the scheduler's choice is specified exactly, and the
four-way Schroeppel–Shamir search is proved to miss no answer inside its
sum ranges.

Layout:

- `src/spec.rs`, `src/bits.rs`: the mathematical model (sums, selections,
  masks) and lemmas about it.
- `src/bignum.rs`: big numbers, with arithmetic done by `num-bigint`;
  `src/profile.rs`: an instance and the facts the scheduler reads from it.
- `src/knapsack.rs`, `src/bigsum.rs`, `src/gray.rs`, `src/sort.rs`,
  `src/heap.rs`, `src/bigheap.rs`: subset-sum enumeration, sorting, heaps and
  the partitioned Schroeppel–Shamir search (128-bit and big values).
- `src/signed.rs`: signed `{-1, 0, +1}` combinations bucketed by residue.
- `src/engines/`, `src/bitset.rs`, `src/select.rs`: the solvers and their
  helpers.
- `src/scheduler.rs`, `src/controller.rs`: engine selection, the size cap,
  and the state the racing engines share.
- `src/request.rs`: reading numbers, instance files and targets from text.
- `app/`: the program around the library: menus, files, the web
  interface, threads, and the engines that rank by floating-point values.
- `tests/`: tests run against the compiled library.
