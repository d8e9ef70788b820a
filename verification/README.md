# openworkers_conformance

The scoring side of a conformance harness for OpenWorkers runtimes, as a
verified library, with the program that drives the runtimes around it.

- `src/harness.rs`: the tests a guest file declares, and the report of a file
  from what its worker answered. The denominator always comes from the source.
- `src/report.rs`: file reports, the scoreboard, its area table and its text.
- `src/suite.rs`: which walked files count and under which area, the order
  they run in, and the filter.
- `src/streaming/`: the streaming battery: what each probe concludes from the
  bytes, chunk times and `exec` status it saw, the outcomes, and the rendering
  and tally of a run.
- `src/order.rs`: rearrangements of `0..n` and rankings by count, in which
  the sorts are stated and shown unique.
- `src/text.rs`: the text helpers the rest is written with.
- `app/`: the binary: walking the suite on disk, driving workers, threads,
  timers and JSON output.
- `tests/`: tests of the library on concrete values.
