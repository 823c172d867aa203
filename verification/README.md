# hyperfine

A command-line benchmarking tool. The library under `src/` holds the logic of the tool, with
contracts that Verus proves; the code under `app/` runs commands, prints, writes results and does
floating-point arithmetic.

- `number`: real numbers as bit patterns, and their order
- `random`: the generator that resampling draws its indices from
- `analysis`: bootstrap confidence intervals, speedups from paired samples, and what these mean in
  practice
- `benchmark`: what happens during a benchmark step by step, what is measured, the statistics, the
  warnings, the results, and the sessions that all of this is part of
- `output`: the layout of progress bars
- `options`, `command`: settings and commands

Times are held as bit patterns. Where the logic needs a sum, a mean, a logarithm or the like, it
takes a function that computes it, and the contracts hold whatever that function returns. Some
contracts and laws are stated for functions that have one result for the same arguments. Those in
`analysis::rounding` say how far rounding errors can take a speedup from what it stands for.

A benchmark is a sequence of steps. The library names one step at a time and is told how it went, so
that it decides what is run, how often and in which order without running anything itself.
