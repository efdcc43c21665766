# devx

A library for describing and checking a developer's environment: capturing a
snapshot of the toolchain, comparing two snapshots, diagnosing common
problems, attributing running processes to projects, and finding large,
stale or duplicate files.

- `src/` is the library, written in Verus. Each public function carries a
  contract (`requires` / `ensures`) that Verus proves; properties that span
  several functions are stated as public proof functions (`lemma_*`).
- `app/` is the command-line program around it: argument parsing, reading
  files and commands, walking directories, the process table, the clock, the
  terminal, and printing. It calls the library for every decision.
- `tests/` runs the library on concrete values.
