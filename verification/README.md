# pomona

`git-pomona` slims a git repository: it keeps the packages that branch tips
still use and removes their old versions from history. It works in three
steps: `analyze` (read-only; chooses paths and writes a plan), `clean`
(builds a mirror clone and rewrites its history) and `push` (checks the
mirror and force-pushes it).

## Layout

- `src/` is the library, verified with Verus: the inventory of a history
  (`inventory`, `model`, `stats`), choosing paths (`select`, `profile`),
  what a clean removes (`removal`), reading git's output (`git`), the mirror
  (`mirror`), the fast-export stream filter (`rewrite::stream`), plans and
  push information (`plan`, `publish`), sizes (`size`), and ordered string
  sets (`strset`, `order`).
- `app/` is the program around it: command-line arguments, the git and hook
  processes, the terminal, and the TOML files.
- `tests/` runs the library on concrete values; git is replaced by a table
  of answers where a function calls it.

The library keeps its own records of what goes out: `GitLog` wraps a
`Git` runner and records each call and its output, `Asked` wraps a `Prompt`
and records each question and answer, `Shown` wraps a `Sink` and records the
text written and the failed writes. The contracts state over these records
which commands run, in which order, which questions are asked and what is
shown. A prompt may state its answers in advance (`Prompt::script`) and a
sink that it never fails (`Sink::infallible`); then the review's outcome
follows from them.
