# git-credit

Per-author contribution statistics for a git repository that see through
squash merges: a squash-merged pull request is credited to the authors of its
commits, in proportion to the lines each of them changed.

The library under `src/` is verified with Verus; `app/` is the command-line
program around it (argument parsing, libgit2 and GitHub I/O, progress display,
table and JSON printing).

Library modules:

- `calendar` — the proleptic Gregorian calendar stated directly (leap years,
  day counts, the unique date of each day) and the facts the date code rests on.
- `numeric`, `text` — decimal notation, integer parsing as `str::parse` reads
  it, splitting, line and substring search, lexicographic string order.
- `pattern` — the calls into the `regex` crate.
- `git` — authors and bot detection, mailmap resolution (through `git2`),
  PR-number extraction, squash-merge detection, date parsing and ISO 8601
  formatting.
- `filter` — glob exclusion patterns: their regex form and the filtering of
  file deltas.
- `github` — token precedence, GitHub remote URLs, API paths and pagination.
- `stats` — report types, proportional squash-merge attribution, bot
  stripping, the per-author rollup.
- `apportion` — what the attribution and the rollup preserve.
- `exclusion` — one more exclusion pattern never raises a run's line totals.
- `pipeline` — the steps of a run: commit partition, per-commit reports,
  outcome tallies and warnings, bot exclusion, ordering, the final report.
- `output` — number formatting and what a run prints.
- `order` — rearrangements (permutations) of sequences.

`tests/` runs the library on concrete inputs.
