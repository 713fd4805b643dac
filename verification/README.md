# nippo_collector

A verified library that turns the histories of coding sessions into the numbers of a daily report.

- `src/` is the library. Verus proves each function against its contract.
  - `opencode` makes sessions of the rows of opencode's databases. `history` says which are read,
    `projects` and `messages` read their rows, and `json` and `filter` serve them.
  - `session` holds sessions and the summary of a single one.
  - `focus` finds blocks of uninterrupted work, `decisions` the prompts in which something was
    decided, `stats` the statistics over all sessions, and `limits` whether they can be represented.
  - `output` assembles the output of a run, and `summary` writes it as text.
  - `clock`, `text`, `order`, `tally` and `lists` are what these stand on.
- `app/` reads the databases, and writes the output as JSON.
- `tests/` runs the library on concrete histories.
