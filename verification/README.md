# fissile

Verified rules of a file-size budget tool that reads its Git history.

- `history/` compares two committed states of a repository. It says which
  exception entries came, went, moved or changed their ceiling, and how old the
  standing debt is. Renames carry an identity only on evidence, ages begin at the
  first commit of the current continuous state, and a comparison that cannot be
  made is refused as a whole.
- `staged_history/` counts the edits of a staged file that stayed over its soft
  limit, over every parent of every commit. It asks only for the evidence that it
  needs and never blocks a commit on history that is not proved complete.
- `config/`, `budget`, `exceptions` and `cli` hold the types that a run has
  loaded; `text`, `path_start`, `paths`, `order`, `text_map` and `json` are what the
  rules are written with.

The library takes what Git and the file system said as plain values, and is told
how the platform reads paths. `app/` runs Git, writes scratch trees, reads TOML
and prints diagnostics.

Each module states its contracts over mathematical views of its types. The laws
that span several functions stand in `history/laws.rs` and
`staged_history/laws.rs`.
