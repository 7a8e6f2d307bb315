# sqlmerge

A git merge driver for SQLite databases. `sqlmerge <base> <ours> <theirs>` computes
the changeset from base to theirs with SQLite's session extension and applies it
onto ours, row by row, keyed by primary key.

- A row that only theirs changed takes their value, and a row that is the same in
  ours as in theirs stays. A row that both sides changed differently, be it in the
  same column or in others, is a conflict, and so is one that one side changed and the
  other deleted.
- Conflicts are resolved per table by `sqlmerge.toml`; by default the merge is
  refused and nothing is written.
- Schemas are never merged: the three versions have to share theirs, up to spacing
  and comments, and every user table needs a primary key.

```toml
[policies]
"cache_*" = "theirs"
"audit_log" = "append-only"
```

Policies are `abort`, `ours`, `theirs` and `append-only`. The first pattern that
matches a table decides; `*` stands for any run of characters. Where `ours` or
`theirs` resolves a row whose sides wrote to different columns, both edits are kept.

## Layout

`src/` is the library, verified with Verus:

- `run` is the merge as a sequence of requests and replies; `course` holds what is
  true of every such sequence.
- `merge` decides what becomes of a conflict and how it is reported; `lookup` finds
  the rows that an update is about.
- `schema` compares schemas and looks for missing keys; `divergence` holds what is
  true of the list of differences. SQL texts are compared in the normal form of `sql`;
  `normal_form` holds what that form keeps and what it drops.
- `config` reads policies; `checks` judges the sweeps after a merge; `error` holds
  the refusals and their messages; `text` has characters, numerals and the order of
  names.

`app/` is the program around it: it opens the databases, does what a `MergeRun`
asks for, and converts between SQLite's values and the library's.

What the proofs rest on is marked in the source: the contracts of `String::push`,
`std::str::from_utf8` and `toml::Table::from_str`.
