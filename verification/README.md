# yard

`yard` sets up and keeps ROS 2 workspaces in shape. It reads the user's
`yard.toml`, lets a set of modules contribute what they want in the managed
files (`.gitignore`, `pixi.toml`), and reconciles that intent against the
files on disk, co-owning them with the user through marker comments.

The library in `src/` is verified with Verus:

- `adaptors/gitignore` — block fences (`# >>> yard:managed id=... >>>`):
  reading a file into user lines and fences, merging contributions, and
  reconciling; `laws.rs` proves that reading is lossless, that a second
  apply changes nothing, that user lines and overridden fences survive, and
  that merging unions lines per id whatever the order of contributions.
- `adaptors/pixi` — per-key markers (`# yard:managed default=...`): merging
  contributions (failing exactly when two modules disagree), reconciling
  scalars, arrays and dependencies, removal and omit handling; `laws.rs`
  proves the merge characterisation, that user lines survive, and that
  what yard writes reads back in sync (`roundtrip.rs` for a file written
  from scratch, `settle.rs` for a target reconciled twice, `rerun.rs` for
  a second apply to a file yard has just written, where the first apply
  reported no conflict, attached no marker to a key it found unmarked, and
  wrote text the TOML parser accepts).
- `engine` — routing contributions, planning every adaptor and deciding
  the commits; `laws.rs` proves that apply is all or nothing and that a
  second run leaves the `.gitignore` the first one wrote as it is.
- `report` — the text `yard apply` prints for a run's file reports.
- `modules` — the built-in opinions (`ros_workspace`, `pixi_env`).
- `text` — characters, lines and their lemmas.

`app/main.rs` is the command line: it parses `yard.toml`, reads and writes
the files, and prints the text `report::report_text` returns.
