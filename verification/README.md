# check-updates

Checks whether the dependencies of a Cargo workspace are up to date, and
rewrites their version requirements in place.

The library under `src/` is verified with Verus:

- `semver_model`, `version`: versions and requirements, which published
  version an update targets, and how a requirement is rewritten for it.
- `resolve`: the packages of a workspace, from what `cargo metadata` and the
  crates.io index report and from the members' manifests.
- `registry`: grouping the usages of the packages by unit (project,
  workspace, global).
- `update`: the updates of each unit, in order, and the lines that show them.
- `plan`, `manifest`: which manifest edits the chosen updates make, and the
  edits themselves on a format-preserving TOML document.
- `picker`: the interactive picker's state, keys and frame.
- `run`: the decisions of a run (mode, filters, messages, exit status).

`app/` is the command-line program around it: arguments, the terminal, the
network, the file system and `cargo update`.
