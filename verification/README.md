# gitkeep

A command-line tool that keeps local archives of GitHub users and organizations:
it clones every repository of the tracked accounts (and of single pinned
repositories) and keeps the clones up to date.

## Layout

- `src/` is the library, verified with Verus. It holds the configuration
  (tracked accounts, pinned and skipped repositories) with its operations, the
  sync state, the decisions of each command (what `add`, `remove`, `skip`,
  `unskip`, `prune`, `list` and `sync` do with their arguments and with what
  GitHub and git answer), and the texts the commands print. `config_laws.rs`
  and `command_laws.rs` state and prove what holds across operations.
- `app/` is the program around the library: argument parsing, the files on
  disk, the GitHub API, running git, prompts and printing.
- `tests/` runs the library on concrete values.
