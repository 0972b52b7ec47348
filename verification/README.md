# gh-yard

A gh extension that picks a repository from a `root/host/owner/repo` tree
with fuzzy search and prints its path. The decisions are a library verified
with Verus; a thin binary does the file system, git and terminal work.

## Layout

- `src/` — the verified library (`gh_yard`):
  - `target.rs`: parsing a `get` / `create` spec (`owner/repo`,
    `host/owner/repo`, URLs, scp form) into a host and path.
  - `root.rs`: resolving the root (`YARD_ROOT` → `git config yard.root` →
    `~/yard`), `~` expansion, textual `.` / `..` folding.
  - `scan.rs`: the directory walk's decisions (what is a repository, where
    to descend) and the sort by relative path, with the invariants that make
    a whole run find each repository once, in order.
  - `selector.rs`: the interactive selector as a state machine: key
    bindings, query editing, fuzzy filtering and ranking (through
    nucleo-matcher), list cursor and scrolling, the rows on screen and the
    styled runs of a row (graphemes through unicode-segmentation, widths
    through unicode-width), and how `gh yard <query>` starts.
  - `get.rs`: where a target goes under the root, and the clone command.
  - `cli.rs`: the subcommands and exit codes.
  - `text.rs`: character helpers.
- `app/` — the binary: argument vector, environment, file system, `git` /
  `gh` processes, raw mode and drawing with ratatui, stdout redirection.
- `tests/` — tests of the library.

Every public function of the library carries a contract over
mathematical models (`Seq<char>` for text, views for the types), and the
laws the tool relies on are proof functions (`lemma_*`): for instance that a
parsed target has usable components, that a target's HTTPS URL parses back
to it, that the root is absolute, that cleaning is idempotent, that the
filtered list is determined by the query, and that typing a character then
deleting it restores the selector.
