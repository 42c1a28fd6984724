# ziff

Ziff is a desktop diff viewer for reading what changed in a git repository before
handing comments to a command-line agent. This crate is its logic, written in Verus
and proved against its contracts:

- `hunks` — the line-level hunks of one file (gix's histogram diff, grouped with three
  lines of context and numbered on both sides) and the +/- counts, with laws tying the
  headers, the numbering and the counts together.
- `content` — the lines File View numbers, the same lines the diff numbers.
- `changes` — which files differ in each Diff Mode, decided from the status events gix
  reports; rename sources followed back for Branch mode; a stable sort by path.
- `tree` — the sidebar tree built from sorted paths, every path listed once,
  directories first.
- `repos` — the Repo list (add once, remove, find), a Repo's name and default branch,
  and keeping a requested path inside its Repo.
- `branches` — the Base Branch picker's order and what a Fetch tells the user.
- `text`, `order`, `paths`, `types` — characters and strings, the order of `String`s,
  `/`-separated paths, and the values handed back and forth.

`app/` is the Tauri shell around it: the commands the frontend invokes, the Repo list
on disk, the reads of git state through gix, and the fetch thread. It reads, hands the
library plain values, and converts what comes back; the one comparison it makes itself
is of a resolved location that is not UTF-8, which the library cannot hold as text.

`tests/` runs the library on concrete values.
