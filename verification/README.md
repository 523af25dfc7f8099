# tnote

Terminal notepad: each tmux window or shell session gets its own persistent
markdown note, opened in a tmux popup (or inline outside tmux).

## Layout

- `src/` — the verified library. Every function carries a `requires` /
  `ensures` contract that Verus proves; the public proof functions state the
  laws that span several functions.
  - `text` — the string toolkit (lines, splitting, trimming, numbers, paths).
  - `install` — the shell-rc block and the tmux `source-file` line that setup
    adds and uninstall removes.
  - `cli` — argument rules, messages, help and completion scripts.
  - `tmux` — window keys, labels, popup commands and the sweep of stale popup
    sessions.
  - `notes` — note files, links, naming, cleaning and listing.
  - `config` — the config file and environment settings.
  - `editor`, `name_picker`, `viewer`, `render`, `listing`, `upgrade` — the
    decisions of the popup editor, the name picker, the note viewer, the
    rendered note, `tnote list` and the upgrade check.
- `app/` — the program around the library: argument parsing, files,
  processes, terminals.
- `tests/` — tests of the library on concrete values.
