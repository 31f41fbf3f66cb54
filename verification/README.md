# dif

The core of a Git-aware terminal workspace, verified with Verus: what the
workspace decides and computes, each function with a contract that Verus
proves.

## Layout

- `src/` — the verified library.
  - `status.rs`, `branch.rs`, `diff.rs`: parsing `git status`/`git diff
    --numstat` output and `gh` replies, branch status, side-by-side diffs.
  - `syntax.rs`: syntax highlighting of file contents, line by line.
  - `workspace.rs`, `config.rs`, `keybindings.rs`, `updater.rs`: staging
    rules, the side panel's and title bar's actions, the Git poll's
    decisions, saved projects and sessions, key bindings, release checks.
  - `pane_group.rs`, `terminal_tabs.rs`: split panes and terminal tabs.
  - `terminal_input.rs`, `terminal_screen.rs`, `terminal_view.rs`: key and
    mouse encoding, screen rows and colors, selection, paste payloads.
  - `text_input.rs`: the editing model of a text field.
  - `text.rs`: character-level helpers and UTF-8 lemmas.
- `tests/` — tests of the library.
- `app/` — the I/O around it: running `git` and `gh`, configuration files,
  updates, pseudo-terminals, the terminal emulator, and the renderer's
  floating-point colours.

Laws that span several functions are public proof functions named `law_*`.
