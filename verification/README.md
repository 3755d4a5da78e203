# keymenu

Mnemonic key chords for the terminal: open the menu, see the available keys,
and type a chord such as `g` then `s` to run `git status`.

- `src/config.rs` — the configuration language (`group` and `keybind`
  statements, positional and keyword arguments, comments, escapes). The
  grammar is written as spec functions; `parse` is proved to follow it, and
  its errors carry the line (and column) that the command line reports.
  Laws state what the grammar promises: quoted strings read back their
  values, every argument form of a statement means the same, groups and
  bindings keep their order, and whitespace and comments change nothing
  before, after or between any two tokens of a source.
- `src/menu.rs` — the menu tree built from a configuration, its model as a
  map from key paths to nodes, and the laws that hold of every menu built.
- `src/ui.rs` — what the interactive chooser decides: how descriptions are
  cut to the terminal width, and what each key press does.
- `src/shell.rs` — the fish, bash and zsh integration scripts.
- `src/text.rs` — character classes and string helpers.
- `app/main.rs` — the command: arguments, configuration lookup and reading,
  the terminal drawing loop, and running the chosen command.
