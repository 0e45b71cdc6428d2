# niri_launcher

A dock-style application launcher for the niri compositor. The verified
library (`src/`) holds the launcher's logic with Verus contracts:

- `text`: a character model of `trim`, `lines`, `split_once`, `split`,
  unsigned decimal parsing and printing, and Unix path joining.
- `desktop`: reading the `[Desktop Entry]` group of a `.desktop` file.
- `apps`: gathering applications (first of each name), the search
  directories, icon lookup, terminal choice and the launch command line.
- `cache`: the launch-frequency cache, its update rules and its file format.
- `order`: stable ordering by a small key.
- `config`: the configuration file's `key=value` settings.
- `launcher`: launch order, stale cache entries, icon choice and matching
  windows to applications.
- `error`: the errors and their messages.

`app/` is the program around it: environment, files, IPC with niri,
notifications and the guido user interface.
