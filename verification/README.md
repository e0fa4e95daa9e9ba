# ratto

Terminal primitives for shell dashboards, verified with Verus: display-width
measurement over ANSI text, tables, joins, boxes and panes, bounded line
capture, dashboard declarations (KDL and TOML tables), pager resolution,
timestamps, fuzzy and substring filtering, and the state machines behind a
live `watch` loop (tick schedule, trigger debouncing, the paint gate).

- `src/` is the library. Every function carries a `requires`/`ensures`
  contract that Verus proves; calls into outside crates (unicode-width,
  ratatui, kdl, jiff, nucleo-matcher, shell-words) go through small trusted
  wrappers whose contracts say what those crates document.
- `tests/` runs the library with the real outside crates linked.
- `app/` is the `rat` command line: argument parsing, the environment,
  child processes and the terminal, driving the library's state machines.
