# pane_watch

Watches terminal panes for text that a user cares about. Rules are regular
expressions; a pane whose recent lines match one is reported, and the rule's
command may be run.

- `src/` is the library, verified with Verus: rule compilation, line cutting
  and normalization, classification, cooldowns, and the decisions of the
  background loop.
- `app/` is the daemon side: config file shape, tmux access, timers,
  processes and logging.
- `tests/` exercises the library with the real `regex` crate.

What is trusted of other code is stated in `src/regexes.rs` (the `regex`
crate), `src/text.rs` (`char::is_alphanumeric`, `String::push`) and
`src/pane_rules.rs` (`Duration`).
