# zor

A small pty wrapper that watches what a terminal agent draws and announces the agent's state,
`working`, `blocked`, `idle` or `none`, in-band as an OSC 7877 report and out-of-band as event
lines. The library is verified with Verus; the program around it is ordinary Rust.

## Layout

- `src/osc.rs`: the report protocol, with its round trips in `src/osc_laws.rs`
- `src/boundary.rs`, `src/callbacks.rs`, `src/terminal.rs`, `src/mending.rs`, `src/screen.rs`: the
  observed screen and the boundaries of its stream
- `src/rules/`: rule sets, their evaluation, and the identification of agents
- `src/state.rs`: the hysteresis between verdicts and published states, with what holds over its
  whole history in `src/state_history.rs`
- `src/platform/`: when to look at the foreground job, and what is read of its processes
- `src/emit/`: reports, titles and event records
- `src/session.rs`, `src/observe.rs`: what a wrapped command or an observed pane calls for
- `src/fixture.rs`: captured screens and the verdicts expected of them
- `src/pty.rs`, `src/cli.rs`: signals, exit statuses and the command line
- `src/text.rs`, `src/numeral.rs`, `src/json.rs`: texts, numerals and JSON values
- `app/`: the program: terminal, processes, sockets and files
- `tests/`: what the library does on concrete values

Modules named `*_laws` state what holds of several functions together. What is believed of `vt100`,
`regex`, `serde_json` and the standard library stands in `terminal.rs`, `rules/pattern.rs`,
`json.rs` and `text.rs`, item by item.
