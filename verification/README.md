# heartbeat-rs

A stop hook for message-driven agent sessions, written in Rust and verified with Verus.

An agent asks a hook, whenever it stops, whether its session goes on. `heartbeat-stop` answers with
the next message of a line-based inbox. A message stays recorded in flight until the agent has
answered it; a session that dies in between leaves an orphan, which `heartbeat-stop recover`
delivers again, sets aside or gives up. `heartbeat-launch` runs the agent in a pseudo-terminal, with
a time limit, idle detection and a bounded log of its output.

## Layout

- `src/` is the library. Every function in it is verified against its contract, except those marked
  `external_body`: they call other crates or the standard library, and the comment above each says
  what is taken on trust.
  - `session_dir`: the files of a session directory, and the effects on them in order
  - `inbox`, `in_flight`, `hook`, `recover`: reading, delivering, acknowledging, recovering
  - `session`: what holds of whole sessions, crashes and failed writes included
  - `pty`, `idle`, `reader`, `ring_log`, `launch`: the decisions behind a supervised child
  - `text`, `calendar`, `paths`, `json`, `error`: what the others are made of
- `tests/` runs the library on concrete values.
- `app/` holds the two commands: arguments, files, the terminal and the clock.
