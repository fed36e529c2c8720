# copilot_sessions

Finds the sessions of the GitHub Copilot CLI that run on a machine and says what each of them is
doing. The library is written in Rust and verified with Verus: what every function does is stated in
its contract and proved.

- `src/discovery.rs`: which processes are sessions, and which log file belongs to which process.
- `src/log.rs`: the process log, line by line.
- `src/events.rs`: the event stream of a session, line by line.
- `src/tail.rs`: reading a growing file piece by piece.
- `src/settings.rs`, `src/json.rs`: the settings file, and JSON as `serde_json` reads it.
- `src/resolve.rs`, `src/session.rs`, `src/processes.rs`, `src/ordering.rs`: putting sessions
  together and in order.
- `src/collector.rs`: what is kept from one look to the next.
- `src/host.rs`, `src/paths.rs`, `src/decimal.rs`, `src/text.rs`: output of system tools, paths,
  numbers and text.
- `app/`: the part that touches files, processes and the clock.

The library reads no file and starts no process. It says what to read and from where, and takes
what was read. The functions named `law_...` state what holds of several of its functions together.
