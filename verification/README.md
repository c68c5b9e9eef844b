# rusteams

The verified core of a terminal client for Microsoft Teams. Every function
under `src/` is proved by Verus against its contract; the program around it
(command line, HTTP, OS keyring, terminal drawing, async loops) lives in
`app/`.

## Layout

- `src/domain/` — chats, messages (ordering, deduplication, sync diff),
  reply threads, presence, rich body segments.
- `src/app/` — connection state machine and backoff, the reducer over
  `AppState`, the shutdown signal, and the decisions of the polling sync
  engine (poll application, watermarks, reconnect re-baselining).
- `src/infra/` — Graph URL builders, status classification, the HTML body
  scanner and mention rewriting; device-code protocol decisions and
  refresh-token storage.
- `src/sanitize.rs`, `src/telemetry.rs` — terminal-safe text and log-line
  redaction.
- `src/tui/` — composer, palette, confirmations, key bindings, notices and
  the read panes' text.
- `src/config.rs` — layered configuration (CLI over environment over file
  over defaults).
- `tests/` — scenario tests over the library.
- `app/` — the `rusteams` binary.

Laws of the library (ordering is idempotent and deterministic, sanitizing is
idempotent and safe, no bearer token or `Authorization` value survives
redaction, threads do not depend on input order, a read gives back
the last write, the first confirmation answer wins, and more) are public
proof functions next to the code they speak of.
