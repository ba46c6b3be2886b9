# jotts

The core of a small self-hosted Markdown notes app, verified with Verus.

- `src/datetime.rs` — the proleptic Gregorian calendar, `days_to_ymd`, and the
  `YYYY-MM-DD HH:MM:SS` timestamps that session expiries are stored as (with the proof that
  they sort as the instants they name).
- `src/auth.rs` — constant-time password checks (`subtle`), session tokens (`rand`), session
  cookies, reading the session token back from a `Cookie` header, and session expiry.
- `src/server.rs` — settings, the answers of the HTTP handlers, static-file content types and
  Markdown rendering (`pulldown-cmark`).
- `src/text.rs` — character-level string helpers and their specifications.
- `app/` — the axum router, templates, request extraction and the note store interface.
