# Sync client library

The client side of a one-way file sync service, verified with Verus.

- `src/text.rs` — characters, whitespace, decimal and hexadecimal rendering,
  the decimal reading of a `u16`.
- `src/error.rs` — `SyncError` and its one-line message.
- `src/http.rs` — the HTTP/1.1 request text and the reading of replies.
- `src/client.rs` — `SyncClient` (server address, requests, verdicts on
  replies), `SyncRequest`, `HttpTransport`.
- `src/files.rs` — sync requests from what the file system reported.
- `src/walk.rs` — which files of a directory tree are queued, and the
  relative paths they are synced by: relative to the directory when it is
  named by an absolute path, through the directory as named otherwise.
- `src/manager.rs` — `SyncManager`, the retrying queue, and `SyncTransport`.
  A transport keeps a record of the calls made on it with its answers, as
  the trait's contract asks of every implementation; the manager's
  contracts say which calls it makes and what it does with the answers. A
  round hands each queued request to the transport once, in order. The
  manager counts, as ghost state, how many requests it took in and
  delivered.
- `src/cli.rs` — the command line.
- `src/laws.rs` — properties proved of the whole: a round keeps exactly the
  requests whose delivery failed and loses none, rounds that make progress
  drain the queue, as do rounds in which no request fails more than a
  bounded number of times from any queue, the pending count balances what was taken in
  against what was delivered, listed paths are relative, a restored queue
  behaves as the one it was taken from, addresses and replies read back as
  written.
- `app/` — the program: sockets, reading the file system, hashing file
  content, printing.
- `tests/` — tests of the library with in-process mock transports.
