# rh2

A sans-IO HTTP/2 server codec over the [`h2`](https://crates.io/crates/h2) crate,
verified with Verus.

The caller feeds in the bytes that came from the peer, is told of requests, body data
and the ends of streams as events, and drains the bytes to write. `h2` speaks the
protocol; the library backs its transport with buffers in memory, drives it by hand,
and keeps the streams and the body data that waits for the peer's flow-control window.

Body data that is reported goes back to the window of the connection at once. The window
of its stream is refilled when the caller acknowledges the data.

- `src/buffer.rs` — the transport's buffers.
- `src/head.rs` — heads of requests and responses.
- `src/receiving.rs`, `src/sending.rs` — the two halves of one stream.
- `src/connection.rs` — the connection; `src/model.rs` is its mathematical model.
- `src/event.rs`, `src/error.rs`, `src/text.rs` — what the caller is told.
- `src/stream_laws.rs`, `src/connection_laws.rs`, `src/history_laws.rs` — what holds of one
  stream, of a connection, and over any number of calls on it.
- `src/outside.rs` — the outside crates, with the contracts that are taken on trust.
- `app/` — the Python extension module.

What `h2` answers depends on the peer. Each handle of `h2` carries, as ghost state, the
log of what has passed through it: what was asked, and what was answered. The functions
that take one answer as an argument say exactly what follows from it, and the functions
that drive a connection say that the answers in the logs lead from the state before to
the state after.
