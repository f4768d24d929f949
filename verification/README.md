# molybdenite

A WebSocket library whose protocol core is verified with Verus.

- `src/` is the verified core. It performs no I/O: a `WebSocket` is handed the
  bytes that its transport received, and hands back the bytes to send.
  - `frame.rs`: the wire format, parsing frames, splitting messages into frames
  - `message.rs`: messages, owned and borrowed
  - `websocket.rs`: the life of a connection
  - `handshake.rs`, `head.rs`, `headers.rs`, `reader.rs`: the opening handshake
  - `text.rs`, `encoding.rs`, `number.rs`, `url.rs`, `error.rs`: what these build on
  - `outside.rs`: what is taken from other crates and believed as stated
  - `laws.rs`, `handshake_laws.rs`: what holds of the library as a whole
- `app/` is the asynchronous websocket over tokio, around the core.
- `tests/` runs the core.
