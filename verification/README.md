# embedded_recruitment_task

A small TCP service: clients send protobuf `ClientMessage`s (an echo of a
text, or the sum of two `int32`s) and the server answers with a
`ServerMessage`.

- `src/wire.rs` — varints, keys and scalar fields of the protobuf wire
  format, with the `prost::encoding` routines that write and read them.
- `src/message.rs`, `src/message/` — the message types, how they are written
  (`encode_to_vec`) and read back (`decode`), and the round-trip laws.
- `src/server.rs` — the answer to each request, the steps of handling one read
  from a client, the server's run/stop rules, and the laws that tie them to
  the wire format (an echo comes back unchanged, an add comes back summed).
- `app/` — the sockets, threads and logging around the library: `Server`
  (`new`, `run`, `stop`) and the per-connection `Client`.
- `tests/` — scenarios of the service and checks of the wire format.
