# redis_starter_rust

The logic of a small Redis-compatible server, with machine-checked
contracts and proofs, and the program around it.

- `src/` is the verified library: request parsing, the commands (`PING`,
  `ECHO`, `SET` with `PX`, `GET`, `INFO`, `REPLCONF`, `PSYNC`, and the
  arguments, acknowledgement count and reply of `WAIT`), the key-value store, the RESP reader for
  the replication stream, the replica's link state machine and replication
  offset, the replica handshake, the snapshot transfer, and the command-line
  configuration. `src/laws.rs` states the properties that hold across these
  operations; the closed form of the configuration is stated in
  `src/config.rs`.
- `app/` is the server: sockets, tasks and channels (tokio), reading the
  snapshot file, the clock, and the loops that feed bytes to the library and
  send what it answers.
- `tests/` runs the library on concrete requests and streams.
