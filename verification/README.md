# ruft

A Raft node whose rules are proved with Verus.

- `src/ruft` is the state machine of a single node. `model.rs` says what every event makes of a node,
  `node.rs` does it, `laws.rs` proves what holds over any number of events, `election.rs` counts votes.
- `src/storage` is what has to survive a restart: the interface that a node writes through, storage in
  memory, and the files of durable storage (`format.rs` the bytes, `wal.rs` the write-ahead log,
  `file.rs` the mirror of the files, `laws.rs` what a restart finds on them).
- `src/rpc` holds the messages and which links they go out on; `src/utilis` the timer and small types.
- `app` is the program around the library: sockets, files, clocks, and the loop that drives a node.

The library reads no clock, no socket and no file. A node is driven by one event at a time and leaves
what it wants done in its outbox. Durable storage says what is to be written, and takes a change over
once it was written.
