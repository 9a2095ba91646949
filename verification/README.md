# argon_write

Carries out on files and project files what a client did to instances: instances that were added,
updated or removed. It is written in Rust and verified with Verus.

An operation never touches a file itself. It asks, one request at a time, and goes on with each
reply, so that what it does is proved for every way in which the outside may answer.

- `src/write/` holds the operations. Each starts with `apply_addition`, `apply_update` or
  `apply_removal`, and goes on with `resume`.
- `src/exchange.rs` holds the requests and replies.
- `src/tree.rs`, `src/node.rs`, `src/meta.rs` and `src/snapshot.rs` hold the data: the tree of
  instances, project files, where an instance comes from, and what a client reports.
- `src/read.rs` decides how a client that asks for a message is answered.
- `src/laws/` states and proves what holds of the operations as a whole.
- `app/` performs the requests and serves clients.
