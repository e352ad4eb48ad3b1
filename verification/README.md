# habi_core

A disconnection-tolerant ledger of bearer instruments, written in Verus:
the executable code carries `requires`/`ensures` contracts and proofs that
Verus checks.

## Layout

- `src/` — the verified library.
  - `names.rs`, `text.rs`, `render.rs` — sorted name sets, text helpers,
    `Debug` renderings.
  - `node.rs`, `network.rs` — the centralized model: nodes, symmetric
    links, the actions LinkDown, LinkUp, Propagate and SpendAt, and the two
    invariant checks.
  - `audit.rs` — finding bearers spent by more than one node.
  - `conversion_day.rs`, `conversion_day_coordinator.rs` — the settlement
    barrier over the model and over gathered snapshots, with its safety
    laws.
  - `wire_format.rs`, `wire.rs` — the line protocol and its round-trip laws.
  - `shared_state.rs`, `peer_protocol.rs` — one networked node's state and
    its handling of peer messages.
  - `peers.rs`, `persistence.rs` — the peers file and the saved node state.
  - `admin.rs` — serving an admin command as a state machine; the caller
    does the network and file work it asks for.
- `tests/` — tests of the library.
- `app/` — the programs: the demo scenarios, the networked node and the
  admin client (sockets, threads, files).
