# raft_kv

A replicated key-value store built on the Raft consensus algorithm, with its
logic verified by Verus.

## Layout

- `src/raft.rs`: a Raft node as a pure state machine (elections, log
  replication, commit, snapshots and compaction, applying to the store).
- `src/raft_model.rs`: the mathematical model each handler is held to.
- `src/raft_laws.rs`: properties proved over that model (terms never go
  down, votes and leadership need majorities, commits only of the current
  term, log matching on append, ...).
- `src/cluster.rs`: a cluster of nodes exchanging votes, and election
  safety over every run of it (at most one leader per term).
- `src/store.rs`: the key-value state machine.
- `src/wal.rs`: write-ahead log records and crash recovery (replaying the
  records restores the term, vote, snapshot point and log).
- `src/rpc.rs`: wire messages and the length-prefixed frame layout.
- `src/node.rs`: a node's timers, its handling of each message, and when a
  waiting client write is answered (only once its own entry is committed).
- `src/peers.rs`: the programs' text options.
- `src/client.rs`: how the command-line client finds the leader.
- `app/`: the two programs (`raft-kv-node`, `raft-kv-cli`): networking with
  tokio, JSON with serde, arguments with clap, and the log file.
