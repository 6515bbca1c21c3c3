# tether-gossip

A bidirectional mirror of an append-only `gossip.md` log over a NATS fleet bus,
with its decision logic verified in Verus.

- `src/` is the verified library: what a tail of the local file publishes
  (`next_tail_event`, `tail_and_publish`), what a remote event appends
  (`apply_remote_event`, then `record_applied` once the block is written), the
  dedup window and publish counter (`DaemonState`), the provenance header, the
  status report, and the bookkeeping of the daemon loop (`after_tail`,
  `after_apply`). `src/model.rs` holds the mathematical model every contract
  speaks of, and `src/laws.rs` the properties that span several steps: loop
  guard, dedup exactly once, consecutive sequence numbers, the round trip
  between two nodes, and, over a model of the daemon loop in which every tail
  that precedes a remote append succeeds, that each locally written byte is
  published in exactly one event while startup content and remote blocks never
  are.
- `app/` is the `wm-tether-gossip` program: command line, state file (JSON),
  file reads and appends, the clock, and the NATS connection. Before it appends
  a remote block it publishes what was written locally since the last tail.
- `tests/` runs the library on concrete inputs, with the gossip file kept in
  memory.
