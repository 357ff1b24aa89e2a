# distributed_block_builder

The decision logic of a two-tier block builder, verified with Verus.

Simulation nodes collect transactions and bundles, cut them into
conflict-free partial blocks and send those to up to five nearby merging
nodes.  Merging nodes take latency-sensitive transactions directly, order
the partial blocks they receive by profit density and merge the ones that
do not conflict into the block they submit.

Layout:

- `src/types.rs` — identifiers, transactions, bundles, partial blocks,
  messages; the transaction identifier.
- `src/conflict.rs` — conflict sets (touched accounts, consumed nonces),
  when two of them conflict, merging, and the algebra of both.
- `src/partial.rs` — first-fit assembly of a partial block, and the proof
  that the result is conflict-free.
- `src/simulation.rs` — the simulation node's state machine: orderflow,
  cancellations, known mergers, choice of mergers, the block timer.
- `src/merging.rs` — profit-density ordering, assembly of the final block,
  the merging node's state machine.
- `src/routing.rs` — who receives a message handed to the hub.
- `src/hex.rs`, `src/bytes.rs` — hex rendering and byte comparisons.
- `app/` — the async runtime: channels, timers, the hub, node event loops
  and serializable copies of the messages.  Every decision it acts on is
  taken by the library.
