# range_sync

Downloads a chain of blocks from the peers that know it, batch by batch, and hands the batches to a
block processor in order. Verified with Verus.

- `src/types.rs`, `src/batch.rs`, `src/peer_pool.rs`: slots, peers, blocks, batches, and the
  collections that a chain keeps.
- `src/model.rs`: the mathematical model of a chain, and what each event makes of it.
- `src/chain.rs`: `SyncingChain`. Its methods take an event and return the next `Action` that the
  caller is to carry out; their contracts are stated over the model.
- `src/laws.rs`: what holds of a chain across its methods, proved from the model.
- `src/random.rs`: the calls into the `rand` crate, which are trusted rather than proved.
- `app/`: carries out the actions, over `tokio` channels and threads. It is not verified.
