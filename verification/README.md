# zone_sdk

The logic of a channel sequencer and of a channel indexer, proved with Verus.

A sequencer publishes inscriptions, atomic bundles and configs on a channel of
a chain that may reorganise. The library tracks what is pending and what is
mined on each branch, decides what is posted, shed, adopted and orphaned as
blocks arrive, keeps the channel's notes, and says when the sequencer may write.

## Layout

- `src/`: the library. Every function carries its contract; the files that end
  in `_laws.rs` state what holds across functions.
  - `src/state.rs`, `src/indexer.rs`: the plain tracker and the indexer.
  - `src/sequencer/state_model.rs`: the mathematical model of the tracker that
    `src/sequencer/state.rs` implements.
  - `src/sequencer/block_event.rs`: what a block does to the tracker and what
    is reported of it.
  - `src/sequencer/sequencer_model.rs`, `zone_sequencer.rs`, `actor.rs`,
    `drive.rs`, `requests.rs`: the sequencer as a state machine.
- `app/`: the node client, ledger and timers around it, in ordinary async Rust.
- `tests/`: the tests.

Hashes, ids, signatures and clock readings come into the library as arguments.
It takes two things on trust: the persistent set of `rpds` in `src/safe_set.rs`
and `hex::encode` in `src/text.rs`.
