# consensus

A HotStuff-style consensus node with best-effort broadcast of proposals, whose
logic comes with machine-checked proofs of its contracts.

- `src/` is the verified library: the fair leader schedule and its laws
  (`schedule`), the committee (`committee`), leader election (`leader`),
  messages, digests and their validity checks (`messages`, `crypto`), vote
  aggregation into quorum certificates (`aggregator`), and the state machines of
  the core (`consensus_core`), the proposers (`proposer`, `hotstuff_proposer`)
  and the synchronizer (`synchronizer`); `keyed` holds the pruning of
  round-keyed maps and the digest-keyed map they use.
- `app/` runs those state machines as tasks: networking, storage, timers and
  serialization.
- `tests/` exercises the library on concrete values.
