# smr

State machine replication over Multi-Paxos, written in Verus.

- `src/` is the verified library: the acceptor, proposer and learner of a Paxos
  instance (`multipaxos::synod`), the Multi-Paxos node that runs one instance per
  log slot (`multipaxos`), the proof that the nodes of an instance agree on
  the command they learn (`multipaxos::agreement`) and its lift to whole nodes
  (`multipaxos::node_agreement`), what a restart recovers of an acceptor
  (`multipaxos::recovery`), the protocol events read from a node's messages for
  conformance checking (`multipaxos::trace`), the durable acceptor state and command log
  (`multipaxos::storage`) over a key-value `Storage` with a sorted in-memory
  backend (`storage`), message framing and dialing rules (`channel`), the
  command-line configuration (`config`), the in-order application of committed
  commands to the state machine and its recovery from the command log
  (`applier`), and a single-decree Paxos core (`paxos`). Calls into `serde_json` and `anyhow` stand behind the trusted
  wrappers of `json` and `errors`.
- `app/` is the runtime around it: TCP transport with tokio and bincode, a sled
  backend, and the task loop that feeds the node and hands applied outputs back
  to the waiting proposals, emits the protocol events through `tracing`, and
  offers `Json<T>` for commands that serde can write.
- `tests/` exercises the library, including crash-recovery simulations.
