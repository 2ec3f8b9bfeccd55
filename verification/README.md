# elevator

The decision logic of a node in a distributed elevator system, verified with Verus.

Each node runs one car, shares its state with its peers over UDP, and lets an external
hall request assigner decide which floor it serves next. This crate holds everything that
decides; `app/` holds the node around it (hardware polling, sockets, threads, the assigner
process, logging).

## Layout

- `src/types/elevator.rs`: the state of one elevator and its operations; every change bumps
  the sequence number that orders versions of the state.
- `src/types/systemstate.rs`: the replicated state of the whole system (own record, peer
  records, hall requests with epochs, dead peers) and its merge rules, with the laws that
  merging converges, is idempotent, keeps the newest records and reports exactly its changes.
- `src/fsm.rs`: the motion and door state machine; it returns the hardware actions to perform.
- `src/assigner.rs`: reading the assigner's answer and choosing this node's goal.
- `src/peers.rs`, `src/ids.rs`: peer discovery bookkeeping and the ordering of identifiers.
- `app/`: the executable node.
