# murmur

Gossip-style vibe sharing between the rooms of a network.

- `src/` is the verified library (Verus). It holds the network's structure
  and the bookkeeping of each propagation round:
  - `room.rs`: a room's id, neighbour list and murmur counters;
  - `network.rs`: the network (rooms kept in ascending order of id), adding
    rooms, connecting them, stars and rings, rounds of propagation under a hop limit, checking that rounds
    keep the counters in range, and rebuilding a network from its rooms;
  - `round.rs`: the murmurs of a round and their fates (delivered, dropped,
    undeliverable), with the spec functions that define them;
  - `laws.rs`: proofs of properties that span operations (connecting is
    symmetric, idempotent and commutative, rings and stars join the rooms
    they should, every murmur is accounted for, a round takes as many
    shares out of senders as it gives to receivers; conserving the vibe
    amounts then rests on app/ moving exactly those shares).
- `app/` adds what the library cannot hold: the floating-point vibe and
  confidence of each room, the configuration, the statistics over vibes and
  serde support. It applies each round's deliveries, as decided by the
  library, to the vibe amounts.
- `tests/` exercises the library.
