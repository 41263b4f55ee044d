# Kaboodle

Kaboodle finds the other peers of a local network without any central coordination, and keeps track
of them as machines come and go. It follows the SWIM membership gossip protocol, give or take some
details.

The library in `src/` is verified with Verus. It decides; it does not touch the network. Whoever uses
it hands it what came in and what time it is, and sends what it hands back. `app/` does that with
Tokio, and adds a demo.

- `addr`, `text`, `time`: addresses and times as plain values.
- `map`, `observable_hashmap`, `structs`, `table`: what an instance knows of its peers, and who is
  told of changes.
- `crc`, `fingerprint`: the checksum by which peers find out whether they agree.
- `kaboodle`, `suspicion`, `broadcast`, `trimming`, `round`: the protocol. Each step of it is
  described by a function from the state of an instance to its next state and the messages that it
  sends. Where chance decides, the description holds for every choice.
- `client`, `events`, `discovery`, `networking`, `mdns`, `report`: what surrounds the protocol.
- `gossip`, `listing`: a simpler protocol without identities.
- `laws`, `runs`, `gossip_laws`: what holds of the protocols as a whole.
- `identity`, `random`: the outside crates on whose behaviour the proofs rest; so do parts of
  `crc`, `gossip` and `mdns`.
