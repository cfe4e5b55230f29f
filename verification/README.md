# aeronet_transport

The sending side of a packet transport, written in Rust and verified with Verus.

Messages are pushed onto lanes, which differ in what they guarantee of their
messages. A message is split into fragments. A flush puts the fragments that are
due into packets, oldest first, as far as the size of a packet and the bytes left
to send allow it. Fragments of unreliable lanes are then forgotten, and those of
reliable lanes are sent again after a timeout. A transport with nothing to send
stays silent, but for an owed acknowledgement or a heartbeat.

## Layout

- `src/send.rs`: pushing messages and flushing packets.
- `src/transport.rs`, `src/queue.rs`, `src/lane.rs`, `src/limit.rs`, `src/rtt.rs`,
  `src/time.rs`, `src/size.rs`: the state that sending works on.
- `src/frag.rs`, `src/packet.rs`, `src/octets.rs`: how messages are split, and how
  fragments and packets are written and read.
- `src/recv.rs`: what an incoming packet means for sending.
- `src/model.rs`: what the state stands for, and what pushing and flushing make
  of it. The contracts are stated over this model.
- `src/order.rs`, `src/packing.rs`, `src/trace.rs`, `src/wire.rs`: proofs about the
  order of fragments, about filling packets, about whole flushes, and about
  reading packets back.
- `src/laws.rs`: what holds of sending as a whole.
- `tests/`: tests that run the library.
- `app/`: systems which run transports in a `bevy_ecs` world.

The byte buffer and its encodings come from `octs`, and the map of queued messages
from `bevy_platform`. What is relied on of these crates is stated where they are
called, in `src/octets.rs` and `src/queue.rs`; of the standard library it is one
sort, in `src/send.rs`.
