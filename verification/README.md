# soe_protocol

Version 3 of the SOE network protocol, in Verus: executable Rust whose behaviour is stated
in contracts and proved.

SOE is a transport layer on top of UDP. It adds sessions with a negotiated handshake,
heartbeats and inactivity timeouts, packets verified by a CRC, reliable data that is cut
into fragments and delivered in order, and optional compression and encryption.

## Layout

- `src/`: the protocol, a state machine that does no I/O and reads no clock.
  - `channel`: the reliable data channels. `channel::delivery` states what the two promise
    together: what is given to one end comes out at the other, once, whole and in order.
    `channel::schedule` states it of packets that arrive in any order, any number of times.
  - `session`: one session. `session::model` is what it holds and each step it takes;
    `session::laws` is what holds over several steps and of both ends; `session::runs` and
    `session::sending` are what holds over whole runs of calls.
  - `socket`: many sessions, kept apart by their remote address; with a model and laws of
    its own.
  - `driver`: what a driver does when it wakes up.
  - `packets`, `packet_utils`, `varint`, `crc32`, `rc4`, `zlib`, `wire`: what the protocol
    is made of.
  - `buffer` (the `bytes` crate), `zlib` (the `miniz_oxide` crate) and one function each in
    `packets` and `channel::output` hold what is assumed and not proved.
- `app/`: drivers over real sockets, blocking and with Tokio.
- `tests/`: tests that run the library.

## Limits

A session takes in datagrams while its sequences are below 2^61, far beyond what a session
can reach; `SoeSession::is_ready` tells.
`SoeSession::accepts` tells whether application
data of some length can be cut into packets that the remote accepts.
