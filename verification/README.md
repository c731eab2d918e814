# layer0

A small peer-to-peer node: peers exchange packets over TCP, keep a bounded
table of connections, ping each other, and flood connection requests while
dropping messages they have seen before.

- `src/` is the library, verified with Verus:
  - `ppacket.rs`: the packet and its wire format (little-endian command and
    payload size, UTF-8 checksum, payload), with the round-trip laws.
  - `hashing.rs`: SHA3-256 checksums (rust-crypto), as lower-case hex.
  - `wlist.rs`: the fixed-capacity waiting list.
  - `connections.rs`: the node's state (connections, ping list, seen message
    digests, port, starting addresses) and the operations on it.
  - `client.rs`: what the node does with a received packet, the steps of a
    connection request, the first packet of a new connection, and the
    answers to the local application.
  - `jsonize.rs`: JSON values, held as the JSON text that the json crate
    writes for them; members are read through `json::parse` behind a
    trusted wrapper, and lookups by key and by `a->b` path are verified.
  - `text.rs`: decimal integers, `ip:port` texts and path splitting.
- `app/` is the program around it: sockets, threads, timers, files,
  logging, and the serde form of a packet.

The ping list and the table of seen message digests are keyed by text.
They are kept as vectors with a "no duplicates" invariant rather than as
`HashMap`s: vstd's `HashMap` specifications give nothing provable for
`String` keys, so the map form was not tried.
- `tests/` exercises the library on concrete values.
