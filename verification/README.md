# Starskiff

Starskiff joins machines in different places into virtual networks. A server hands
out identities, addresses and settings; traffic between nodes is encrypted end to end
and goes straight from node to node where that works, over a relay where it does not.

This crate is the node. What it decides and computes is a library verified with
Verus; sockets, files, processes and the command line are ordinary Rust around it.

- `src/` is the library. It does no I/O: it is told what has come, and says what to
  do.
  - `crypto`, `protocol`: session keys, the replay window, tokens, and the wire
    formats between peers, with the relays, and of flows.
  - `session`, `engine`, `flows`, `node`: what a node knows of a peer, of all peers in
    all networks, of its streams and datagrams, and the node as a whole.
  - `runtime`, `heartbeat`, `status`, `enroll`, `control`, `node_config`: settings and
    how a node starts, what it reports, how it talks to the server, and what its
    configuration file says.
  - `proxy`, `transport`: SOCKS5, forwarded ports, and the rules of the sockets.
  - `ipam`, `addr`, `text`, `endec`, `logging`, `models`, `secret`, `secretbox`,
    `platform`, `service_install`, `supervisor`, `tls_verifier`, `net_if`: addresses,
    texts, dates, and what runs around the node.
  - `crypto/primitives.rs` and `tables.rs` hold nearly all calls into other crates,
    each with the contract that is believed of it.
- `tests/` runs the library.
- `app/` is the program `starskiff`.
