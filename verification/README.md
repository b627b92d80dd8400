# redacted_geyser

A server that hands Solana account updates out to its clients, over TCP or UDP. The library in
`src/` is written in Verus: each function states what it does, and the statements are proved.

| module | content |
| --- | --- |
| `redacted_tcp_types` | limits, operation types and messages of the protocol |
| `wire` | little-endian numbers, and fields laid one behind the other |
| `packet` | the layout of packets, and how they are built |
| `redacted_memory_pool` | the memory that packets are built in, handed out round and round |
| `channel` | the bounded queue in front of each client, from `crossbeam-channel` |
| `program_list` | the programs whose accounts the clients want to hear of |
| `redacted_tcp_server` | the state of the TCP server: connections, requests, updates, senders |
| `redacted_udp_server` | the state of the UDP server: datagrams, heartbeats, updates, senders |

What is trusted without proof stands in `channel`: how a bounded channel accepts and refuses.

`app/` holds what the library has no part in: sockets, threads and the clock. It keeps the library's
state behind a lock, performs what the state machines ask for, and hands back what happened.
