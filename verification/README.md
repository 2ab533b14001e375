# corduit

The protocol logic of a proxy client, verified with Verus.

| Module | What it holds |
|---|---|
| `protocol::address` | SOCKS addresses on the wire |
| `protocol::qpack` | QPACK header blocks, HPACK Huffman codes |
| `protocol::tls13` | a TLS 1.3 client: `ClientHello` shapes, key schedule, records, handshake |
| `protocol::reality` | the REALITY session id and its proof |
| `protocol::quic` | a QUIC v1 client: packets, streams, acknowledgements, recovery |
| `protocol::transport`, `protocol::ws` | TLS and WebSocket transports |
| `rpc` | calls and their arguments, the JSON-RPC server, the external controller |
| `types`, `engine`, `json`, `net` | values that pass between them |
| `crypto`, `der`, `x509` | what is taken from outside crates |
| `text`, `wire` | strings and byte strings |

The library does no I/O. Each protocol is a state machine: it is handed the bytes that
arrived and says what to send, or what to do next. `app/` holds the sockets, the threads and
the HTTP servers that run these machines.

Functions marked `external_body` call outside crates. What the library relies on about such
a call is its `ensures` clause, and nothing proves it.
