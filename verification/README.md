# foxwire

The client side of five proxy protocols, as verified state machines: REALITY,
ShadowTLS, Shadowsocks with its disguises, NaiveProxy and SOCKS5.

- `src/` is the library. It opens no socket: bytes go in, bytes and decisions come
  out, and every function says in its contract what they are. The calls into
  outside crates stand behind small trusted functions, most of them in `crypto.rs`,
  `random.rs`, `text.rs` and `json.rs`.
- `tests/` runs the library on concrete values, with the outside crates linked.
- `app/` moves the bytes: sockets, tasks, timeouts, TLS and HTTP/2.

| module | what it holds |
| --- | --- |
| `reality` | ClientHello profiles and their tables, key exchange, key schedule, record layer, the client connection, and a server to test it against |
| `shadowtls` | signing the ClientHello, the server's proof, the records behind the switch |
| `shadowsocks` | the simple-obfs disguise and the Outline prefix |
| `naive` | padding frames, the CONNECT request, the pool of connections |
| `socks` | the codec, the handshake, the datagram relay |

What holds of several functions together is stated in public proof functions,
beside the functions that they speak of or in modules of their own, whose names end
in `_laws` or `_session`.
