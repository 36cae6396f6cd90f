//! A ShadowTLS v3 client: the signed hello, the server's proof, and the records
//! that carry data behind the handshake.
pub mod wire;
pub mod wire_laws;
pub mod handshake;
pub mod sender;
pub mod config;
pub mod transport;
