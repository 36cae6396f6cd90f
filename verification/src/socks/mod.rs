//! A SOCKS5 client: its messages, its handshake and its datagram relay.
pub mod codec;
pub mod error;
pub mod handshake;
pub mod udp;
pub mod wire_laws;
