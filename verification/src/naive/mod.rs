//! A NaiveProxy client: HTTP/2 CONNECT with padded frames.
pub mod error;
pub mod padding;
pub mod session;
pub mod stream;
pub mod request;
pub mod connect;
pub mod tunnel;
pub mod wire_laws;
