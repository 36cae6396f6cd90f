//! Client-side wire protocols: their encoders, decoders, state machines and
//! rules, each with a contract that Verus checks.
pub mod address_laws;
pub mod address_text;
pub mod crypto;
pub mod destination;
pub mod error;
pub mod error_laws;
pub mod json;
pub mod json_laws;
pub mod limits;
pub mod naive;
pub mod octets;
mod random;
pub mod reality;
pub mod shadowsocks;
pub mod shadowtls;
pub mod socks;
pub mod text;
pub mod text_laws;
pub mod transport_error;
