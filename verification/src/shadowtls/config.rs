//! What a ShadowTLS client accepts as its configuration, and the request that it
//! sends where the server is another.
use crate::error::{invalid_input, ErrorKind, Fault, WireError};
use crate::random::random_bytes;
use crate::shadowtls::handshake::{MUDDLED_READ, MUDDLED_RESPONSE_LIMIT};
use crate::text::{hex, hex_text, text_equal, text_of};
use vstd::prelude::*;
use vstd::string::*;

verus! {

/// A version of TLS.
#[derive(Clone, Copy, Debug, PartialEq, Eq, Structural)]
pub enum TlsVersion {
    Tls12,
    Tls13,
}

/// The configuration of a ShadowTLS client, as far as it is checked.
pub struct ShadowTlsConfig {
    pub password: String,
    pub tls_enabled: bool,
    pub min_version: Option<TlsVersion>,
    pub max_version: Option<TlsVersion>,
    pub alpn: Vec<String>,
    pub handshake_timeout_ms: u64,
}

/// Why a configuration is refused.
pub open spec fn config_fault(config: ShadowTlsConfig) -> Option<Fault> {
    if config.password@.len() == 0 {
        Some(invalid_input("ShadowTLS password must not be empty"@))
    } else if !config.tls_enabled || config.min_version == Some(TlsVersion::Tls12)
        || config.max_version == Some(TlsVersion::Tls12) {
        Some(invalid_input("ShadowTLS v3 strict mode requires TLS 1.3"@))
    } else if config.alpn@.len() > 0 && !(config.alpn@.len() == 1 && config.alpn@[0]@
        == "http/1.1"@) {
        Some(invalid_input("ShadowTLS muddled fallback requires empty or HTTP/1.1 ALPN"@))
    } else if config.handshake_timeout_ms < 1 || config.handshake_timeout_ms > 120_000 {
        Some(invalid_input("ShadowTLS handshake_timeout_ms must be in 1..=120000"@))
    } else {
        None
    }
}

fn is_tls12(version: Option<TlsVersion>) -> (old_version: bool)
    ensures
        old_version == (version == Some(TlsVersion::Tls12)),
{
    match version {
        Some(TlsVersion::Tls12) => true,
        _ => false,
    }
}

/// Check a configuration.
pub fn validate_runtime_config(config: &ShadowTlsConfig) -> (result: Result<(), WireError>)
    ensures
        match config_fault(*config) {
            None => result is Ok,
            Some(fault) => result matches Err(error) && error@ == fault,
        },
{
    if config.password.as_str().unicode_len() == 0 {
        return Err(
            WireError::new(ErrorKind::InvalidInput, "ShadowTLS password must not be empty"),
        );
    }
    if !config.tls_enabled || is_tls12(config.min_version) || is_tls12(config.max_version) {
        return Err(
            WireError::new(ErrorKind::InvalidInput, "ShadowTLS v3 strict mode requires TLS 1.3"),
        );
    }
    if config.alpn.len() > 0 {
        if config.alpn.len() != 1 || !text_equal(config.alpn[0].as_str(), "http/1.1") {
            return Err(
                WireError::new(
                    ErrorKind::InvalidInput,
                    "ShadowTLS muddled fallback requires empty or HTTP/1.1 ALPN",
                ),
            );
        }
    }
    if config.handshake_timeout_ms < 1 || config.handshake_timeout_ms > 120_000 {
        return Err(
            WireError::new(
                ErrorKind::InvalidInput,
                "ShadowTLS handshake_timeout_ms must be in 1..=120000",
            ),
        );
    }
    Ok(())
}

/// Check that a profile carries datagrams.
pub fn check_datagrams(udp_over_tcp: bool) -> (result: Result<(), WireError>)
    ensures
        if udp_over_tcp {
            result is Ok
        } else {
            result matches Err(error) && error@ == (
                ErrorKind::Unsupported,
                "UDP-over-TCP is disabled for this ShadowTLS profile"@,
            )
        },
{
    if udp_over_tcp {
        Ok(())
    } else {
        Err(
            WireError::new(
                ErrorKind::Unsupported,
                "UDP-over-TCP is disabled for this ShadowTLS profile",
            ),
        )
    }
}

/// A request for a page that nobody has, as a browser would send it.
pub open spec fn muddled_text(path: Seq<u8>, server_name: Seq<char>) -> Seq<char> {
    "GET /"@ + hex_text(path) + " HTTP/1.1\r\nHost: "@ + server_name
        + "\r\nAccept: */*\r\nConnection: close\r\n\r\n"@
}

/// A request for the page with these bytes as its name.
pub fn muddled_request_for(path: &[u8; 12], server_name: &str) -> (request: String)
    ensures
        request@ == muddled_text(path@, server_name@),
{
    let mut request = text_of("GET /");
    let name = hex(path.as_slice());
    request.append(name.as_str());
    request.append(" HTTP/1.1\r\nHost: ");
    request.append(server_name);
    request.append("\r\nAccept: */*\r\nConnection: close\r\n\r\n");
    request
}

/// A request for a page as it is drawn.
pub fn muddled_request(server_name: &str) -> (request: String)
    ensures
        exists|path: [u8; 12]| request@ == #[trigger] muddled_text(path@, server_name@),
{
    let path: [u8; 12] = random_bytes::<12>();
    muddled_request_for(&path, server_name)
}

/// How much of the answer to such a request is read next, after `total` bytes.
pub fn muddled_read(total: usize) -> (limit: Option<usize>)
    ensures
        match limit {
            Some(count) => total < MUDDLED_RESPONSE_LIMIT && count == if MUDDLED_RESPONSE_LIMIT
                - total < MUDDLED_READ {
                MUDDLED_RESPONSE_LIMIT - total
            } else {
                MUDDLED_READ as int
            },
            None => total >= MUDDLED_RESPONSE_LIMIT,
        },
{
    if total >= MUDDLED_RESPONSE_LIMIT {
        return None;
    }
    let left: usize = MUDDLED_RESPONSE_LIMIT - total;
    if left < MUDDLED_READ {
        Some(left)
    } else {
        Some(MUDDLED_READ)
    }
}

} // verus!
