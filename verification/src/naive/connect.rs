//! What a NaiveProxy client accepts as its configuration, and how it goes on when
//! a CONNECT fails.
use crate::error::{invalid_input, ErrorKind, Fault, WireError};
use crate::naive::error::{NaiveError, NaiveFault};
use crate::naive::request::{DEFAULT_HANDSHAKE_TIMEOUT_MS, MAX_CONNECT_ATTEMPTS};
use crate::text::{text_equal, text_of};
use crate::transport_error::{TransportError, TransportFault};
use vstd::prelude::*;
use vstd::string::*;

verus! {

/// The configuration of a NaiveProxy client, as far as it is checked.
pub struct NaiveConfig {
    /// Whether TLS is on.
    pub tls_enabled: bool,
    /// The application protocols that TLS offers.
    pub alpn: Vec<String>,
    pub username: Option<String>,
    pub password: Option<String>,
    pub handshake_timeout_ms: u64,
    /// Whether a server that does not negotiate padding is refused.
    pub padding: bool,
}

impl Default for NaiveConfig {
    /// TLS is on and padding is required.
    fn default() -> (config: NaiveConfig)
        ensures
            config.tls_enabled,
            config.alpn@.len() == 0,
            config.username is None,
            config.password is None,
            config.handshake_timeout_ms == DEFAULT_HANDSHAKE_TIMEOUT_MS,
            config.padding,
    {
        NaiveConfig {
            tls_enabled: true,
            alpn: Vec::new(),
            username: None,
            password: None,
            handshake_timeout_ms: DEFAULT_HANDSHAKE_TIMEOUT_MS,
            padding: true,
        }
    }
}

/// Whether a list of protocols is exactly HTTP/2.
pub open spec fn only_h2(alpn: Seq<String>) -> bool {
    alpn.len() == 1 && alpn[0]@ == "h2"@
}

/// Why a configuration is refused.
pub open spec fn config_fault(config: NaiveConfig) -> Option<TransportFault> {
    if !config.tls_enabled {
        Some(TransportFault::Naive(NaiveFault::TlsRequired))
    } else if config.alpn@.len() > 0 && !only_h2(config.alpn@) {
        Some(TransportFault::Naive(NaiveFault::AlpnMismatch))
    } else if config.username is Some != config.password is Some {
        Some(
            TransportFault::Io(
                invalid_input("NaiveProxy requires both username and password, or neither"@),
            ),
        )
    } else if config.password matches Some(password) && password@.len() == 0 {
        Some(TransportFault::Io(invalid_input("NaiveProxy password must not be empty"@)))
    } else if config.handshake_timeout_ms == 0 {
        Some(
            TransportFault::Io(
                invalid_input("NaiveProxy handshake_timeout_ms must be greater than zero"@),
            ),
        )
    } else {
        None
    }
}

fn refused(message: &str) -> (error: TransportError)
    ensures
        error@ == TransportFault::Io(invalid_input(message@)),
{
    TransportError::Io(WireError::new(ErrorKind::InvalidInput, message))
}

impl NaiveConfig {
    /// Check the configuration. What is accepted offers HTTP/2 and nothing else.
    pub fn validated(self) -> (result: Result<NaiveConfig, TransportError>)
        ensures
            match config_fault(self) {
                Some(fault) => result matches Err(error) && error@ == fault,
                None => result matches Ok(config) && only_h2(config.alpn@) && config == (
                NaiveConfig { alpn: config.alpn, ..self }),
            },
    {
        if !self.tls_enabled {
            return Err(TransportError::Naive(NaiveError::TlsRequired));
        }
        if self.alpn.len() > 0 {
            if self.alpn.len() != 1 || !text_equal(self.alpn[0].as_str(), "h2") {
                return Err(TransportError::Naive(NaiveError::AlpnMismatch));
            }
        }
        if self.username.is_some() != self.password.is_some() {
            return Err(refused("NaiveProxy requires both username and password, or neither"));
        }
        if let Some(password) = &self.password {
            if password.as_str().unicode_len() == 0 {
                return Err(refused("NaiveProxy password must not be empty"));
            }
        }
        if self.handshake_timeout_ms == 0 {
            return Err(refused("NaiveProxy handshake_timeout_ms must be greater than zero"));
        }
        let mut alpn: Vec<String> = Vec::new();
        alpn.push(text_of("h2"));
        Ok(
            NaiveConfig {
                tls_enabled: self.tls_enabled,
                alpn,
                username: self.username,
                password: self.password,
                handshake_timeout_ms: self.handshake_timeout_ms,
                padding: self.padding,
            },
        )
    }

    /// The username and the password, where both are there.
    pub fn credentials(&self) -> (credentials: Option<(&str, &str)>)
        ensures
            match (self.username, self.password) {
                (Some(username), Some(password)) => credentials matches Some((name, secret))
                    && name@ == username@ && secret@ == password@,
                _ => credentials is None,
            },
    {
        match (&self.username, &self.password) {
            (Some(username), Some(password)) => Some((username.as_str(), password.as_str())),
            _ => None,
        }
    }
}

/// The fault of every datagram flow.
pub open spec fn datagram_fault() -> Fault {
    (
        ErrorKind::Unsupported,
        "NaiveProxy is an HTTP/2 CONNECT tunnel and cannot carry UDP"@,
    )
}

/// A tunnel carries no datagrams.
pub fn connect_datagram() -> (error: WireError)
    ensures
        error@ == datagram_fault(),
{
    WireError::new(
        ErrorKind::Unsupported,
        "NaiveProxy is an HTTP/2 CONNECT tunnel and cannot carry UDP",
    )
}

/// The attempts of one CONNECT.
pub struct ConnectAttempts {
    made: usize,
    last: Option<NaiveError>,
}

/// The view of the attempts: how many were made, and how the last one failed.
pub struct AttemptsShape {
    pub made: nat,
    pub last: Option<NaiveFault>,
}

impl View for ConnectAttempts {
    type V = AttemptsShape;

    closed spec fn view(&self) -> AttemptsShape {
        AttemptsShape {
            made: self.made as nat,
            last: match self.last {
                Some(error) => Some(error@),
                None => None,
            },
        }
    }
}

/// The fault with which attempts end when none is left.
pub open spec fn exhausted_fault(attempts: AttemptsShape) -> NaiveFault {
    match attempts.last {
        Some(fault) => fault,
        None => NaiveFault::Invalid("no NaiveProxy connection could carry the CONNECT"@),
    }
}

impl ConnectAttempts {
    pub fn new() -> (attempts: ConnectAttempts)
        ensures
            attempts@ == (AttemptsShape { made: 0, last: None }),
    {
        ConnectAttempts { made: 0, last: None }
    }

    /// Whether one more attempt is made.
    pub fn next(&mut self) -> (more: bool)
        ensures
            more == (old(self)@.made < MAX_CONNECT_ATTEMPTS),
            final(self)@ == (AttemptsShape {
                made: if more {
                    old(self)@.made + 1
                } else {
                    old(self)@.made
                },
                ..old(self)@
            }),
    {
        if self.made < MAX_CONNECT_ATTEMPTS {
            self.made = self.made + 1;
            true
        } else {
            false
        }
    }

    /// An attempt failed. A failure of the connection is noted, and its connection
    /// has to leave the pool; any other is the server's answer and is handed back.
    pub fn failed(&mut self, error: NaiveError) -> (answer: Option<NaiveError>)
        ensures
            if error@ is Http2 {
                answer is None && final(self)@ == (AttemptsShape {
                    last: Some(error@),
                    ..old(self)@
                })
            } else {
                answer == Some(error) && final(self)@ == old(self)@
            },
    {
        if error.is_connection_lost() {
            self.last = Some(error);
            None
        } else {
            Some(error)
        }
    }

    /// How the attempts end when none is left.
    pub fn exhausted(self) -> (error: NaiveError)
        ensures
            error@ == exhausted_fault(self@),
    {
        match self.last {
            Some(error) => error,
            None => NaiveError::Invalid("no NaiveProxy connection could carry the CONNECT"),
        }
    }
}

} // verus!
