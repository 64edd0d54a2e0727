//! Connection configuration: the client builder's knobs and the validation
//! that turns them into the settings a connection is opened with. The
//! settings are plain data — the embedding loads TLS material, resolves the
//! address and attaches the bearer header to each outgoing call.

use vstd::prelude::*;

use crate::error::TransferError;
use vstd::string::StringExecFns;

verus! {

/// Two optional strings carrying the same characters.
pub open spec fn same_opt_string(a: Option<String>, b: Option<String>) -> bool {
    match (a, b) {
        (Option::None, Option::None) => true,
        (Option::Some(x), Option::Some(y)) => x@ == y@,
        _ => false,
    }
}

/// The default chunk size: payloads beyond it are fragmented.
pub const CHUNK_SIZE_LIMIT: usize = 1024 * 1024;

/// The default concurrency limit on the connection.
pub const DEFAULT_CONCURRENCY_LIMIT: usize = 10;

/// The knobs a client is configured with. Durations are in milliseconds.
#[derive(Debug, Clone)]
pub struct ClientBuilder {
    pub addr: String,
    pub concurrency_limit: usize,
    pub connect_timeout_ms: Option<u64>,
    pub timeout_ms: Option<u64>,
    pub tls: bool,
    pub tls_ca: Option<String>,
    pub tls_domain: Option<String>,
    pub auth_token: Option<String>,
    pub chunk_size: usize,
}

/// What a connection is opened with, once validated: the concurrency limit
/// clamped to at least one and the auth token turned into the bearer header
/// attached to every call.
#[derive(Debug, Clone)]
pub struct EndpointSettings {
    pub addr: String,
    pub concurrency_limit: usize,
    pub connect_timeout_ms: Option<u64>,
    pub timeout_ms: Option<u64>,
    pub tls: bool,
    pub tls_ca: Option<String>,
    pub tls_domain: Option<String>,
    pub bearer_header: Option<String>,
}

impl Default for ClientBuilder {
    /// An unconfigured builder: no address, the default concurrency limit and
    /// chunk size, no timeouts, no TLS, no auth token.
    fn default() -> (b: ClientBuilder)
        ensures
            b.addr@ == Seq::<char>::empty(),
            b.concurrency_limit == DEFAULT_CONCURRENCY_LIMIT,
            b.connect_timeout_ms is None,
            b.timeout_ms is None,
            !b.tls,
            b.tls_ca is None,
            b.tls_domain is None,
            b.auth_token is None,
            b.chunk_size == CHUNK_SIZE_LIMIT,
    {
        ClientBuilder {
            addr: String::new(),
            concurrency_limit: DEFAULT_CONCURRENCY_LIMIT,
            connect_timeout_ms: None,
            timeout_ms: None,
            tls: false,
            tls_ca: None,
            tls_domain: None,
            auth_token: None,
            chunk_size: CHUNK_SIZE_LIMIT,
        }
    }
}

/// All fields of two builders agree but for the ones a setter names.
pub open spec fn same_builder_except(
    a: ClientBuilder,
    b: ClientBuilder,
    addr: bool,
    concurrency: bool,
    connect_timeout: bool,
    timeout: bool,
    tls: bool,
    auth: bool,
    chunk: bool,
) -> bool {
    &&& (!addr ==> b.addr@ == a.addr@)
    &&& (!concurrency ==> b.concurrency_limit == a.concurrency_limit)
    &&& (!connect_timeout ==> b.connect_timeout_ms == a.connect_timeout_ms)
    &&& (!timeout ==> b.timeout_ms == a.timeout_ms)
    &&& (!tls ==> b.tls == a.tls && same_opt_string(b.tls_ca, a.tls_ca) && same_opt_string(
        b.tls_domain,
        a.tls_domain,
    ))
    &&& (!auth ==> same_opt_string(b.auth_token, a.auth_token))
    &&& (!chunk ==> b.chunk_size == a.chunk_size)
}

impl ClientBuilder {
    /// A builder for the given address, every other knob at its default.
    pub fn new(addr: String) -> (b: ClientBuilder)
        ensures
            b.addr@ == addr@,
            b.concurrency_limit == DEFAULT_CONCURRENCY_LIMIT,
            b.connect_timeout_ms is None,
            b.timeout_ms is None,
            !b.tls,
            b.tls_ca is None,
            b.tls_domain is None,
            b.auth_token is None,
            b.chunk_size == CHUNK_SIZE_LIMIT,
    {
        ClientBuilder { addr, ..Default::default() }
    }

    /// Sets the concurrency limit.
    pub fn concurrency_limit(self, concurrency_limit: usize) -> (b: ClientBuilder)
        ensures
            b.concurrency_limit == concurrency_limit,
            same_builder_except(self, b, false, true, false, false, false, false, false),
    {
        ClientBuilder { concurrency_limit, ..self }
    }

    /// Sets the connect timeout, in milliseconds.
    pub fn connect_timeout(self, connect_timeout_ms: u64) -> (b: ClientBuilder)
        ensures
            b.connect_timeout_ms == Some(connect_timeout_ms),
            same_builder_except(self, b, false, false, true, false, false, false, false),
    {
        ClientBuilder { connect_timeout_ms: Some(connect_timeout_ms), ..self }
    }

    /// Sets the per-call timeout, in milliseconds.
    pub fn timeout(self, timeout_ms: u64) -> (b: ClientBuilder)
        ensures
            b.timeout_ms == Some(timeout_ms),
            same_builder_except(self, b, false, false, false, true, false, false, false),
    {
        ClientBuilder { timeout_ms: Some(timeout_ms), ..self }
    }

    /// Switches TLS on, with an optional CA certificate path and an optional
    /// domain override.
    pub fn tls(self, tls_ca: Option<String>, tls_domain: Option<String>) -> (b: ClientBuilder)
        ensures
            b.tls,
            same_opt_string(b.tls_ca, tls_ca),
            same_opt_string(b.tls_domain, tls_domain),
            same_builder_except(self, b, false, false, false, false, true, false, false),
    {
        ClientBuilder { tls: true, tls_ca, tls_domain, ..self }
    }

    /// Sets the auth token carried as a bearer header on every call.
    pub fn auth_token(self, token: Option<String>) -> (b: ClientBuilder)
        ensures
            same_opt_string(b.auth_token, token),
            same_builder_except(self, b, false, false, false, false, false, true, false),
    {
        ClientBuilder { auth_token: token, ..self }
    }

    /// Sets the chunk size beyond which payloads are fragmented.
    pub fn chunk_size(self, chunk_size: usize) -> (b: ClientBuilder)
        ensures
            b.chunk_size == chunk_size,
            same_builder_except(self, b, false, false, false, false, false, false, true),
    {
        ClientBuilder { chunk_size, ..self }
    }

    /// Validates the knobs into the settings a connection is opened with:
    /// the concurrency limit is clamped to at least one, and a configured
    /// auth token becomes the bearer header — unless it is empty, which is
    /// rejected as a configuration error before any call is made.
    pub fn endpoint_settings(&self) -> (r: Result<EndpointSettings, TransferError>)
        ensures
            r is Err <==> (self.auth_token matches Some(t) && t@.len() == 0),
            r matches Err(e) ==> e == TransferError::EmptyAuthToken,
            r matches Ok(s) ==> {
                &&& s.addr@ == self.addr@
                &&& s.concurrency_limit == if self.concurrency_limit == 0 {
                    1usize
                } else {
                    self.concurrency_limit
                }
                &&& s.concurrency_limit >= 1
                &&& s.connect_timeout_ms == self.connect_timeout_ms
                &&& s.timeout_ms == self.timeout_ms
                &&& s.tls == self.tls
                &&& same_opt_string(s.tls_ca, self.tls_ca)
                &&& same_opt_string(s.tls_domain, self.tls_domain)
                &&& (self.auth_token matches Some(t) ==> s.bearer_header matches Some(h) && h@
                    == "Bearer "@ + t@)
                &&& (self.auth_token is None ==> s.bearer_header is None)
            },
    {
        let bearer_header = match &self.auth_token {
            Some(token) => {
                if token.as_str().is_empty() {
                    return Err(TransferError::EmptyAuthToken);
                }
                Some("Bearer ".to_owned().concat(token.as_str()))
            },
            None => None,
        };
        Ok(
            EndpointSettings {
                addr: self.addr.clone(),
                concurrency_limit: if self.concurrency_limit == 0 {
                    1
                } else {
                    self.concurrency_limit
                },
                connect_timeout_ms: self.connect_timeout_ms,
                timeout_ms: self.timeout_ms,
                tls: self.tls,
                tls_ca: self.tls_ca.clone(),
                tls_domain: self.tls_domain.clone(),
                bearer_header,
            },
        )
    }
}

} // verus!
