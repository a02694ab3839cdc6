//! The client for the sync server: where the server is, which requests the
//! client sends it, and how the replies are judged.
//!
//! Moving the bytes over the network is left to the caller: these functions
//! build the request text and read the reply text.

use vstd::prelude::*;
use crate::error::SyncError;
use crate::http::{build_request, parse_reply, request_text, HttpResponse};
use crate::text::{
    chars_between, chars_of, decimal, find_char, first_index, lemma_some_first_index, parse_u16,
    parse_u16_in, push_decimal, text_of,
};

verus! {

/// The scheme that a server address must start with.
pub open spec fn http_scheme() -> Seq<char> {
    seq!['h', 't', 't', 'p', ':', '/', '/']
}

/// How a server address is read: `http://host` or `http://host:port`, with
/// no `/` after the scheme, a non-empty host, and a port as `u16` parsing
/// accepts it; port 80 when none is given. `None` when the address is
/// refused.
pub open spec fn parse_base_url(url: Seq<char>) -> Option<(Seq<char>, u16)> {
    if url.len() < 7 || url.take(7) != http_scheme() {
        None
    } else {
        let rest = url.skip(7);
        if rest.contains('/') {
            None
        } else {
            let (host, port) = match first_index(rest, ':') {
                Some(i) => (rest.take(i), parse_u16(rest.skip(i + 1))),
                None => (rest, Some(80u16)),
            };
            match port {
                Some(p) => if host.len() == 0 {
                    None
                } else {
                    Some((host, p))
                },
                None => None,
            }
        }
    }
}

/// The body of a sync request: `path=<path>` and `hash=<hash>`, each on a
/// line of its own.
pub open spec fn sync_body(path: Seq<char>, hash: Seq<char>) -> Seq<char> {
    "path="@ + path + "\nhash="@ + hash + "\n"@
}

/// The verdict on a health-check reply: healthy exactly when the status is
/// 200; a protocol error when the reply cannot be read.
pub open spec fn health_verdict(reply: Seq<char>, r: Result<bool, SyncError>) -> bool {
    match parse_reply(reply) {
        Ok((status, _)) => r == Ok::<bool, SyncError>(status == 200),
        Err(msg) => r matches Err(SyncError::Protocol(m)) && m@ == msg,
    }
}

/// The verdict on a sync reply: accepted on status 200 or 202; any other
/// status is a server error with that status and the reply's body; a
/// protocol error when the reply cannot be read.
pub open spec fn sync_verdict(reply: Seq<char>, r: Result<(), SyncError>) -> bool {
    match parse_reply(reply) {
        Ok((status, body)) => if status == 200 || status == 202 {
            r is Ok
        } else {
            r matches Err(SyncError::Server(s, b)) && s == status && b@ == body
        },
        Err(msg) => r matches Err(SyncError::Protocol(m)) && m@ == msg,
    }
}

/// A file to be synced: its path and the hash of its content.
#[derive(Debug, Clone, PartialEq, Eq)]
pub struct SyncRequest {
    pub path: String,
    pub hash: String,
}

impl SyncRequest {
    /// An equal copy of this request.
    pub fn duplicate(&self) -> (r: SyncRequest)
        ensures
            r == *self,
    {
        SyncRequest { path: self.path.clone(), hash: self.hash.clone() }
    }
}

/// Where the sync server is: a host name and a port.
#[derive(Debug, Clone)]
pub struct SyncClient {
    host: String,
    port: u16,
}

impl SyncClient {
    /// The host name of the server.
    pub closed spec fn host_text(&self) -> Seq<char> {
        self.host@
    }

    /// The port of the server.
    pub closed spec fn port_number(&self) -> u16 {
        self.port
    }

    /// Reads a server address of the form `http://host[:port]`.
    pub fn new(base_url: &str) -> (r: Result<SyncClient, SyncError>)
        ensures
            match parse_base_url(base_url@) {
                Some((host, port)) => r matches Ok(c) && c.host_text() == host && c.port_number()
                    == port,
                None => r matches Err(SyncError::InvalidBaseUrl(u)) && u@ == base_url@,
            },
    {
        let v = chars_of(base_url);
        let scheme: Vec<char> = vec!['h', 't', 't', 'p', ':', '/', '/'];
        if v.len() < 7 {
            return Err(SyncError::InvalidBaseUrl(String::from_str(base_url)));
        }
        let mut i: usize = 0;
        while i < 7
            invariant
                v@ == base_url@,
                v@.len() >= 7,
                scheme@ == http_scheme(),
                i <= 7,
                forall|j: int| 0 <= j < i ==> v@[j] == scheme@[j],
            decreases 7 - i,
        {
            if v[i] != scheme[i] {
                assert(v@.take(7)[i as int] != http_scheme()[i as int]);
                return Err(SyncError::InvalidBaseUrl(String::from_str(base_url)));
            }
            i += 1;
        }
        assert(v@.take(7) =~= http_scheme());
        let rest = chars_between(&v, 7, v.len());
        assert(rest@ =~= base_url@.skip(7));
        match find_char(&rest, '/') {
            Some(j) => {
                assert(rest@[j as int] == '/');
                assert(rest@.contains('/'));
                return Err(SyncError::InvalidBaseUrl(String::from_str(base_url)));
            },
            None => {
                assert(!rest@.contains('/')) by {
                    if rest@.contains('/') {
                        let j = choose|j: int| 0 <= j < rest@.len() && rest@[j] == '/';
                        lemma_some_first_index(rest@, '/', j);
                    }
                }
            },
        }
        let (host, port) = match find_char(&rest, ':') {
            Some(j) => {
                let port = match parse_u16_in(&rest, j + 1, rest.len()) {
                    Some(p) => p,
                    None => {
                        assert(rest@.subrange(j + 1, rest@.len() as int) =~= rest@.skip(j + 1));
                        return Err(SyncError::InvalidBaseUrl(String::from_str(base_url)));
                    },
                };
                assert(rest@.subrange(j + 1, rest@.len() as int) =~= rest@.skip(j + 1));
                assert(rest@.subrange(0, j as int) =~= rest@.take(j as int));
                (text_of(&rest, 0, j), port)
            },
            None => {
                assert(rest@.subrange(0, rest@.len() as int) =~= rest@);
                (text_of(&rest, 0, rest.len()), 80u16)
            },
        };
        if host.unicode_len() == 0 {
            return Err(SyncError::InvalidBaseUrl(String::from_str(base_url)));
        }
        Ok(SyncClient { host, port })
    }

    /// The host name of the server.
    pub fn host(&self) -> (r: &str)
        ensures
            r@ == self.host_text(),
    {
        self.host.as_str()
    }

    /// The port of the server.
    pub fn port(&self) -> (r: u16)
        ensures
            r == self.port_number(),
    {
        self.port
    }

    /// The `host:port` address to connect to.
    pub fn address(&self) -> (r: String)
        ensures
            r@ == self.host_text() + ":"@ + decimal(self.port_number() as nat),
    {
        let mut r = self.host.clone();
        r.append(":");
        push_decimal(&mut r, self.port as u64);
        r
    }

    /// The request that asks the server whether it is healthy.
    pub fn health_check_request(&self) -> (r: String)
        ensures
            r@ == request_text("GET"@, "/v1/health"@, self.host_text(), ""@),
    {
        build_request("GET", "/v1/health", self.host.as_str(), "")
    }

    /// Judges the server's reply to a health check: `Ok(true)` exactly when
    /// the status is 200.
    pub fn health_check(&self, reply: &str) -> (r: Result<bool, SyncError>)
        ensures
            health_verdict(reply@, r),
    {
        let response = HttpResponse::parse(reply)?;
        Ok(response.status == 200)
    }

    /// The request that reports `req` to the server.
    pub fn sync_file_request(&self, req: &SyncRequest) -> (r: String)
        ensures
            r@ == request_text(
                "POST"@,
                "/v1/sync"@,
                self.host_text(),
                sync_body(req.path@, req.hash@),
            ),
    {
        let mut body = String::from_str("path=");
        body.append(req.path.as_str());
        body.append("\nhash=");
        body.append(req.hash.as_str());
        body.append("\n");
        build_request("POST", "/v1/sync", self.host.as_str(), body.as_str())
    }

    /// Judges the server's reply to a sync request: accepted on 200 and 202,
    /// otherwise a server error carrying the status and the body.
    pub fn sync_file(&self, reply: &str) -> (r: Result<(), SyncError>)
        ensures
            sync_verdict(reply@, r),
    {
        let response = HttpResponse::parse(reply)?;
        if response.status == 200 || response.status == 202 {
            return Ok(());
        }
        Err(SyncError::Server(response.status, response.body))
    }
}

/// A transport to the sync server over HTTP.
pub struct HttpTransport {
    client: SyncClient,
}

impl HttpTransport {
    /// The client this transport talks through.
    pub closed spec fn client_spec(&self) -> SyncClient {
        self.client
    }

    /// A transport to the server at `base_url`, read as `SyncClient::new`
    /// reads it.
    pub fn new(base_url: &str) -> (r: Result<HttpTransport, SyncError>)
        ensures
            match parse_base_url(base_url@) {
                Some((host, port)) => r matches Ok(t) && t.client_spec().host_text() == host
                    && t.client_spec().port_number() == port,
                None => r matches Err(SyncError::InvalidBaseUrl(u)) && u@ == base_url@,
            },
    {
        Ok(HttpTransport { client: SyncClient::new(base_url)? })
    }

    /// The client this transport talks through.
    pub fn client(&self) -> (r: &SyncClient)
        ensures
            *r == self.client_spec(),
    {
        &self.client
    }
}

} // verus!
