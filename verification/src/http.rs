//! The boundary types shared with the excluded fetch collaborator: the
//! client handle, the decoded response record, and the error taxonomy. The
//! network work itself (host lookup, socket I/O) lives outside this crate;
//! only the plain values it hands back and forth are modeled here.

use vstd::prelude::*;

verus! {

/// Failures of the upstream collaborators. Malformed markup is never an
/// error — the tree builder repairs it — so the only user-visible failure is
/// a network one, carrying a diagnostic message.
#[derive(Debug, Clone)]
pub enum Error {
    Network(String),
}

impl Error {
    /// The diagnostic message carried by the failure.
    pub fn message(&self) -> (m: &String)
        ensures
            self matches Error::Network(s) ==> m@ == s@,
    {
        match self {
            Error::Network(s) => s,
        }
    }
}

/// A decoded HTTP response: status line parts, headers in arrival order,
/// and the body text that gets fed to the tokenizer.
#[derive(Debug, Clone)]
pub struct HttpResponse {
    pub status_code: u32,
    pub headers: Vec<(String, String)>,
    pub body: String,
}

impl HttpResponse {
    /// Bundle the parts of a decoded response.
    pub fn new(status_code: u32, headers: Vec<(String, String)>, body: String) -> (r: HttpResponse)
        ensures
            r.status_code == status_code,
            r.headers@ == headers@,
            r.body@ == body@,
    {
        HttpResponse { status_code, headers, body }
    }
}

/// Handle for issuing page fetches. The fetch itself does socket I/O and is
/// performed by the surrounding application code; the handle only marks
/// whose responsibility that is.
#[derive(Debug, Clone)]
pub struct HttpClient {}

impl HttpClient {
    /// A fresh client handle.
    pub fn new() -> (c: HttpClient)
        ensures
            c == (HttpClient {  }),
    {
        HttpClient {  }
    }

    /// The diagnostic a fetch reports when host resolution itself fails,
    /// built from the resolver's own detail text.
    pub fn lookup_failure(&self, detail: &str) -> (e: Error)
        ensures
            e matches Error::Network(m) && m@ == "Failed to find IP address:"@ + detail@,
    {
        let prefix: String = "Failed to find IP address:".to_owned();
        Error::Network(prefix.concat(detail))
    }

    /// The decision a fetch takes once the host has been resolved, on plain
    /// values: zero resolved addresses is itself a network error, never an
    /// empty success; one or more lets the fetch proceed.
    pub fn validate_lookup(&self, address_count: usize) -> (r: Result<(), Error>)
        ensures
            r is Ok <==> address_count >= 1,
            address_count == 0 ==> (r matches Result::Err(e) && e matches Error::Network(m) && m@
                == "Failed to find IP addresses"@),
    {
        if address_count < 1 {
            Result::Err(Error::Network("Failed to find IP addresses".to_owned()))
        } else {
            Result::Ok(())
        }
    }
}

} // verus!
