//! Domain-security reconnaissance library: canonicalization of hostnames to
//! registrable root domains, SPF/DMARC posture analysis of DNS TXT answers,
//! a registrar-availability cache, DNS query encoding, and tenant-domain
//! harvesting from federation responses.
use vstd::prelude::*;

pub mod strutil;
pub mod domain;
pub mod dns;
pub mod gandi;
pub mod tenant;
pub mod wire;

verus! {

/// The error kinds the library reports. Any error while processing one
/// domain aborts only that domain's remaining checks.
#[derive(Debug)]
pub enum ReconError {
    /// Socket bind/connect/send/receive failure or timeout, with the
    /// underlying error text.
    Transport(String),
    /// Malformed DNS message (encode or decode), with the error text.
    Codec(String),
    /// Registrar HTTP/JSON failure.
    Lookup(String),
    /// A domain string has too few labels to normalize.
    NotCanonicalizable,
}

} // verus!
