//! Client-side library for Agent Identity Discovery (AID).
//!
//! An AID record is a semicolon-delimited `key=value` string, carried as a
//! DNS TXT value or as a JSON body fetched over HTTPS, that advertises how
//! to reach an agent endpoint: protocol, URI, authentication scheme, and an
//! optional public key that authenticates the endpoint during a signed
//! handshake.
//!
//! The verified core consists of the strict record parser, the well-known
//! JSON canonicalizer, the handshake verification over reconstructed
//! HTTP Message Signatures bases, and the pure decision logic of the
//! discovery pipeline. Network I/O (DNS queries, HTTPS fetches) lives
//! outside the library and hands plain values in and out.

pub mod constants;
pub mod strutil;
pub mod errors;
pub mod record;
pub mod parser;
pub mod well_known;
pub mod pka;
pub mod discover;
pub mod laws;

pub use errors::AidError;
pub use record::AidRecord;
pub use parser::parse;
pub use discover::DiscoveryOptions;
