//! Verified core of a tool that collects the announced IPv4/IPv6 prefixes
//! (CIDR blocks) of an autonomous system from an HTML lookup page and
//! persists them one per line.
//!
//! The library validates ASN input, recognises the IPv4 and IPv6 CIDR
//! grammars, extracts candidate texts from the anchors of the one table
//! identified as `prefix-table`, collects the valid CIDRs in document
//! order, and renders them as lines. Network and file I/O live outside
//! the library.

use vstd::prelude::*;

pub mod asn;
pub mod chars;
pub mod dom;
pub mod ipv4;
pub mod ipv6;
pub mod lines;
pub mod pipeline;

verus! {

/// Every non-success path of the pipeline, each distinguishable.
#[derive(Debug)]
pub enum PipelineError {
    /// The raw input fails the ASN grammar even after normalization.
    InvalidAsn,
    /// A connection, TLS or timeout failure; fatal, no retry.
    NetworkError,
    /// A non-2xx HTTP response, with the status and the attempted URL.
    RequestFailed { status: u16, url: String },
    /// The HTML body could not be parsed into a tree at all.
    ParseError,
    /// A filesystem failure while persisting results.
    FileWriteError,
}

} // verus!
