//! Error kinds of the reconciliation engine.
//!
//! Every failure is fail-fast: the first error aborts the run. Transport
//! failures from the remote store are carried as plain messages, so the
//! verified core stays free of the client's own error type.

use vstd::prelude::*;

verus! {

/// All errors the publisher can surface.
#[derive(Debug)]
pub enum Error {
    /// I/O failure locating or reading a local config file or directory.
    ConfigFile(String),
    /// Malformed line or empty key/value in a config file.
    ConfigFormat(String),
    /// The same key appears twice in one config file.
    DuplicateKey(String),
    /// Failure reported by the remote Consul store.
    Consul(String),
    /// Invalid key template, unrenderable placeholder, malformed prefix,
    /// or a filename that does not match the service/env pattern.
    Template(String),
    /// The remote store did not become reachable.
    Unreachable,
    /// Internal invariant violation, such as a listed remote key that does
    /// not start with its own prefix, or an undecodable stored value.
    Generic,
}

} // verus!
