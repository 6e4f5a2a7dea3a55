//! The resolved run configuration.

use vstd::prelude::*;

verus! {

/// Everything one convergence run needs to know, resolved by the caller
/// (command line, environment) before the publisher is constructed.
#[derive(Clone, Debug)]
pub struct Config {
    /// Address of the Consul HTTP endpoint.
    pub consul_addr: String,
    /// Access token for Consul; empty means none.
    pub consul_token: String,
    /// Explicit service name; overrides filename deduction when `env` is
    /// also given.
    pub service: Option<String>,
    /// Explicit environment name; overrides filename deduction when
    /// `service` is also given.
    pub env: Option<String>,
    /// Process only files resolving to this environment.
    pub filter_env: Option<String>,
    /// Path to a single config file or a directory of config files.
    pub config_path: String,
    /// The key template; must end with the literal segment `/{key}`.
    pub key_template: String,
    /// Seconds to wait for Consul to become ready.
    pub timeout: u64,
}

} // verus!
