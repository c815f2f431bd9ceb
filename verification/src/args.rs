//! Command-line arguments of the proxy server.
use vstd::prelude::*;

verus! {

/// Command-line arguments of the proxy server.
#[derive(Debug)]
pub struct Cli {
    /// Path to the configuration file.
    pub config_file: String,
    /// Whether to run without resource limits.
    pub unlimited_resource: bool,
    /// Number of worker threads.
    pub threads: usize,
}

impl Default for Cli {
    /// The arguments when none is given.
    fn default() -> (r: Self)
        ensures
            r.config_file@ == "/etc/massudpproxy.toml"@,
            r.unlimited_resource,
            r.threads == 4,
    {
        Cli {
            config_file: "/etc/massudpproxy.toml".to_owned(),
            unlimited_resource: true,
            threads: 4,
        }
    }
}

} // verus!
