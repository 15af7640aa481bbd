//! Connection configuration values, and the loopback test that decides
//! whether a plaintext connection deserves a warning.

use vstd::prelude::*;
use crate::text::str_eq;

verus! {

/// Optional connection settings, each falling back to a built-in default
/// when absent.
pub struct Config {
    /// The server host.
    pub host: Option<String>,
    /// The server port.
    pub port: Option<u16>,
    /// Whether to connect over TLS.
    pub tls: Option<bool>,
    /// The account user name.
    pub user: Option<String>,
    /// The mailbox deleted messages move to.
    pub trash_folder: Option<String>,
    /// The mailbox searched when none is named.
    pub default_folder: Option<String>,
}

impl Default for Config {
    /// A configuration with every setting absent.
    fn default() -> (r: Self)
        ensures
            r.host is None,
            r.port is None,
            r.tls is None,
            r.user is None,
            r.trash_folder is None,
            r.default_folder is None,
    {
        Config {
            host: None,
            port: None,
            tls: None,
            user: None,
            trash_folder: None,
            default_folder: None,
        }
    }
}

/// Whether a host name plainly names the local machine, where a plaintext
/// connection is acceptable without a warning.
pub fn is_loopback(host: &str) -> (r: bool)
    ensures
        r == (host@ == "127.0.0.1"@ || host@ == "::1"@ || host@ == "localhost"@),
{
    str_eq(host, "127.0.0.1") || str_eq(host, "::1") || str_eq(host, "localhost")
}

} // verus!
