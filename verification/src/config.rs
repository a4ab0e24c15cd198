//! Server configuration: host and port, with their defaults.

use vstd::prelude::*;
use vstd::string::StrSliceExecFns;
use vstd::string::StringExecFns;

use crate::hexnum::dec_digits;
use crate::hexnum;

verus! {

/// The listener part of the configuration; both fields are optional and
/// fall back to `0.0.0.0` and `8080`.
#[derive(Debug)]
pub struct ServerConfig {
    pub host: Option<String>,
    pub port: Option<u32>,
}

/// The application configuration.
#[derive(Debug)]
pub struct AppConfig {
    pub server: ServerConfig,
}

impl AppConfig {
    /// The listener address this configuration names: `host:port`, with
    /// the defaults filled in.
    pub open spec fn addr_spec(&self) -> Seq<char> {
        (match self.server.host {
            Option::Some(h) => h@,
            Option::None => "0.0.0.0"@,
        }) + ":"@ + dec_digits(
            match self.server.port {
                Option::Some(p) => p as nat,
                Option::None => 8080nat,
            },
        )
    }

    /// Renders the listener address, `host:port`.
    pub fn get_addr(&self) -> (r: String)
        ensures
            r@ == self.addr_spec(),
    {
        let mut s = match &self.server.host {
            Some(h) => h.clone(),
            None => String::from_str("0.0.0.0"),
        };
        s.append(":");
        let p: u32 = match self.server.port {
            Some(p) => p,
            None => 8080,
        };
        let ds = hexnum::dec_string(p as u64);
        s.append(ds.as_str());
        s
    }
}

} // verus!
