use vstd::prelude::*;

verus! {

/// One routing rule: a path prefix and what to do for targets under it.
/// All strings are raw bytes, as they travel on the wire.
pub struct RouteConfig {
    pub path: Vec<u8>,
    pub root: Option<Vec<u8>>,
    pub index: Option<Vec<u8>>,
    pub methods: Option<Vec<Vec<u8>>>,
    pub autoindex: Option<bool>,
    pub redirect: Option<Vec<u8>>,
    pub allow_uploads: Option<bool>,
    pub cgi_extensions: Option<Vec<(Vec<u8>, Vec<u8>)>>,
}

/// One virtual server: where it listens, which host names it answers to,
/// its error pages, and its ordered routes.
pub struct ServerConfig {
    pub host: Vec<u8>,
    pub ports: Vec<u16>,
    pub server_names: Option<Vec<Vec<u8>>>,
    pub error_pages: Option<Vec<(u16, Vec<u8>)>>,
    pub client_max_body_size: Option<usize>,
    pub routes: Vec<RouteConfig>,
}

/// A whole configuration: an ordered list of servers; the first is the
/// fallback for unmatched hosts.
pub struct Config {
    pub servers: Vec<ServerConfig>,
}

} // verus!
