//! A non-blocking, configuration-driven HTTP/1.1 origin server, as a
//! verified library: the incremental request parser, the response writer,
//! the router with its longest-prefix route selection, and the event
//! loop's decisions. Socket, filesystem and subprocess work stays with
//! the embedding program, which feeds the outcomes back in.

pub mod cgi;
pub mod config;
pub mod error;
pub mod http;
pub mod router;
pub mod server;
