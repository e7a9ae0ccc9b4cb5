//! A small HTTP/1.1 server library: request parsing, routing, response
//! rendering and gzip content encoding.

pub mod encoding;
pub mod text;
pub mod headers;
pub mod parser;
pub mod router;
pub mod server;
pub mod handlers;
