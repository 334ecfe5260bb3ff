//! A minimal HTTP/1.1 server toolkit: a request-line and header parser with
//! path sanitization, a MIME/content-type model for `Accept` negotiation, a
//! query-string parser, and a route table of literal-and-wildcard patterns.
//! The parsers are specified over character sequences and verified; socket
//! transport is left to the embedder.
pub mod errors;
pub mod mime;
pub mod query;
pub mod request;
pub mod server;
pub mod text;
