//! The decision core of an intercepting HTTP relay.
//!
//! The relay sits in front of an HTTP/1.1 backend. It reads one raw request
//! from a client, looks at the path on the request line, and either rejects
//! the request with a fixed `401` response or forwards the bytes untouched to
//! the upstream and hands the upstream's bytes back.
//!
//! Everything here works on plain values: bytes, strings, and the events that
//! a socket loop reports. Sockets, threads and files stay with the caller.
//!
//! - `text`: white space, lines and tokens of a text.
//! - `line_parser`: the first line of a request, its tokens, method and path.
//! - `source_loader`: the blocklist and how it is built from its source.
//! - `framing`: when a message that arrives in chunks is complete.
//! - `response`: the responses that the relay writes itself.
//! - `relay`: the engine, one step at a time.
//! - `exchange`: what the engine does over a whole exchange.

pub mod exchange;
pub mod framing;
pub mod line_parser;
pub mod relay;
pub mod response;
mod slicing;
pub mod source_loader;
pub mod text;
