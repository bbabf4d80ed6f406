//! A verified core for an HTTP/1.1 reverse proxy: a message codec that frames
//! requests and responses on a raw byte stream, a per-connection state machine
//! that sequences request forwarding, an upstream selector, and a mapper from
//! failure classifications to minimal HTTP error responses.

pub mod find;
pub mod msg;
pub mod parse;
pub mod proxy;
pub mod laws;
