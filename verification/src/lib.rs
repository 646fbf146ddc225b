//! A caching DNS forwarder's core: the DNS wire codec, the answer cache and the
//! framing engine of a pipelined DNS-over-TLS connection.

pub mod bootstrap;
pub mod cache;
pub mod config;
pub mod dispatch;
pub mod dns;
pub mod error;
pub mod https;
pub mod tls;
