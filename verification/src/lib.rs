//! A compact, verified HTTP/1.1 server library: wildcard route matching,
//! an HTTP request/response codec, a bounded LRU response cache, a
//! round-robin/random load balancer, a line-oriented configuration
//! language, and the per-connection request loop, each with a proved
//! contract.

pub mod balancer;
pub mod bytescan;
pub mod cache;
pub mod config;
pub mod http;
pub mod request;
pub mod response;
pub mod roundtrip;
pub mod server;
pub mod stream;
pub mod text;
pub mod wildcard;
pub mod ws;
