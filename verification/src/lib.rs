//! A small proof-of-work blockchain: block hashing, nonce search, chain
//! maintenance, and the parsing of the requests that drive it.

pub mod digest;
pub mod request;
pub mod block;
pub mod chain;
pub mod server;
