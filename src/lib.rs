//! A small HTTP/1.1 server core: request parsing, response building, a
//! segment-trie router, worker-pool bookkeeping and the per-connection
//! pipeline decisions.
pub mod control;
pub mod pool;
pub mod request;
pub mod response;
pub mod route;
pub mod server;
pub mod text;
