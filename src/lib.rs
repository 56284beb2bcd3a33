//! A reverse proxy and static-file server's verified core: HTTP/1.x head
//! parsing, request-line rewriting, routing, body framing for relays, the
//! exchange state machine, the upstream connection pool and the static
//! responder. Network and file I/O are left to the caller.

pub mod acquire;
pub mod bytes;
pub mod config;
pub mod eviction;
pub mod exchange;
pub mod http;
pub mod pool;
pub mod relay;
pub mod request;
pub mod router;
pub mod statics;
pub mod streams;
