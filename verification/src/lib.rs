//! A TCP reverse proxy's decision core: the backend pool and its
//! round-robin routing, the per-client rate limiters, the health checks'
//! request and response handling, and the canned HTTP error replies.

pub mod text;
pub mod backend;
pub mod routing;
pub mod clock;
pub mod cache;
pub mod limiting;
pub mod config;
pub mod pool;
pub mod health;
pub mod responses;
