//! Core logic of a URL shortener: base-62 short codes, the decisions taken
//! while shortening a URL and while preparing the store, and the Redis
//! connection settings.
pub mod base62;
pub mod redis_conn;
pub mod server;
