//! A small key-value cache served over a byte protocol.
//!
//! - `cache`: topics of keys and values, with what each operation does to them;
//! - `frame`: the frame that carries a found value back to a client;
//! - `protocol`: the decoder of requests, stated as a function on bytes;
//! - `server`: server settings, what a session shares, and a session's
//!   decisions on the bytes it receives.
pub mod cache;
pub mod frame;
pub mod protocol;
pub mod server;
