//! A local face-detection service core: length-prefixed framing over a byte
//! stream, a JSON request/response codec, and the worker-pool state machine
//! that dispatches connections to a fixed set of workers.

pub mod codec;
pub mod config;
pub mod pool;
pub mod request;
pub mod wire;
pub mod worker;
