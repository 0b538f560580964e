//! The protocol between clients and the runtime.

pub mod envelope;
pub mod error;
pub mod frame;
pub mod version;
pub mod wire;
