//! What frames carry.

pub mod event;
pub mod frames;
pub mod names;
pub mod request;
pub mod types;
