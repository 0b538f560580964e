//! JSON Schema: a subset of draft 2020-12, compiled once and used many times.

pub mod cache;
pub mod compile;
pub mod error;
pub mod fit;
pub mod json;
pub mod laws;
pub mod meaning;
pub mod named;
pub mod numbers;
pub mod pointer;
pub mod render;
pub mod right;
pub mod rules;
pub mod shape;
pub mod told;
pub mod unknown;
pub mod validate;
pub mod values;
