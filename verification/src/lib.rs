//! Building blocks of a coding agent: text limits, tools, schemas and the wire protocol.

pub mod base64;
pub mod digest;
pub mod globs;
pub mod order;
pub mod protocol;
pub mod regexes;
pub mod schema;
pub mod strings;
pub mod text;
pub mod tools;
pub mod utf8;
pub mod workspace;
pub mod workspace_laws;
