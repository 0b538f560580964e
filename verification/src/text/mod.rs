//! Text that goes to a model or a terminal: display width, size limits, paths, search, images.

pub mod width;
pub mod display_laws;
pub mod truncate;
pub mod truncate_laws;
pub mod sink;
pub mod sink_laws;
pub mod path;
pub mod tabs;
pub mod grep;
pub mod search_laws;
pub mod picture;
pub mod picture_laws;
