//! Month-view calendar arithmetic and a dated holiday list.

pub mod date;
pub mod encoding;
pub mod grid;
pub mod holiday;
pub mod listing;
pub mod text;
