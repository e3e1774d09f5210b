//! Cutting of tracks into segments.

pub mod duration;
pub mod split_laws;
pub mod splitter;
