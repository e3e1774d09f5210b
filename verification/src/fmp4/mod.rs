//! Fragmented-MP4 writers.

pub mod boxes;
pub mod init;
pub mod init_laws;
pub mod media;
pub mod media_laws;

pub use init::write_init_segment;
pub use media::write_media_segment;
