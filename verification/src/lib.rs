//! Offline indexing of progressive MP4 files and on-demand CMAF / HLS assembly.
//!
//! The library never opens a file. Sources are handed in as [`ReadAt`]
//! implementors, output is appended to byte vectors, and every decision is
//! stated in the contract of the function that takes it.
//!
//! - [`demux`] reads progressive MP4 files.
//! - [`segment`] cuts tracks into segments at sync samples.
//! - [`index`] lays out, builds and reads the `.idx` byte image.
//! - [`fmp4`] writes init and media segments.
//! - [`playlist`] writes the media playlist.
//! - [`serve`] holds the decisions of the HTTP origin.
//! - [`indexer`] holds the decisions of the offline indexer.

pub mod binary64;
pub mod bytes;
pub mod error;
pub mod read_at;
pub mod text;
pub mod demux;
pub mod fmp4;
pub mod index;
pub mod indexer;
pub mod playlist;
pub mod segment;
pub mod serve;

pub use error::{IoError, PackagerError};
pub use index::builder::IndexBuilder;
pub use index::format::{SampleEntry, SegmentEntry};
pub use index::view::{AudioTrackMeta, IndexView, VideoTrackMeta};
pub use read_at::{ReadAt, SliceReader};
pub use segment::duration::SegmentDuration;
