//! Reading of progressive MP4 files.

pub mod appended;
pub mod fourcc;
pub mod moov;
pub mod moov_laws;
pub mod reader;
pub mod reader_laws;
pub mod sample_table;
pub mod table_laws;
