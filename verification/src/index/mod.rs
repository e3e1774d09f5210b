//! The `.idx` byte image: its rows, how it is read and how it is built.

pub mod builder;
pub mod digest;
pub mod format;
pub mod image;
pub mod index_laws;
pub mod round_trip;
pub mod view;
