//! HLS playlists.

pub mod decimal;
pub mod m3u8;
pub mod playlist_laws;

pub use m3u8::write_media_playlist;
