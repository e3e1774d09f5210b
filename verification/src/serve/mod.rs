//! Decisions of the HTTP origin.
//!
//! Everything that the origin decides stands here: configuration, the cache
//! of open archives, what a request is answered with. Sockets, files and
//! timers are left to the caller.

pub mod api_error;
pub mod config;
pub mod handlers;
pub mod registry;
pub mod reply_laws;

pub use api_error::ApiError;
pub use config::{resolve_with_host, Config, HostInputs, ResolveArgs, Source};
pub use registry::IndexRegistry;
