//! Backend discovery and consistent-hash routing for function invocations.
pub mod backend;
pub mod codec;
pub mod directory;
pub mod ring;
pub mod router;
pub mod text;
pub mod watcher;
