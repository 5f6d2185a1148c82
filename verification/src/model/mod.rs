//! Models: the curated presets, the files they are downloaded to and the engine
//! that runs them.

pub mod downloader;
pub mod engine;
pub mod presets;
