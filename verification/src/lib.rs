//! Verified core of a local chat backend.

pub mod api;
pub mod config;
pub mod context;
pub mod db;
pub mod error;
pub mod ids;
pub mod json;
pub mod memory;
pub mod model;
pub mod text;
pub mod tools;
pub mod types;
