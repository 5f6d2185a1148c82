//! What the tables hold, and what their rows mean.

pub mod memories;
pub mod messages;
pub mod rows;
pub mod sessions;
pub mod tables;
