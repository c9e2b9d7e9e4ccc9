pub mod context;
pub mod download;
pub mod error;
pub mod link;
pub mod lines;
pub mod name;
