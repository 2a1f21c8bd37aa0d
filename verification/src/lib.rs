//! Maintenance of a line-oriented list of packaged files.
pub mod error;
pub mod fileslist;
pub mod laws;
pub mod pysource;
pub mod text;
