//! Clustering of fuzzer crashes with a full crash-to-cluster mapping.
pub mod cluster;
pub mod command;
pub mod fuzzer;
pub mod group;
pub mod laws;
pub mod limits;
pub mod log;
pub mod mapping;
pub mod parsers;
pub mod plan;
pub mod report;
pub mod setup;
pub mod stacktrace;
pub mod text;
pub mod tool;
