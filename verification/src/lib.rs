//! Verified core of an Obsidian vault server.
pub mod config;
pub mod graph;
pub mod parse;
pub mod paths;
pub mod text;
pub mod tools;
pub mod vault;
