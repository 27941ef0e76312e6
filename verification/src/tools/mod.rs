pub mod graph;
pub mod links;
pub mod read;
pub mod search;
pub mod templates;
pub mod write;
