pub mod docids;
pub mod graph;
pub mod words;
