pub mod text;
pub mod paths;
pub mod flashcards;
pub mod model;
pub mod search;
pub mod graph;
pub mod digest;
pub mod cards;
pub mod srs;
pub mod sorting;
pub mod project;
pub mod archive;
pub mod packages;
pub mod github;
pub mod render;
pub mod cache;
pub mod session;
pub mod browse;
pub mod remote;
