pub mod text;
pub mod id_map;
pub mod graph;
pub mod model;
pub mod runtime;
pub mod store;
pub mod editing;
pub mod detector;
