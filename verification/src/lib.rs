pub mod order;
pub mod types;
pub mod schema_map;
pub mod index;
pub mod translate;
pub mod resolve;
pub mod emit;
pub mod laws;
