pub mod number_theory;
pub mod planes;
pub mod fx_sets;
pub mod statics;
pub mod batches;
pub mod derived;
pub mod text;
pub mod binary_collections;
pub mod triples_array;
pub mod math;
pub mod signed_unsigned;
pub mod grown_shrunk;
pub mod units;
pub mod display;
pub mod tables;
pub mod parsing;
pub mod plane_parts;
pub mod reading;
pub mod consistency;
pub mod counting;
pub mod progress;
pub mod exhaustive;
pub mod systems;
pub mod older_exhaustive;
