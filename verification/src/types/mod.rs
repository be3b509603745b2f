//! The records of the object format: segments, symbols, relocations, modules,
//! libraries and the linked output.

pub mod errors;
pub mod library;
pub mod library_round_trip;
pub mod object;
pub mod out;
pub mod relocation;
pub mod round_trip;
pub mod segment;
pub mod segment_map;
pub mod stub;
pub mod symbol_table;
