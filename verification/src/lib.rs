//! A link editor and librarian for a line-oriented textual object format.
//!
//! Object modules are parsed from text, combined with static libraries into
//! one output image, and every relocation is applied to the segment data.
//! Each function carries a contract that the verifier proves.

pub mod common;
pub mod gen;
pub mod librarian;
pub mod linker;
pub mod logger;
pub mod table;
pub mod text;
pub mod types;
pub mod utils;
