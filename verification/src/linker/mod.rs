//! The link editor: storage allocation, symbol resolution, library lookup,
//! segment layout and relocation.

pub mod blocks;
pub mod editor;
pub mod effects;
pub mod ingest;
pub mod layout;
pub mod libs;
pub mod relocate;
pub mod resolve;
pub mod state;
pub mod symbols;
pub mod wrap;
