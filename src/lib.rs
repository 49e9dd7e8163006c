//! Static control-flow reconstruction for Game Boy cartridge images.
//!
//! Starting from the entry point, the analysis discovers every statically
//! reachable instruction, the functions that are called, which of them can
//! return, and the basic-block graph of each function.
pub mod image;
pub mod instruction;
pub mod data;
pub mod explorer;
pub mod walker;
pub mod disassembly;
pub mod analyzer;
