//! Tools for tickflow bytecode: an assembler from statement lists to linked
//! binaries, an extractor that relocates tickflow out of a patched game image,
//! and the BTKS container that packages relocatable tickflow.

pub mod btks;
pub mod c00;
pub mod common;
pub mod compiler;
pub mod wire;
