//! Logic of a linker wrapper that flips the memory layout of an embedded program: the stack goes
//! below the static variables, so that a stack overflow hits the end of RAM instead of the data.

pub mod cargo;
pub mod laws;
pub mod memory;
pub mod number;
pub mod parser;
pub mod script;
pub mod search;
pub mod sections;
pub mod session;
pub mod tempdir;
pub mod text;
