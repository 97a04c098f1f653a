//! An incremental memory scanner: the address set, the predicates that
//! narrow it, the memory-map catalogue and the context around them.

pub mod memory_reader;
pub mod commands;
pub mod text;
pub mod chars;
pub mod memory_map;
pub mod process;
pub mod addresses;
pub mod progress;
pub mod context;
pub mod util;
pub mod repl;
pub mod life;
