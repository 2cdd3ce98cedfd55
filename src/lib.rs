//! A small interpreter for Ethereum virtual machine bytecode, with its stack,
//! memory and storage layers, each specified and proved.

pub mod word;
pub mod types;
pub mod stack;
pub mod mem;
pub mod word_map;
pub mod db;
pub mod state;
pub mod semantics;
pub mod runtime;
pub mod vm;
