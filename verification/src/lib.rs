pub mod apply;
pub mod apply_laws;
pub mod atomic;
pub mod bytes;
pub mod chunk;
pub mod cli;
pub mod compare;
pub mod config;
pub mod filter;
pub mod foundation;
pub mod fs;
pub mod gui;
pub mod hash;
pub mod order;
pub mod plan_laws;
pub mod strings;
pub mod table;
