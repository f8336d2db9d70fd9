pub mod cli;
pub mod entry;
pub mod filter;
pub mod meta;
pub mod pattern;
pub mod size_format;
pub mod tree;
