//! An index of the music below a directory: which folders hold music, and for
//! each music file its folder, title, format and playing time.

pub mod accumulator;
pub mod entry;
pub mod file_format;
pub mod gather;
pub mod index;
pub mod laws;
pub mod rearranged;
pub mod scanner;
pub mod shared;
pub mod text;
pub mod tree;
