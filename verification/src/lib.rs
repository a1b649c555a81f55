//! A block-structured virtual file system kept inside a single fixed-size image.
//!
//! The image is an array of equal-length blocks: block 0 holds the free-space
//! bitmap, block 1 the home directory, and the remaining blocks are handed out
//! as directory blocks, inode blocks and data blocks. Every operation is stated
//! over the image as a sequence of blocks and proved against that statement.

pub mod command;
pub mod error;
pub mod history;
pub mod server;
pub mod virtual_file_sys;
