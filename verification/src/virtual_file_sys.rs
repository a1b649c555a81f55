//! The file system proper: the image, its three kinds of block and the
//! operations on the name space.

pub mod appended;
pub mod bitmap;
pub mod block;
pub mod consistency;
pub mod content;
pub mod disk;
pub mod file_sys;
pub mod growth;
pub mod grown;
pub mod inode;
pub mod laws;
pub mod preserve;
pub mod reach;
pub mod read_back;
pub mod record;
pub mod stored;
