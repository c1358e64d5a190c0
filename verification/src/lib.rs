//! A simulated disk file system: a 128 MiB image divided into 1 KiB blocks,
//! carrying a superblock, an inode table, two allocation bitmaps and a tree
//! of directories and files.
//!
//! The image is held in memory as a [`fs::Disk`]; every operation is a
//! function from one image to the next, with a contract over the image's
//! blocks.

pub mod sedes;
pub mod services;
pub mod fs;
