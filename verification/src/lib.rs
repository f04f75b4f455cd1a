//! Builder for a fixed-layout, block-based filesystem image.
//!
//! A host directory tree, presented as plain values, is mirrored into a
//! 1024-block image of 4096-byte blocks: a boot block, a superblock holding
//! the root inode, a free-block bitmap, and then inode-table, data and
//! indirect-index blocks in allocation order.  Every on-disk structure is
//! packed with explicit little-endian field offsets.

pub mod codec;
pub mod disk;
pub mod elf;
pub mod fs;
