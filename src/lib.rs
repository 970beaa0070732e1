//! A FAT-style file system held entirely in memory: a fixed array of blocks,
//! an allocation table chaining them into files, and directories stored as
//! ordinary chained files.
use vstd::prelude::*;

pub mod chain;
pub mod directory;
pub mod disk;
pub mod error;
pub mod manager;
