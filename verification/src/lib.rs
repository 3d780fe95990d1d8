//! A littlefs-compatible filesystem core: on-disk tags, metadata logs, caches,
//! allocation, path resolution and file handles, with their contracts.
use vstd::prelude::*;

pub mod error;
pub mod util;
pub mod tag;
pub mod crc;
pub mod gstate;
pub mod lfs_gstate;
pub mod lfs_superblock;
pub mod superblock;
pub mod info;
pub mod config;
pub mod block;
pub mod bdcache;
pub mod metadata;
pub mod ctz;
pub mod traverse;
pub mod lookahead;
pub mod commit;
pub mod parent;
pub mod mkfs;
pub mod path;
pub mod dir;
pub mod file;
pub mod fs;

pub use error::Error;

verus! {

} // verus!
