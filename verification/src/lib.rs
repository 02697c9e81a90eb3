//! A FAT32 filesystem over a generic block device.
//!
//! The crate is organised bottom-up: raw geometry (`fat32`), the free-space
//! hint sector (`fsinfo`), bounded write-back caches for metadata sectors and
//! data clusters (`sector_cache`, `cluster_cache`), the allocation table
//! (`fat`), typed access to directory entries (`data`, `dir_entry`), the
//! mounted volume (`runfs`) and the path-addressable file layer (`vfs`).
#![allow(unused_imports)]

use vstd::prelude::*;

mod block_device;
mod cluster_cache;
mod config;
mod data;
mod dir_entry;
mod error;
mod fat;
mod fat32;
mod fsinfo;
mod runfs;
mod sector_cache;
mod strings;
mod vfs;

pub use block_device::{BlockDevice, RamDisk};
pub use cluster_cache::{ClusterCache, ClusterCacheManager};
pub use data::DataManager;
pub use fat::{FATEntry, FATManager};
pub use fat32::{BiosParameterBlock, BootSector};
pub use fsinfo::{FSInfo, FSInfoSector};
pub use runfs::RunFileSystem;
pub use vfs::{generate_short_name, long_name_split, VFile};
pub use sector_cache::{BlockCache, SectorCacheManager};
pub use config::{DATACLU_CACHE_SZ, INFOSEC_CACHE_SZ};
pub use dir_entry::{
    FileAttributes, LongDirectoryEntry, ShortDirectoryEntry, DIRENT_SZ, DIR_ENTRY_DELETED_FLAG,
    LAST_LONG_ENTRY, LONG_NAME_LEN, SHORT_FILE_EXT_LEN, SHORT_FILE_NAME_LEN,
    SHORT_FILE_NAME_PADDING, SHORT_NAME_LEN,
};
pub use error::FSError;

verus! {

/// The first cluster id of the data region; ids 0 and 1 are reserved.
pub const START_CLUS_ID: usize = 2;

} // verus!
