//! Typed access to the data region: whole-cluster and in-cluster reads and
//! writes through the cluster cache, plus the synthesized root directory
//! entry, which exists only in memory.

use vstd::prelude::*;
use crate::block_device::BlockDevice;
use crate::cluster_cache::{spec_cluster_in_range, ClusterCacheManager};
use crate::dir_entry::{LongDirectoryEntry, ShortDirectoryEntry};
use crate::fat32::BiosParameterBlock;

verus! {

/// Manages the data clusters and the in-memory root directory entry.
pub struct DataManager {
    pub root_dirent: ShortDirectoryEntry,
    pub cluster_cache: ClusterCacheManager,
}

impl DataManager {
    /// The manager is consistent with the device content `disk`.
    pub open spec fn spec_inv(self, disk: Seq<Seq<u8>>) -> bool {
        self.cluster_cache.spec_inv(disk)
    }

    /// The device fits this manager.
    pub open spec fn spec_dev_ok<D: BlockDevice>(self, dev: D) -> bool {
        self.cluster_cache.spec_dev_ok(dev)
    }

    /// The current bytes of cluster `c` as seen through the cache.
    pub open spec fn spec_cluster_view(self, disk: Seq<Seq<u8>>, c: int) -> Seq<u8> {
        self.cluster_cache.spec_cluster_view(disk, c)
    }

    /// A fresh manager over an empty cache.
    pub fn new(bpb: BiosParameterBlock, root_dirent: ShortDirectoryEntry) -> (r: Self)
        ensures
            r.root_dirent == root_dirent,
            r.cluster_cache.bpb == bpb,
            r.cluster_cache.slots@.len() == 0,
            forall|c: int| !r.cluster_cache.spec_cached(c),
    {
        DataManager { root_dirent, cluster_cache: ClusterCacheManager::new(bpb) }
    }

    /// The synthesized root directory entry.
    pub fn root_dirent(&self) -> (r: ShortDirectoryEntry)
        ensures
            r == self.root_dirent,
    {
        self.root_dirent
    }

    /// Replace the synthesized root directory entry; this never reaches
    /// the device.
    pub fn set_root_dirent(&mut self, e: ShortDirectoryEntry)
        ensures
            *final(self) == (DataManager { root_dirent: e, ..*old(self) }),
    {
        self.root_dirent = e;
    }

    /// Nothing observable changed: every cluster view and the metadata
    /// region of the device are intact.
    pub open spec fn spec_frame<D: BlockDevice>(self, pre: DataManager, dev: D, predev: D) -> bool {
        &&& self.spec_inv(dev.spec_sectors())
        &&& self.spec_dev_ok(dev)
        &&& self.cluster_cache.bpb == pre.cluster_cache.bpb
        &&& self.root_dirent == pre.root_dirent
        &&& dev.spec_sectors().len() == predev.spec_sectors().len()
        &&& dev.spec_sector_size() == predev.spec_sector_size()
        &&& forall|c: int|
            spec_cluster_in_range(pre.cluster_cache.bpb, c) ==> #[trigger] self.spec_cluster_view(
                dev.spec_sectors(),
                c,
            ) == pre.spec_cluster_view(predev.spec_sectors(), c)
        &&& forall|s: int|
            0 <= s < pre.cluster_cache.bpb.spec_first_data_sector() ==> #[trigger] dev.spec_sectors()[s] == predev.spec_sectors()[s]
    }

    /// Read `len` bytes at `offset` within cluster `cluster_id`.
    pub fn read_cluster_at<D: BlockDevice>(
        &mut self,
        dev: &mut D,
        cluster_id: usize,
        offset: usize,
        len: usize,
    ) -> (r: Vec<u8>)
        requires
            old(self).spec_inv(old(dev).spec_sectors()),
            old(self).spec_dev_ok(*old(dev)),
            spec_cluster_in_range(old(self).cluster_cache.bpb, cluster_id as int),
            offset + len <= old(self).cluster_cache.bpb.spec_cluster_size(),
        ensures
            final(self).spec_frame(*old(self), *final(dev), *old(dev)),
            r@.len() == len,
            forall|k: int|
                0 <= k < len ==> #[trigger] r@[k] == old(self).spec_cluster_view(
                    old(dev).spec_sectors(),
                    cluster_id as int,
                )[offset + k],
    {
        self.cluster_cache.read_bytes(dev, cluster_id, offset, len)
    }

    /// Overwrite `src.len()` bytes at `offset` within cluster `cluster_id`.
    pub fn write_cluster_at<D: BlockDevice>(
        &mut self,
        dev: &mut D,
        cluster_id: usize,
        offset: usize,
        src: &Vec<u8>,
    )
        requires
            old(self).spec_inv(old(dev).spec_sectors()),
            old(self).spec_dev_ok(*old(dev)),
            spec_cluster_in_range(old(self).cluster_cache.bpb, cluster_id as int),
            offset + src@.len() <= old(self).cluster_cache.bpb.spec_cluster_size(),
        ensures
            final(self).spec_inv(final(dev).spec_sectors()),
            final(self).spec_dev_ok(*final(dev)),
            final(self).cluster_cache.bpb == old(self).cluster_cache.bpb,
            final(self).root_dirent == old(self).root_dirent,
            final(dev).spec_sectors().len() == old(dev).spec_sectors().len(),
            final(dev).spec_sector_size() == old(dev).spec_sector_size(),
            final(self).spec_cluster_view(final(dev).spec_sectors(), cluster_id as int).len()
                == old(self).cluster_cache.bpb.spec_cluster_size(),
            forall|k: int|
                0 <= k < old(self).cluster_cache.bpb.spec_cluster_size() ==> #[trigger] final(self).spec_cluster_view(final(dev).spec_sectors(), cluster_id as int)[k] == if offset
                    <= k < offset + src@.len() {
                    src@[k - offset]
                } else {
                    old(self).spec_cluster_view(old(dev).spec_sectors(), cluster_id as int)[k]
                },
            forall|c: int|
                spec_cluster_in_range(old(self).cluster_cache.bpb, c) && c != cluster_id
                    ==> #[trigger] final(self).spec_cluster_view(final(dev).spec_sectors(), c)
                    == old(self).spec_cluster_view(old(dev).spec_sectors(), c),
            forall|s: int|
                0 <= s < old(self).cluster_cache.bpb.spec_first_data_sector()
                    ==> #[trigger] final(dev).spec_sectors()[s] == old(dev).spec_sectors()[s],
    {
        self.cluster_cache.write_bytes(dev, cluster_id, offset, src);
    }

    /// Read one whole cluster.
    pub fn read_cluster<D: BlockDevice>(&mut self, dev: &mut D, cluster_id: usize) -> (r: Vec<u8>)
        requires
            old(self).spec_inv(old(dev).spec_sectors()),
            old(self).spec_dev_ok(*old(dev)),
            spec_cluster_in_range(old(self).cluster_cache.bpb, cluster_id as int),
        ensures
            final(self).spec_frame(*old(self), *final(dev), *old(dev)),
            r@ == old(self).spec_cluster_view(old(dev).spec_sectors(), cluster_id as int),
    {
        let csize = self.cluster_cache.bpb.cluster_size();
        let r = self.cluster_cache.read_bytes(dev, cluster_id, 0, csize);
        proof {
            assert(r@ =~= old(self).spec_cluster_view(
                old(dev).spec_sectors(),
                cluster_id as int,
            ));
        }
        r
    }

    /// Overwrite one whole cluster.
    pub fn write_cluster<D: BlockDevice>(&mut self, dev: &mut D, cluster_id: usize, src: &Vec<u8>)
        requires
            old(self).spec_inv(old(dev).spec_sectors()),
            old(self).spec_dev_ok(*old(dev)),
            spec_cluster_in_range(old(self).cluster_cache.bpb, cluster_id as int),
            src@.len() == old(self).cluster_cache.bpb.spec_cluster_size(),
        ensures
            final(self).spec_inv(final(dev).spec_sectors()),
            final(self).spec_dev_ok(*final(dev)),
            final(self).cluster_cache.bpb == old(self).cluster_cache.bpb,
            final(self).root_dirent == old(self).root_dirent,
            final(dev).spec_sectors().len() == old(dev).spec_sectors().len(),
            final(dev).spec_sector_size() == old(dev).spec_sector_size(),
            final(self).spec_cluster_view(final(dev).spec_sectors(), cluster_id as int) == src@,
            forall|c: int|
                spec_cluster_in_range(old(self).cluster_cache.bpb, c) && c != cluster_id
                    ==> #[trigger] final(self).spec_cluster_view(final(dev).spec_sectors(), c)
                    == old(self).spec_cluster_view(old(dev).spec_sectors(), c),
            forall|s: int|
                0 <= s < old(self).cluster_cache.bpb.spec_first_data_sector()
                    ==> #[trigger] final(dev).spec_sectors()[s] == old(dev).spec_sectors()[s],
    {
        self.cluster_cache.write_bytes(dev, cluster_id, 0, src);
        proof {
            assert(self.spec_cluster_view(dev.spec_sectors(), cluster_id as int) =~= src@);
        }
    }

    /// Zero-fill one whole cluster.
    pub fn clear_cluster<D: BlockDevice>(&mut self, dev: &mut D, cluster_id: usize)
        requires
            old(self).spec_inv(old(dev).spec_sectors()),
            old(self).spec_dev_ok(*old(dev)),
            spec_cluster_in_range(old(self).cluster_cache.bpb, cluster_id as int),
        ensures
            final(self).spec_inv(final(dev).spec_sectors()),
            final(self).spec_dev_ok(*final(dev)),
            final(self).cluster_cache.bpb == old(self).cluster_cache.bpb,
            final(self).root_dirent == old(self).root_dirent,
            final(dev).spec_sectors().len() == old(dev).spec_sectors().len(),
            final(dev).spec_sector_size() == old(dev).spec_sector_size(),
            final(self).spec_cluster_view(final(dev).spec_sectors(), cluster_id as int).len()
                == old(self).cluster_cache.bpb.spec_cluster_size(),
            forall|k: int|
                0 <= k < old(self).cluster_cache.bpb.spec_cluster_size() ==> #[trigger] final(self).spec_cluster_view(final(dev).spec_sectors(), cluster_id as int)[k] == 0u8,
            forall|c: int|
                spec_cluster_in_range(old(self).cluster_cache.bpb, c) && c != cluster_id
                    ==> #[trigger] final(self).spec_cluster_view(final(dev).spec_sectors(), c)
                    == old(self).spec_cluster_view(old(dev).spec_sectors(), c),
            forall|s: int|
                0 <= s < old(self).cluster_cache.bpb.spec_first_data_sector()
                    ==> #[trigger] final(dev).spec_sectors()[s] == old(dev).spec_sectors()[s],
    {
        self.cluster_cache.clear_cluster(dev, cluster_id);
    }

    /// The 32 bytes of the directory-entry slot at `offset` in cluster `c`.
    pub open spec fn spec_dirent_bytes(self, disk: Seq<Seq<u8>>, c: int, offset: int) -> Seq<u8> {
        Seq::new(32, |k: int| self.spec_cluster_view(disk, c)[offset + k])
    }

    /// Read the short directory entry stored at `offset` in cluster `c`.
    pub fn read_short_dirent<D: BlockDevice>(
        &mut self,
        dev: &mut D,
        cluster_id: usize,
        offset: usize,
    ) -> (r: ShortDirectoryEntry)
        requires
            old(self).spec_inv(old(dev).spec_sectors()),
            old(self).spec_dev_ok(*old(dev)),
            spec_cluster_in_range(old(self).cluster_cache.bpb, cluster_id as int),
            offset + 32 <= old(self).cluster_cache.bpb.spec_cluster_size(),
        ensures
            final(self).spec_frame(*old(self), *final(dev), *old(dev)),
            r == ShortDirectoryEntry::spec_from_bytes(
                old(self).spec_dirent_bytes(old(dev).spec_sectors(), cluster_id as int, offset as int),
            ),
    {
        let bytes = self.cluster_cache.read_bytes(dev, cluster_id, offset, 32);
        proof {
            assert(bytes@ =~= old(self).spec_dirent_bytes(
                old(dev).spec_sectors(),
                cluster_id as int,
                offset as int,
            ));
        }
        ShortDirectoryEntry::from_bytes(&bytes)
    }

    /// Read the long directory entry stored at `offset` in cluster `c`.
    pub fn read_long_dirent<D: BlockDevice>(
        &mut self,
        dev: &mut D,
        cluster_id: usize,
        offset: usize,
    ) -> (r: LongDirectoryEntry)
        requires
            old(self).spec_inv(old(dev).spec_sectors()),
            old(self).spec_dev_ok(*old(dev)),
            spec_cluster_in_range(old(self).cluster_cache.bpb, cluster_id as int),
            offset + 32 <= old(self).cluster_cache.bpb.spec_cluster_size(),
        ensures
            final(self).spec_frame(*old(self), *final(dev), *old(dev)),
            r == LongDirectoryEntry::spec_from_bytes(
                old(self).spec_dirent_bytes(old(dev).spec_sectors(), cluster_id as int, offset as int),
            ),
    {
        let bytes = self.cluster_cache.read_bytes(dev, cluster_id, offset, 32);
        proof {
            assert(bytes@ =~= old(self).spec_dirent_bytes(
                old(dev).spec_sectors(),
                cluster_id as int,
                offset as int,
            ));
        }
        LongDirectoryEntry::from_bytes(&bytes)
    }

    /// Write a short directory entry into the slot at `offset` in cluster
    /// `c`.
    pub fn write_short_dirent<D: BlockDevice>(
        &mut self,
        dev: &mut D,
        cluster_id: usize,
        offset: usize,
        entry: &ShortDirectoryEntry,
    )
        requires
            old(self).spec_inv(old(dev).spec_sectors()),
            old(self).spec_dev_ok(*old(dev)),
            spec_cluster_in_range(old(self).cluster_cache.bpb, cluster_id as int),
            offset + 32 <= old(self).cluster_cache.bpb.spec_cluster_size(),
        ensures
            final(self).spec_inv(final(dev).spec_sectors()),
            final(self).spec_dev_ok(*final(dev)),
            final(self).cluster_cache.bpb == old(self).cluster_cache.bpb,
            final(self).root_dirent == old(self).root_dirent,
            final(dev).spec_sectors().len() == old(dev).spec_sectors().len(),
            final(dev).spec_sector_size() == old(dev).spec_sector_size(),
            final(self).spec_cluster_view(final(dev).spec_sectors(), cluster_id as int).len()
                == old(self).cluster_cache.bpb.spec_cluster_size(),
            forall|k: int|
                0 <= k < old(self).cluster_cache.bpb.spec_cluster_size() ==> #[trigger] final(self).spec_cluster_view(final(dev).spec_sectors(), cluster_id as int)[k] == if offset
                    <= k < offset + 32 {
                    entry.spec_bytes()[k - offset]
                } else {
                    old(self).spec_cluster_view(old(dev).spec_sectors(), cluster_id as int)[k]
                },
            final(self).spec_dirent_bytes(final(dev).spec_sectors(), cluster_id as int, offset as int)
                == entry.spec_bytes(),
            forall|c: int|
                spec_cluster_in_range(old(self).cluster_cache.bpb, c) && c != cluster_id
                    ==> #[trigger] final(self).spec_cluster_view(final(dev).spec_sectors(), c)
                    == old(self).spec_cluster_view(old(dev).spec_sectors(), c),
            forall|s: int|
                0 <= s < old(self).cluster_cache.bpb.spec_first_data_sector()
                    ==> #[trigger] final(dev).spec_sectors()[s] == old(dev).spec_sectors()[s],
    {
        let bytes = entry.as_bytes();
        self.cluster_cache.write_bytes(dev, cluster_id, offset, &bytes);
        proof {
            assert(self.spec_dirent_bytes(dev.spec_sectors(), cluster_id as int, offset as int)
                =~= entry.spec_bytes());
        }
    }

    /// Write a long directory entry into the slot at `offset` in cluster
    /// `c`.
    pub fn write_long_dirent<D: BlockDevice>(
        &mut self,
        dev: &mut D,
        cluster_id: usize,
        offset: usize,
        entry: &LongDirectoryEntry,
    )
        requires
            old(self).spec_inv(old(dev).spec_sectors()),
            old(self).spec_dev_ok(*old(dev)),
            spec_cluster_in_range(old(self).cluster_cache.bpb, cluster_id as int),
            offset + 32 <= old(self).cluster_cache.bpb.spec_cluster_size(),
        ensures
            final(self).spec_inv(final(dev).spec_sectors()),
            final(self).spec_dev_ok(*final(dev)),
            final(self).cluster_cache.bpb == old(self).cluster_cache.bpb,
            final(self).root_dirent == old(self).root_dirent,
            final(dev).spec_sectors().len() == old(dev).spec_sectors().len(),
            final(dev).spec_sector_size() == old(dev).spec_sector_size(),
            final(self).spec_cluster_view(final(dev).spec_sectors(), cluster_id as int).len()
                == old(self).cluster_cache.bpb.spec_cluster_size(),
            forall|k: int|
                0 <= k < old(self).cluster_cache.bpb.spec_cluster_size() ==> #[trigger] final(self).spec_cluster_view(final(dev).spec_sectors(), cluster_id as int)[k] == if offset
                    <= k < offset + 32 {
                    entry.spec_bytes()[k - offset]
                } else {
                    old(self).spec_cluster_view(old(dev).spec_sectors(), cluster_id as int)[k]
                },
            final(self).spec_dirent_bytes(final(dev).spec_sectors(), cluster_id as int, offset as int)
                == entry.spec_bytes(),
            forall|c: int|
                spec_cluster_in_range(old(self).cluster_cache.bpb, c) && c != cluster_id
                    ==> #[trigger] final(self).spec_cluster_view(final(dev).spec_sectors(), c)
                    == old(self).spec_cluster_view(old(dev).spec_sectors(), c),
            forall|s: int|
                0 <= s < old(self).cluster_cache.bpb.spec_first_data_sector()
                    ==> #[trigger] final(dev).spec_sectors()[s] == old(dev).spec_sectors()[s],
    {
        let bytes = entry.as_bytes();
        self.cluster_cache.write_bytes(dev, cluster_id, offset, &bytes);
        proof {
            assert(self.spec_dirent_bytes(dev.spec_sectors(), cluster_id as int, offset as int)
                =~= entry.spec_bytes());
        }
    }

    /// Write every dirty cluster back to the device; afterwards the device
    /// itself holds the view of every in-range cluster.
    pub fn flush<D: BlockDevice>(&mut self, dev: &mut D)
        requires
            old(self).spec_inv(old(dev).spec_sectors()),
            old(self).spec_dev_ok(*old(dev)),
        ensures
            final(self).spec_frame(*old(self), *final(dev), *old(dev)),
            forall|c: int|
                spec_cluster_in_range(old(self).cluster_cache.bpb, c)
                    ==> crate::cluster_cache::spec_cluster_disk(
                    old(self).cluster_cache.bpb,
                    final(dev).spec_sectors(),
                    c,
                ) == #[trigger] old(self).spec_cluster_view(old(dev).spec_sectors(), c),
    {
        self.cluster_cache.flush_all(dev);
    }
}

} // verus!
