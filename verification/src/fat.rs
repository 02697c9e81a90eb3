//! The File Allocation Table: one 32-bit entry per cluster, kept in two
//! on-disk copies, plus the in-memory FSInfo hints.  The manager decodes
//! entries, walks and edits cluster chains and allocates free clusters.

use vstd::prelude::*;
use crate::block_device::BlockDevice;
use crate::dir_entry::{le32_at, le32_byte, lemma_le32_reassemble};
use crate::fat32::BiosParameterBlock;
use crate::fsinfo::{FSInfo, FSInfoSector};
use crate::sector_cache::SectorCacheManager;

verus! {

/// Entry value marking a bad cluster.
pub const BAD_CLUSTER: u32 = 0x0FFFFFF7;

/// Entry value written for the end of a chain.
pub const FINAL_CLUSTER: u32 = 0x0FFFFFFF;

/// The decoded meaning of a FAT entry.
#[derive(Copy, Clone, Eq, PartialEq, Structural, Debug)]
pub enum FATEntry {
    Bad,
    Free,
    End,
    Next(u32),
}

/// Decode the low 28 bits of the entry stored for cluster `c`.  The
/// reserved cluster ids 0x0FFFFFF7..=0x0FFFFFFF always decode to `Bad`,
/// whatever is stored, so they can never join a chain.
pub open spec fn spec_decode_entry(c: int, low: u32) -> FATEntry {
    if 0x0FFFFFF7 <= c <= 0x0FFFFFFF {
        FATEntry::Bad
    } else if low == 0 {
        FATEntry::Free
    } else if low == 0x0FFFFFF7u32 {
        FATEntry::Bad
    } else if low >= 0x0FFFFFF8u32 {
        FATEntry::End
    } else {
        FATEntry::Next(low)
    }
}

/// The low 28 bits an entry is stored as.
pub open spec fn spec_encode_entry(e: FATEntry) -> u32 {
    match e {
        FATEntry::Free => 0u32,
        FATEntry::Bad => 0x0FFFFFF7u32,
        FATEntry::End => 0x0FFFFFFFu32,
        FATEntry::Next(n) => n,
    }
}

/// The sector of the primary FAT holding the entry of cluster `c`.
pub open spec fn spec_fat_sector(bpb: BiosParameterBlock, c: int) -> int {
    bpb.reserved_sectors as int + c / bpb.spec_entries_per_sector()
}

/// The sector of the backup FAT holding the entry of cluster `c`.
pub open spec fn spec_backup_fat_sector(bpb: BiosParameterBlock, c: int) -> int {
    bpb.reserved_sectors as int + bpb.fats_sectors as int + c / bpb.spec_entries_per_sector()
}

/// The byte offset of cluster `c`'s entry within its FAT sector.
pub open spec fn spec_fat_offset(bpb: BiosParameterBlock, c: int) -> int {
    4 * (c % bpb.spec_entries_per_sector())
}

/// A cluster id the FAT stores an entry for: the two reserved ids and the
/// data clusters.
pub open spec fn spec_fat_index_ok(bpb: BiosParameterBlock, c: int) -> bool {
    0 <= c < bpb.spec_total_clusters() + 2
}

/// The FAT position of every mapped cluster lies inside the FAT region,
/// which itself lies inside the reserved metadata region.
pub proof fn lemma_fat_pos(bpb: BiosParameterBlock, c: int)
    requires
        bpb.spec_valid(),
        spec_fat_index_ok(bpb, c),
    ensures
        0 <= c / bpb.spec_entries_per_sector() < bpb.fats_sectors as int,
        bpb.reserved_sectors as int <= spec_fat_sector(bpb, c),
        spec_fat_sector(bpb, c) < bpb.reserved_sectors as int + bpb.fats_sectors as int,
        spec_fat_sector(bpb, c) < bpb.spec_first_data_sector(),
        bpb.fats_number == 2 ==> spec_backup_fat_sector(bpb, c) < bpb.spec_first_data_sector(),
        spec_backup_fat_sector(bpb, c) >= bpb.reserved_sectors as int + bpb.fats_sectors as int,
        0 <= spec_fat_offset(bpb, c),
        spec_fat_offset(bpb, c) + 4 <= bpb.bytes_per_sector as int,
{
    let eps = bpb.spec_entries_per_sector();
    let fs = bpb.fats_sectors as int;
    assert(eps >= 128);
    assert(c / eps >= 0) by (nonlinear_arith)
        requires
            c >= 0,
            eps > 0,
    ;
    assert(c < eps * fs);
    assert(c / eps < fs) by (nonlinear_arith)
        requires
            c < eps * fs,
            eps > 0,
            fs > 0,
            c >= 0,
    ;
    vstd::arithmetic::div_mod::lemma_mod_bound(c, eps);
    assert(4 * (c % eps) + 4 <= 4 * eps);
    assert(4 * eps <= bpb.bytes_per_sector as int);
}

/// Distinct mapped clusters have FAT positions whose four-byte ranges do
/// not overlap: a different sector, or offsets at least four bytes apart.
pub proof fn lemma_fat_pos_distinct(bpb: BiosParameterBlock, c1: int, c2: int)
    requires
        bpb.spec_valid(),
        spec_fat_index_ok(bpb, c1),
        spec_fat_index_ok(bpb, c2),
        c1 != c2,
    ensures
        spec_fat_sector(bpb, c1) != spec_fat_sector(bpb, c2) || spec_fat_offset(bpb, c1) + 4
            <= spec_fat_offset(bpb, c2) || spec_fat_offset(bpb, c2) + 4 <= spec_fat_offset(
            bpb,
            c1,
        ),
{
    let eps = bpb.spec_entries_per_sector();
    if spec_fat_sector(bpb, c1) == spec_fat_sector(bpb, c2) {
        assert(c1 / eps == c2 / eps);
        vstd::arithmetic::div_mod::lemma_fundamental_div_mod(c1, eps);
        vstd::arithmetic::div_mod::lemma_fundamental_div_mod(c2, eps);
        assert(c1 % eps != c2 % eps);
    }
}

/// Manages the FAT entries and the FSInfo hints.
pub struct FATManager {
    pub fsinfo: FSInfo,
    pub bpb: BiosParameterBlock,
    pub sector_cache: SectorCacheManager,
}

impl FATManager {
    /// The manager is consistent with the device content `disk`.
    pub open spec fn spec_inv(self, disk: Seq<Seq<u8>>) -> bool {
        &&& self.bpb.spec_valid()
        &&& self.sector_cache.spec_inv(disk)
        &&& self.sector_cache.sector_size == self.bpb.bytes_per_sector as int
        &&& self.sector_cache.limit_sector == self.bpb.spec_first_data_sector()
        &&& disk.len() >= self.bpb.total_sectors as int
        &&& self.fsinfo.spec_clamped(
            (self.bpb.spec_total_clusters() as u32),
        )
    }

    /// The device fits this manager.
    pub open spec fn spec_dev_ok<D: BlockDevice>(self, dev: D) -> bool {
        &&& dev.inv()
        &&& dev.spec_sector_size() == self.bpb.bytes_per_sector as nat
    }

    /// The raw 32-bit word stored for cluster `c` in the primary FAT, as
    /// seen through the sector cache.
    #[verifier::opaque]
    pub open spec fn spec_entry_raw(self, disk: Seq<Seq<u8>>, c: int) -> u32 {
        le32_at(
            self.sector_cache.spec_sector_view(disk, spec_fat_sector(self.bpb, c)),
            spec_fat_offset(self.bpb, c),
        )
    }

    /// The raw word stored for cluster `c` in the backup FAT.
    #[verifier::opaque]
    pub open spec fn spec_backup_raw(self, disk: Seq<Seq<u8>>, c: int) -> u32 {
        le32_at(
            self.sector_cache.spec_sector_view(disk, spec_backup_fat_sector(self.bpb, c)),
            spec_fat_offset(self.bpb, c),
        )
    }

    /// The low 28 bits of cluster `c`'s entry.
    pub open spec fn spec_entry_low(self, disk: Seq<Seq<u8>>, c: int) -> u32 {
        (self.spec_entry_raw(disk, c) % 0x10000000u32) as u32
    }

    /// The decoded entry of cluster `c`.
    pub open spec fn spec_entry(self, disk: Seq<Seq<u8>>, c: int) -> FATEntry {
        spec_decode_entry(c, self.spec_entry_low(disk, c))
    }

    /// A manager over an empty cache; the caller supplies hints already
    /// clamped to the volume.
    pub fn new(fsinfo: FSInfo, bpb: BiosParameterBlock) -> (r: Self)
        requires
            bpb.spec_valid(),
            fsinfo.spec_clamped((bpb.spec_total_clusters() as u32)),
        ensures
            r.fsinfo == fsinfo,
            r.bpb == bpb,
            r.sector_cache.slots@.len() == 0,
            r.sector_cache.sector_size == bpb.bytes_per_sector as int,
            r.sector_cache.limit_sector == bpb.spec_first_data_sector(),
    {
        proof {
            assert(bpb.spec_first_data_sector() < bpb.total_sectors as int <= u32::MAX as int);
        }
        let fds: u32 = bpb.first_data_sector();
        let cache = SectorCacheManager::new(bpb.bytes_per_sector() as usize, fds as usize);
        FATManager { fsinfo, bpb, sector_cache: cache }
    }

    /// The next-free hint; `None` only means it is unknown.
    pub fn next_free_cluster(&self) -> (r: Option<u32>)
        ensures
            r == self.fsinfo.next_free_cluster,
    {
        self.fsinfo.next_free_cluster()
    }

    /// The free-count hint; `None` only means it is unknown.
    pub fn free_clusters(&self) -> (r: Option<u32>)
        ensures
            r == self.fsinfo.free_cluster_count,
    {
        self.fsinfo.free_clusters()
    }

    pub fn fsinfo(&self) -> (r: FSInfo)
        ensures
            r == self.fsinfo,
    {
        self.fsinfo
    }

    fn entrys_per_sector(&self) -> (r: usize)
        requires
            self.bpb.spec_valid(),
        ensures
            r == self.bpb.spec_entries_per_sector(),
    {
        self.bpb.bytes_per_sector() as usize / 4
    }

    /// Primary sector, backup sector and in-sector offset of cluster `c`.
    fn position(&self, cluster_id: usize) -> (r: (usize, usize, usize))
        requires
            self.bpb.spec_valid(),
            spec_fat_index_ok(self.bpb, cluster_id as int),
        ensures
            r.0 == spec_fat_sector(self.bpb, cluster_id as int),
            r.1 == spec_backup_fat_sector(self.bpb, cluster_id as int),
            r.2 == spec_fat_offset(self.bpb, cluster_id as int),
    {
        proof {
            lemma_fat_pos(self.bpb, cluster_id as int);
            assert(self.bpb.spec_first_data_sector() < self.bpb.total_sectors as int
                <= u32::MAX as int);
        }
        let eps = self.entrys_per_sector();
        let fat_sector: usize = self.bpb.first_fats_sector() as usize + cluster_id / eps;
        let backup_fat_sector: usize = fat_sector + self.bpb.fats_sectors() as usize;
        let offset: usize = 4 * (cluster_id % eps);
        (fat_sector, backup_fat_sector, offset)
    }

    /// Read the raw stored word of cluster `c`.
    fn entry_raw<D: BlockDevice>(&mut self, dev: &mut D, cluster_id: usize) -> (r: u32)
        requires
            old(self).spec_inv(old(dev).spec_sectors()),
            old(self).spec_dev_ok(*old(dev)),
            spec_fat_index_ok(old(self).bpb, cluster_id as int),
        ensures
            final(self).spec_frame(*old(self), *final(dev), *old(dev)),
            r == old(self).spec_entry_raw(old(dev).spec_sectors(), cluster_id as int),
    {
        proof {
            lemma_fat_pos(self.bpb, cluster_id as int);
        }
        let (sector_id, _, offset) = self.position(cluster_id);
        let r = self.sector_cache.read_u32(dev, sector_id, offset);
        proof {
            reveal(FATManager::spec_entry_raw);
            self.lemma_frame_entries(*old(self), *dev, *old(dev));
        }
        r
    }

    /// Nothing observable changed: same geometry and hints, every FAT
    /// entry, every metadata-sector view and the whole data region intact.
    pub open spec fn spec_frame<D: BlockDevice>(
        self,
        pre: FATManager,
        dev: D,
        predev: D,
    ) -> bool {
        &&& self.spec_inv(dev.spec_sectors())
        &&& self.spec_dev_ok(dev)
        &&& self.bpb == pre.bpb
        &&& self.fsinfo == pre.fsinfo
        &&& dev.spec_sectors().len() == predev.spec_sectors().len()
        &&& dev.spec_sector_size() == predev.spec_sector_size()
        &&& forall|c: int|
            spec_fat_index_ok(pre.bpb, c) ==> #[trigger] self.spec_entry_raw(
                dev.spec_sectors(),
                c,
            ) == pre.spec_entry_raw(predev.spec_sectors(), c)
        &&& pre.bpb.fats_number == 2 ==> forall|c: int|
            spec_fat_index_ok(pre.bpb, c) ==> #[trigger] self.spec_backup_raw(
                dev.spec_sectors(),
                c,
            ) == pre.spec_backup_raw(predev.spec_sectors(), c)
        &&& forall|s: int|
            pre.bpb.spec_first_data_sector() <= s < predev.spec_sectors().len()
                ==> dev.spec_sectors()[s] == predev.spec_sectors()[s]
    }

    /// When every metadata-sector view is unchanged, every FAT entry is
    /// unchanged too.
    pub proof fn lemma_frame_entries<D: BlockDevice>(self, pre: FATManager, dev: D, predev: D)
        requires
            pre.spec_inv(predev.spec_sectors()),
            self.spec_inv(dev.spec_sectors()),
            self.spec_dev_ok(dev),
            self.bpb == pre.bpb,
            self.fsinfo == pre.fsinfo,
            self.sector_cache.limit_sector == pre.sector_cache.limit_sector,
            dev.spec_sectors().len() == predev.spec_sectors().len(),
            dev.spec_sector_size() == predev.spec_sector_size(),
            forall|s: int|
                0 <= s < pre.bpb.spec_first_data_sector() ==> self.sector_cache.spec_sector_view(
                    dev.spec_sectors(),
                    s,
                ) == pre.sector_cache.spec_sector_view(predev.spec_sectors(), s),
            forall|s: int|
                pre.bpb.spec_first_data_sector() <= s < predev.spec_sectors().len()
                    ==> dev.spec_sectors()[s] == predev.spec_sectors()[s],
        ensures
            self.spec_frame(pre, dev, predev),
    {
        reveal(FATManager::spec_entry_raw);
        reveal(FATManager::spec_backup_raw);
        assert forall|c: int| spec_fat_index_ok(pre.bpb, c) implies self.spec_entry_raw(
            dev.spec_sectors(),
            c,
        ) == pre.spec_entry_raw(predev.spec_sectors(), c) by {
            lemma_fat_pos(pre.bpb, c);
        }
        if pre.bpb.fats_number == 2 {
            assert forall|c: int| spec_fat_index_ok(pre.bpb, c) implies self.spec_backup_raw(
                dev.spec_sectors(),
                c,
            ) == pre.spec_backup_raw(predev.spec_sectors(), c) by {
                lemma_fat_pos(pre.bpb, c);
            }
        }
    }

    /// Decode the entry of cluster `c`, masking off the reserved top bits.
    pub fn entry<D: BlockDevice>(&mut self, dev: &mut D, cluster_id: usize) -> (r: FATEntry)
        requires
            old(self).spec_inv(old(dev).spec_sectors()),
            old(self).spec_dev_ok(*old(dev)),
            spec_fat_index_ok(old(self).bpb, cluster_id as int),
        ensures
            final(self).spec_frame(*old(self), *final(dev), *old(dev)),
            r == old(self).spec_entry(old(dev).spec_sectors(), cluster_id as int),
    {
        let raw = self.entry_raw(dev, cluster_id);
        let low = raw % 0x10000000;
        if low == 0 {
            FATEntry::Free
        } else if low == BAD_CLUSTER {
            FATEntry::Bad
        } else if low >= 0x0FFFFFF8 {
            FATEntry::End
        } else {
            FATEntry::Next(low)
        }
    }

    /// Write `value` as the raw word of cluster `c`, to the primary FAT
    /// and, with two FATs, to the backup as well.
    fn set_entry_raw<D: BlockDevice>(&mut self, dev: &mut D, cluster_id: usize, value: u32)
        requires
            old(self).spec_inv(old(dev).spec_sectors()),
            old(self).spec_dev_ok(*old(dev)),
            spec_fat_index_ok(old(self).bpb, cluster_id as int),
        ensures
            final(self).spec_inv(final(dev).spec_sectors()),
            final(self).spec_dev_ok(*final(dev)),
            final(self).bpb == old(self).bpb,
            final(self).fsinfo == old(self).fsinfo,
            final(dev).spec_sectors().len() == old(dev).spec_sectors().len(),
            final(dev).spec_sector_size() == old(dev).spec_sector_size(),
            final(self).spec_entry_raw(final(dev).spec_sectors(), cluster_id as int) == value,
            old(self).bpb.fats_number == 2 ==> final(self).spec_backup_raw(
                final(dev).spec_sectors(),
                cluster_id as int,
            ) == value,
            forall|c: int|
                spec_fat_index_ok(old(self).bpb, c) && c != cluster_id ==> #[trigger] final(self).spec_entry_raw(final(dev).spec_sectors(), c) == old(self).spec_entry_raw(
                    old(dev).spec_sectors(),
                    c,
                ),
            old(self).bpb.fats_number == 2 ==> forall|c: int|
                spec_fat_index_ok(old(self).bpb, c) && c != cluster_id ==> #[trigger] final(self).spec_backup_raw(final(dev).spec_sectors(), c) == old(self).spec_backup_raw(
                    old(dev).spec_sectors(),
                    c,
                ),
            forall|s: int|
                old(self).bpb.spec_first_data_sector() <= s < old(dev).spec_sectors().len()
                    ==> final(dev).spec_sectors()[s] == old(dev).spec_sectors()[s],
    {
        proof {
            lemma_fat_pos(self.bpb, cluster_id as int);
        }
        let (sector_id, backup_sector_id, offset) = self.position(cluster_id);
        let ghost pre = *old(self);
        let ghost predisk = old(dev).spec_sectors();
        self.sector_cache.write_u32(dev, sector_id, offset, value);
        let ghost mid = *self;
        let ghost middisk = dev.spec_sectors();
        if self.bpb.fats_number == 2 {
            self.sector_cache.write_u32(dev, backup_sector_id, offset, value);
        }
        proof {
            reveal(FATManager::spec_entry_raw);
            reveal(FATManager::spec_backup_raw);
            lemma_le32_reassemble(value);
            assert(self.spec_entry_raw(dev.spec_sectors(), cluster_id as int) == value) by {
                lemma_fat_pos(self.bpb, cluster_id as int);
            }
            if pre.bpb.fats_number == 2 {
                assert(self.spec_backup_raw(dev.spec_sectors(), cluster_id as int) == value);
            }
            assert forall|c: int|
                spec_fat_index_ok(pre.bpb, c) && c != cluster_id implies self.spec_entry_raw(
                dev.spec_sectors(),
                c,
            ) == pre.spec_entry_raw(predisk, c) by {
                lemma_fat_pos(pre.bpb, c);
                lemma_fat_pos_distinct(pre.bpb, c, cluster_id as int);
            }
            if pre.bpb.fats_number == 2 {
                assert forall|c: int|
                    spec_fat_index_ok(pre.bpb, c) && c != cluster_id implies self.spec_backup_raw(
                    dev.spec_sectors(),
                    c,
                ) == pre.spec_backup_raw(predisk, c) by {
                    lemma_fat_pos(pre.bpb, c);
                    lemma_fat_pos_distinct(pre.bpb, c, cluster_id as int);
                }
            }
        }
    }

    /// Both FAT copies store the same word for every mapped cluster.
    pub open spec fn spec_fats_agree(self, disk: Seq<Seq<u8>>) -> bool {
        forall|c: int|
            spec_fat_index_ok(self.bpb, c) ==> self.spec_backup_raw(disk, c)
                == self.spec_entry_raw(disk, c)
    }

    /// Write a decoded entry for cluster `c`, preserving the reserved top
    /// four bits and keeping the two FAT copies in step.
    pub fn set_entry<D: BlockDevice>(&mut self, dev: &mut D, cluster_id: usize, entry: FATEntry)
        requires
            old(self).spec_inv(old(dev).spec_sectors()),
            old(self).spec_dev_ok(*old(dev)),
            2 <= cluster_id < old(self).bpb.spec_total_clusters() + 2,
            entry matches FATEntry::Next(n) ==> 2 <= n < old(self).bpb.spec_total_clusters() + 2,
        ensures
            final(self).spec_inv(final(dev).spec_sectors()),
            final(self).spec_dev_ok(*final(dev)),
            final(self).bpb == old(self).bpb,
            final(self).fsinfo == old(self).fsinfo,
            final(dev).spec_sectors().len() == old(dev).spec_sectors().len(),
            final(dev).spec_sector_size() == old(dev).spec_sector_size(),
            final(self).spec_entry(final(dev).spec_sectors(), cluster_id as int) == entry,
            final(self).spec_entry_low(final(dev).spec_sectors(), cluster_id as int)
                == spec_encode_entry(entry),
            final(self).spec_entry_raw(final(dev).spec_sectors(), cluster_id as int) as int
                / 0x10000000 == old(self).spec_entry_raw(old(dev).spec_sectors(), cluster_id as int) as int
                / 0x10000000,
            forall|c: int|
                spec_fat_index_ok(old(self).bpb, c) && c != cluster_id ==> #[trigger] final(self).spec_entry_raw(final(dev).spec_sectors(), c) == old(self).spec_entry_raw(
                    old(dev).spec_sectors(),
                    c,
                ),
            old(self).bpb.fats_number == 2 && old(self).spec_fats_agree(old(dev).spec_sectors())
                ==> final(self).spec_fats_agree(final(dev).spec_sectors()),
            old(self).bpb.fats_number == 2 ==> final(self).spec_backup_raw(
                final(dev).spec_sectors(),
                cluster_id as int,
            ) == final(self).spec_entry_raw(final(dev).spec_sectors(), cluster_id as int),
            forall|s: int|
                old(self).bpb.spec_first_data_sector() <= s < old(dev).spec_sectors().len()
                    ==> final(dev).spec_sectors()[s] == old(dev).spec_sectors()[s],
    {
        let old_raw = self.entry_raw(dev, cluster_id);
        let ghost pre = *old(self);
        let ghost predisk = old(dev).spec_sectors();
        let q: u32 = old_raw / 0x10000000;
        let reserved_bits: u32 = q * 0x10000000;
        let low: u32 = match entry {
            FATEntry::Free => 0,
            FATEntry::Bad => BAD_CLUSTER,
            FATEntry::End => FINAL_CLUSTER,
            FATEntry::Next(n) => n,
        };
        proof {
            assert(q <= 15) by {
                assert(old_raw <= 0xFFFFFFFFu32);
            }
            assert(low < 0x10000000u32);
        }
        let value: u32 = reserved_bits + low;
        self.set_entry_raw(dev, cluster_id, value);
        proof {
            vstd::arithmetic::div_mod::lemma_fundamental_div_mod_converse(
                value as int,
                0x10000000,
                q as int,
                low as int,
            );
            assert(value as int % 0x10000000 == low as int);
            assert(value as int / 0x10000000 == q as int);
            assert(self.spec_entry_low(dev.spec_sectors(), cluster_id as int) == low);
            vstd::arithmetic::div_mod::lemma_fundamental_div_mod(old_raw as int, 0x10000000);
        }
    }

    /// Point cluster `c` at `next_cluster`.
    pub fn set_next_cluster<D: BlockDevice>(&mut self, dev: &mut D, cluster_id: usize, next_cluster: u32)
        requires
            old(self).spec_inv(old(dev).spec_sectors()),
            old(self).spec_dev_ok(*old(dev)),
            2 <= cluster_id < old(self).bpb.spec_total_clusters() + 2,
            2 <= next_cluster < old(self).bpb.spec_total_clusters() + 2,
        ensures
            final(self).spec_inv(final(dev).spec_sectors()),
            final(self).spec_dev_ok(*final(dev)),
            final(self).bpb == old(self).bpb,
            final(self).fsinfo == old(self).fsinfo,
            final(dev).spec_sectors().len() == old(dev).spec_sectors().len(),
            final(dev).spec_sector_size() == old(dev).spec_sector_size(),
            final(self).spec_entry(final(dev).spec_sectors(), cluster_id as int)
                == FATEntry::Next(next_cluster),
            forall|c: int|
                spec_fat_index_ok(old(self).bpb, c) && c != cluster_id ==> #[trigger] final(self).spec_entry_raw(final(dev).spec_sectors(), c) == old(self).spec_entry_raw(
                    old(dev).spec_sectors(),
                    c,
                ),
            forall|s: int|
                old(self).bpb.spec_first_data_sector() <= s < old(dev).spec_sectors().len()
                    ==> final(dev).spec_sectors()[s] == old(dev).spec_sectors()[s],
            old(self).bpb.fats_number == 2 && old(self).spec_fats_agree(old(dev).spec_sectors())
                ==> final(self).spec_fats_agree(final(dev).spec_sectors()),
    {
        self.set_entry(dev, cluster_id, FATEntry::Next(next_cluster));
    }

    /// Mark cluster `c` as the end of its chain.
    pub fn set_end<D: BlockDevice>(&mut self, dev: &mut D, cluster_id: usize)
        requires
            old(self).spec_inv(old(dev).spec_sectors()),
            old(self).spec_dev_ok(*old(dev)),
            2 <= cluster_id < old(self).bpb.spec_total_clusters() + 2,
        ensures
            final(self).spec_inv(final(dev).spec_sectors()),
            final(self).spec_dev_ok(*final(dev)),
            final(self).bpb == old(self).bpb,
            final(self).fsinfo == old(self).fsinfo,
            final(dev).spec_sectors().len() == old(dev).spec_sectors().len(),
            final(dev).spec_sector_size() == old(dev).spec_sector_size(),
            final(self).spec_entry(final(dev).spec_sectors(), cluster_id as int) == FATEntry::End,
            forall|c: int|
                spec_fat_index_ok(old(self).bpb, c) && c != cluster_id ==> #[trigger] final(self).spec_entry_raw(final(dev).spec_sectors(), c) == old(self).spec_entry_raw(
                    old(dev).spec_sectors(),
                    c,
                ),
            forall|s: int|
                old(self).bpb.spec_first_data_sector() <= s < old(dev).spec_sectors().len()
                    ==> final(dev).spec_sectors()[s] == old(dev).spec_sectors()[s],
            old(self).bpb.fats_number == 2 && old(self).spec_fats_agree(old(dev).spec_sectors())
                ==> final(self).spec_fats_agree(final(dev).spec_sectors()),
    {
        self.set_entry(dev, cluster_id, FATEntry::End);
    }

    /// Mark cluster `c` free.
    pub fn set_free<D: BlockDevice>(&mut self, dev: &mut D, cluster_id: usize)
        requires
            old(self).spec_inv(old(dev).spec_sectors()),
            old(self).spec_dev_ok(*old(dev)),
            2 <= cluster_id < old(self).bpb.spec_total_clusters() + 2,
        ensures
            final(self).spec_inv(final(dev).spec_sectors()),
            final(self).spec_dev_ok(*final(dev)),
            final(self).bpb == old(self).bpb,
            final(self).fsinfo == old(self).fsinfo,
            final(dev).spec_sectors().len() == old(dev).spec_sectors().len(),
            final(dev).spec_sector_size() == old(dev).spec_sector_size(),
            final(self).spec_entry(final(dev).spec_sectors(), cluster_id as int) == FATEntry::Free,
            final(self).spec_entry_low(final(dev).spec_sectors(), cluster_id as int) == 0,
            forall|c: int|
                spec_fat_index_ok(old(self).bpb, c) && c != cluster_id ==> #[trigger] final(self).spec_entry_raw(final(dev).spec_sectors(), c) == old(self).spec_entry_raw(
                    old(dev).spec_sectors(),
                    c,
                ),
            forall|s: int|
                old(self).bpb.spec_first_data_sector() <= s < old(dev).spec_sectors().len()
                    ==> final(dev).spec_sectors()[s] == old(dev).spec_sectors()[s],
            old(self).bpb.fats_number == 2 && old(self).spec_fats_agree(old(dev).spec_sectors())
                ==> final(self).spec_fats_agree(final(dev).spec_sectors()),
    {
        self.set_entry(dev, cluster_id, FATEntry::Free);
    }

    /// Mark cluster `c` bad.
    pub fn set_bad<D: BlockDevice>(&mut self, dev: &mut D, cluster_id: usize)
        requires
            old(self).spec_inv(old(dev).spec_sectors()),
            old(self).spec_dev_ok(*old(dev)),
            2 <= cluster_id < old(self).bpb.spec_total_clusters() + 2,
        ensures
            final(self).spec_inv(final(dev).spec_sectors()),
            final(self).spec_dev_ok(*final(dev)),
            final(self).bpb == old(self).bpb,
            final(self).fsinfo == old(self).fsinfo,
            final(dev).spec_sectors().len() == old(dev).spec_sectors().len(),
            final(dev).spec_sector_size() == old(dev).spec_sector_size(),
            final(self).spec_entry(final(dev).spec_sectors(), cluster_id as int) == FATEntry::Bad,
            forall|c: int|
                spec_fat_index_ok(old(self).bpb, c) && c != cluster_id ==> #[trigger] final(self).spec_entry_raw(final(dev).spec_sectors(), c) == old(self).spec_entry_raw(
                    old(dev).spec_sectors(),
                    c,
                ),
            forall|s: int|
                old(self).bpb.spec_first_data_sector() <= s < old(dev).spec_sectors().len()
                    ==> final(dev).spec_sectors()[s] == old(dev).spec_sectors()[s],
            old(self).bpb.fats_number == 2 && old(self).spec_fats_agree(old(dev).spec_sectors())
                ==> final(self).spec_fats_agree(final(dev).spec_sectors()),
    {
        self.set_entry(dev, cluster_id, FATEntry::Bad);
    }

    /// Rewrite the FSInfo sector from the in-memory hints.
    pub fn sync_fsinfo<D: BlockDevice>(&mut self, dev: &mut D)
        requires
            old(self).spec_inv(old(dev).spec_sectors()),
            old(self).spec_dev_ok(*old(dev)),
        ensures
            final(self).spec_inv(final(dev).spec_sectors()),
            final(self).spec_dev_ok(*final(dev)),
            final(self).bpb == old(self).bpb,
            final(self).fsinfo == old(self).fsinfo,
            final(dev).spec_sectors().len() == old(dev).spec_sectors().len(),
            final(dev).spec_sector_size() == old(dev).spec_sector_size(),
            FSInfoSector::spec_parse(
                final(self).sector_cache.spec_sector_view(
                    final(dev).spec_sectors(),
                    old(self).bpb.fsinfo_sector_number as int,
                ),
            ) == FSInfoSector::spec_from_fsinfo(old(self).fsinfo),
            forall|c: int|
                spec_fat_index_ok(old(self).bpb, c) ==> final(self).spec_entry_raw(final(dev).spec_sectors(), c) == old(self).spec_entry_raw(
                    old(dev).spec_sectors(),
                    c,
                ),
            old(self).bpb.fats_number == 2 ==> forall|c: int|
                spec_fat_index_ok(old(self).bpb, c) ==> final(self).spec_backup_raw(final(dev).spec_sectors(), c) == old(self).spec_backup_raw(
                    old(dev).spec_sectors(),
                    c,
                ),
            forall|s: int|
                old(self).bpb.spec_first_data_sector() <= s < old(dev).spec_sectors().len()
                    ==> final(dev).spec_sectors()[s] == old(dev).spec_sectors()[s],
    {
        let fsinfo_sector = FSInfoSector::from_fsinfo(self.fsinfo);
        let bytes = fsinfo_sector.to_bytes(self.bpb.bytes_per_sector() as usize);
        let sid: usize = self.bpb.fsinfo_sector() as usize;
        proof {
            assert(sid < self.bpb.reserved_sectors as int <= self.bpb.spec_first_data_sector());
        }
        self.sector_cache.write_sector(dev, sid, &bytes);
        proof {
            reveal(FATManager::spec_entry_raw);
            reveal(FATManager::spec_backup_raw);
            crate::fsinfo::lemma_fsinfo_sector_roundtrip(
                fsinfo_sector,
                self.sector_cache.spec_sector_view(dev.spec_sectors(), sid as int),
            );
            assert forall|c: int| spec_fat_index_ok(old(self).bpb, c) implies self.spec_entry_raw(
                dev.spec_sectors(),
                c,
            ) == old(self).spec_entry_raw(old(dev).spec_sectors(), c) by {
                lemma_fat_pos(old(self).bpb, c);
            }
            if old(self).bpb.fats_number == 2 {
                assert forall|c: int| spec_fat_index_ok(old(self).bpb, c) implies self.spec_backup_raw(
                    dev.spec_sectors(),
                    c,
                ) == old(self).spec_backup_raw(old(dev).spec_sectors(), c) by {
                    lemma_fat_pos(old(self).bpb, c);
                }
            }
        }
    }

    /// Write every dirty metadata sector back to the device.
    pub fn flush<D: BlockDevice>(&mut self, dev: &mut D)
        requires
            old(self).spec_inv(old(dev).spec_sectors()),
            old(self).spec_dev_ok(*old(dev)),
        ensures
            final(self).spec_frame(*old(self), *final(dev), *old(dev)),
            forall|s: int|
                0 <= s < old(self).bpb.spec_first_data_sector() ==> final(dev).spec_sectors()[s]
                    == old(self).sector_cache.spec_sector_view(old(dev).spec_sectors(), s),
    {
        self.sector_cache.flush_all(dev);
        proof {
            self.lemma_frame_entries(*old(self), *dev, *old(dev));
        }
    }

    /// The cluster id `c` points at, when its entry is a link.
    pub open spec fn spec_next(self, disk: Seq<Seq<u8>>, c: int) -> Option<u32> {
        match self.spec_entry(disk, c) {
            FATEntry::Next(n) => Some(n),
            _ => None,
        }
    }

    /// Cluster `a`'s entry is a link pointing at `b`.
    pub open spec fn spec_links_to(self, disk: Seq<Seq<u8>>, a: int, b: int) -> bool {
        self.spec_entry(disk, a) matches FATEntry::Next(n) && n as int == b
    }

    /// The chain starting at `c`, following links for at most `fuel` steps.
    #[verifier::opaque]
    pub open spec fn spec_chain_from(self, disk: Seq<Seq<u8>>, c: int, fuel: nat) -> Seq<int>
        decreases fuel,
    {
        if fuel == 0 {
            Seq::<int>::empty()
        } else {
            match self.spec_entry(disk, c) {
                FATEntry::Next(n) => seq![c] + self.spec_chain_from(disk, n as int, (fuel - 1) as nat),
                _ => seq![c],
            }
        }
    }

    /// The chain starting at `c`; the fuel covers every acyclic chain.
    pub open spec fn spec_chain(self, disk: Seq<Seq<u8>>, c: int) -> Seq<int> {
        self.spec_chain_from(disk, c, (self.bpb.spec_total_clusters() + 1) as nat)
    }

    /// A well-formed chain: it starts at a data cluster, stays inside the
    /// data region and reaches an `End` entry.
    pub open spec fn spec_chain_wf(self, disk: Seq<Seq<u8>>, start: int) -> bool {
        let ch = self.spec_chain(disk, start);
        &&& 2 <= start < self.bpb.spec_total_clusters() + 2
        &&& forall|i: int| 0 <= i < ch.len() ==> 2 <= #[trigger] ch[i] < self.bpb.spec_total_clusters() + 2
        &&& self.spec_entry(disk, ch.last()) == FATEntry::End
    }

    /// Shape of a fuel-bounded chain: it begins at its start, every element
    /// but the last links to its successor, and only a chain that ran out
    /// of fuel can end on a link.
    #[verifier::rlimit(100)]
    pub proof fn lemma_chain_structure(self, disk: Seq<Seq<u8>>, c: int, fuel: nat)
        requires
            fuel > 0,
        ensures
            1 <= self.spec_chain_from(disk, c, fuel).len() <= fuel,
            self.spec_chain_from(disk, c, fuel)[0] == c,
            forall|i: int|
                0 <= i < self.spec_chain_from(disk, c, fuel).len() - 1 ==> self.spec_links_to(
                    disk,
                    #[trigger] self.spec_chain_from(disk, c, fuel)[i],
                    self.spec_chain_from(disk, c, fuel)[i + 1],
                ),
            self.spec_entry(disk, self.spec_chain_from(disk, c, fuel).last()) is Next
                ==> self.spec_chain_from(disk, c, fuel).len() == fuel,
        decreases fuel,
    {
        reveal_with_fuel(FATManager::spec_chain_from, 2);
        let ch = self.spec_chain_from(disk, c, fuel);
        match self.spec_entry(disk, c) {
            FATEntry::Next(n) => {
                if fuel > 1 {
                    self.lemma_chain_structure(disk, n as int, (fuel - 1) as nat);
                    let tail = self.spec_chain_from(disk, n as int, (fuel - 1) as nat);
                    assert(ch == seq![c] + tail);
                    assert(ch.last() == tail.last());
                    assert forall|i: int|
                        0 <= i < ch.len() - 1 implies self.spec_links_to(
                        disk,
                        #[trigger] ch[i],
                        ch[i + 1],
                    ) by {
                        if i == 0 {
                            assert(ch[0] == c);
                            assert(ch[1] == tail[0]);
                            assert(tail[0] == n as int);
                        } else {
                            assert(ch[i] == tail[i - 1]);
                            assert(ch[i + 1] == tail[i]);
                            assert(self.spec_links_to(disk, tail[i - 1], tail[i]));
                        }
                    }
                } else {
                    assert(ch == seq![c]);
                }
            },
            _ => {
                assert(ch == seq![c]);
            },
        }
    }

    /// Every cluster id on a well-formed chain is a data cluster: at least
    /// the first data cluster id 2 and at most `total_clusters + 1`.
    pub proof fn lemma_chain_ids_in_range(self, disk: Seq<Seq<u8>>, start: int)
        requires
            self.spec_chain_wf(disk, start),
        ensures
            forall|i: int|
                0 <= i < self.spec_chain(disk, start).len() ==> 2 <= #[trigger] self.spec_chain(
                    disk,
                    start,
                )[i] && self.spec_chain(disk, start)[i] <= self.bpb.spec_total_clusters() + 1,
    {
    }

    /// Follow one link.
    pub fn next_cluster<D: BlockDevice>(&mut self, dev: &mut D, cluster_id: usize) -> (r: Option<
        usize,
    >)
        requires
            old(self).spec_inv(old(dev).spec_sectors()),
            old(self).spec_dev_ok(*old(dev)),
            spec_fat_index_ok(old(self).bpb, cluster_id as int),
        ensures
            final(self).spec_frame(*old(self), *final(dev), *old(dev)),
            r == match old(self).spec_next(old(dev).spec_sectors(), cluster_id as int) {
                Some(n) => Some(n as usize),
                None => None::<usize>,
            },
    {
        let val = self.entry(dev, cluster_id);
        match val {
            FATEntry::Next(n) => Some(n as usize),
            _ => None,
        }
    }

    /// The last cluster of the chain starting at `start_cluster`.
    #[verifier::rlimit(100)]
    pub fn final_cluster<D: BlockDevice>(&mut self, dev: &mut D, start_cluster: usize) -> (r:
        usize)
        requires
            old(self).spec_inv(old(dev).spec_sectors()),
            old(self).spec_dev_ok(*old(dev)),
            old(self).spec_chain_wf(old(dev).spec_sectors(), start_cluster as int),
        ensures
            final(self).spec_frame(*old(self), *final(dev), *old(dev)),
            r == old(self).spec_chain(old(dev).spec_sectors(), start_cluster as int).last(),
    {
        let ghost ch = old(self).spec_chain(old(dev).spec_sectors(), start_cluster as int);
        proof {
            old(self).lemma_chain_structure(
                old(dev).spec_sectors(),
                start_cluster as int,
                (old(self).bpb.spec_total_clusters() + 1) as nat,
            );
        }
        let mut curr_cluster = start_cluster;
        let mut i: usize = 0;
        loop
            invariant
                self.spec_frame(*old(self), *dev, *old(dev)),
                0 <= i < ch.len(),
                curr_cluster as int == ch[i as int],
                ch == old(self).spec_chain(old(dev).spec_sectors(), start_cluster as int),
                ch.len() <= old(self).bpb.spec_total_clusters() + 1,
                old(self).spec_chain_wf(old(dev).spec_sectors(), start_cluster as int),
                forall|j: int|
                    0 <= j < ch.len() - 1 ==> old(self).spec_links_to(
                        old(dev).spec_sectors(),
                        #[trigger] ch[j],
                        ch[j + 1],
                    ),
            ensures
                curr_cluster as int == ch.last(),
            decreases ch.len() - i,
        {
            let ghost mid = *self;
            let ghost middev = *dev;
            if let Some(next_cluster) = self.next_cluster(dev, curr_cluster) {
                proof {
                    self.lemma_frame_trans(mid, *old(self), *dev, middev, *old(dev));
                    assert(mid.spec_entry(middev.spec_sectors(), curr_cluster as int) == old(
                        self,
                    ).spec_entry(old(dev).spec_sectors(), curr_cluster as int)) by {
                        assert(mid.spec_entry_raw(middev.spec_sectors(), curr_cluster as int)
                            == old(self).spec_entry_raw(
                            old(dev).spec_sectors(),
                            curr_cluster as int,
                        ));
                    }
                    assert(old(self).spec_entry(old(dev).spec_sectors(), ch[i as int]) is Next);
                    assert(i < ch.len() - 1) by {
                        if i == ch.len() - 1 {
                            assert(old(self).spec_entry(old(dev).spec_sectors(), ch.last())
                                == FATEntry::End);
                        }
                    }
                }
                curr_cluster = next_cluster;
                i = i + 1;
            } else {
                proof {
                    self.lemma_frame_trans(mid, *old(self), *dev, middev, *old(dev));
                    assert(mid.spec_entry(middev.spec_sectors(), curr_cluster as int) == old(
                        self,
                    ).spec_entry(old(dev).spec_sectors(), curr_cluster as int)) by {
                        assert(mid.spec_entry_raw(middev.spec_sectors(), curr_cluster as int)
                            == old(self).spec_entry_raw(
                            old(dev).spec_sectors(),
                            curr_cluster as int,
                        ));
                    }
                    assert(i == ch.len() - 1) by {
                        if i < ch.len() - 1 {
                            assert(old(self).spec_links_to(
                                old(dev).spec_sectors(),
                                ch[i as int],
                                ch[i + 1],
                            ));
                        }
                    }
                }
                return curr_cluster;
            }
        }
    }

    /// Frame facts compose across successive operations.
    pub proof fn lemma_frame_trans<D: BlockDevice>(
        self,
        mid: FATManager,
        pre: FATManager,
        dev: D,
        middev: D,
        predev: D,
    )
        requires
            self.spec_frame(mid, dev, middev),
            mid.spec_frame(pre, middev, predev),
        ensures
            self.spec_frame(pre, dev, predev),
    {
        reveal(FATManager::spec_entry_raw);
        reveal(FATManager::spec_backup_raw);
        assert forall|c: int| spec_fat_index_ok(pre.bpb, c) implies self.spec_entry_raw(
            dev.spec_sectors(),
            c,
        ) == pre.spec_entry_raw(predev.spec_sectors(), c) by {
            assert(mid.spec_entry_raw(middev.spec_sectors(), c) == pre.spec_entry_raw(
                predev.spec_sectors(),
                c,
            ));
        }
        if pre.bpb.fats_number == 2 {
            assert forall|c: int| spec_fat_index_ok(pre.bpb, c) implies self.spec_backup_raw(
                dev.spec_sectors(),
                c,
            ) == pre.spec_backup_raw(predev.spec_sectors(), c) by {
                assert(mid.spec_backup_raw(middev.spec_sectors(), c) == pre.spec_backup_raw(
                    predev.spec_sectors(),
                    c,
                ));
            }
        }
    }

    /// The complete chain starting at `start_cluster`, in order.
    #[verifier::rlimit(100)]
    pub fn all_clusters<D: BlockDevice>(&mut self, dev: &mut D, start_cluster: usize) -> (r: Vec<
        usize,
    >)
        requires
            old(self).spec_inv(old(dev).spec_sectors()),
            old(self).spec_dev_ok(*old(dev)),
            old(self).spec_chain_wf(old(dev).spec_sectors(), start_cluster as int),
        ensures
            final(self).spec_frame(*old(self), *final(dev), *old(dev)),
            r@.len() == old(self).spec_chain(old(dev).spec_sectors(), start_cluster as int).len(),
            forall|i: int|
                0 <= i < r@.len() ==> #[trigger] r@[i] == old(self).spec_chain(
                    old(dev).spec_sectors(),
                    start_cluster as int,
                )[i],
    {
        let ghost ch = old(self).spec_chain(old(dev).spec_sectors(), start_cluster as int);
        proof {
            old(self).lemma_chain_structure(
                old(dev).spec_sectors(),
                start_cluster as int,
                (old(self).bpb.spec_total_clusters() + 1) as nat,
            );
        }
        let mut curr_cluster = start_cluster;
        let mut clusters: Vec<usize> = Vec::new();
        loop
            invariant
                self.spec_frame(*old(self), *dev, *old(dev)),
                clusters@.len() < ch.len(),
                curr_cluster as int == ch[clusters@.len() as int],
                forall|j: int| 0 <= j < clusters@.len() ==> #[trigger] clusters@[j] == ch[j],
                ch == old(self).spec_chain(old(dev).spec_sectors(), start_cluster as int),
                ch.len() <= old(self).bpb.spec_total_clusters() + 1,
                old(self).spec_chain_wf(old(dev).spec_sectors(), start_cluster as int),
                forall|j: int|
                    0 <= j < ch.len() - 1 ==> old(self).spec_links_to(
                        old(dev).spec_sectors(),
                        #[trigger] ch[j],
                        ch[j + 1],
                    ),
            ensures
                clusters@.len() == ch.len(),
                forall|j: int| 0 <= j < ch.len() ==> #[trigger] clusters@[j] == ch[j],
            decreases ch.len() - clusters@.len(),
        {
            clusters.push(curr_cluster);
            let ghost mid = *self;
            let ghost middev = *dev;
            if let Some(next_cluster) = self.next_cluster(dev, curr_cluster) {
                proof {
                    self.lemma_frame_trans(mid, *old(self), *dev, middev, *old(dev));
                    assert(mid.spec_entry(middev.spec_sectors(), curr_cluster as int) == old(
                        self,
                    ).spec_entry(old(dev).spec_sectors(), curr_cluster as int)) by {
                        assert(mid.spec_entry_raw(middev.spec_sectors(), curr_cluster as int)
                            == old(self).spec_entry_raw(
                            old(dev).spec_sectors(),
                            curr_cluster as int,
                        ));
                    }
                    assert(old(self).spec_entry(
                        old(dev).spec_sectors(),
                        ch[clusters@.len() - 1],
                    ) is Next);
                    assert(clusters@.len() < ch.len()) by {
                        if clusters@.len() == ch.len() {
                            assert(old(self).spec_entry(old(dev).spec_sectors(), ch.last())
                                == FATEntry::End);
                        }
                    }
                    assert(old(self).spec_links_to(
                        old(dev).spec_sectors(),
                        ch[clusters@.len() - 1],
                        ch[clusters@.len() as int],
                    ));
                }
                curr_cluster = next_cluster;
            } else {
                proof {
                    self.lemma_frame_trans(mid, *old(self), *dev, middev, *old(dev));
                    assert(mid.spec_entry(middev.spec_sectors(), curr_cluster as int) == old(
                        self,
                    ).spec_entry(old(dev).spec_sectors(), curr_cluster as int)) by {
                        assert(mid.spec_entry_raw(middev.spec_sectors(), curr_cluster as int)
                            == old(self).spec_entry_raw(
                            old(dev).spec_sectors(),
                            curr_cluster as int,
                        ));
                    }
                    assert(clusters@.len() == ch.len()) by {
                        if clusters@.len() < ch.len() {
                            assert(old(self).spec_links_to(
                                old(dev).spec_sectors(),
                                ch[clusters@.len() - 1],
                                ch[clusters@.len() as int],
                            ));
                        }
                    }
                }
                return clusters;
            }
        }
    }

    /// The length of the chain starting at `start_cluster`.
    pub fn count_clusters<D: BlockDevice>(&mut self, dev: &mut D, start_cluster: usize) -> (r:
        usize)
        requires
            old(self).spec_inv(old(dev).spec_sectors()),
            old(self).spec_dev_ok(*old(dev)),
            old(self).spec_chain_wf(old(dev).spec_sectors(), start_cluster as int),
        ensures
            final(self).spec_frame(*old(self), *final(dev), *old(dev)),
            r == old(self).spec_chain(old(dev).spec_sectors(), start_cluster as int).len(),
    {
        let all = self.all_clusters(dev, start_cluster);
        all.len()
    }

    /// The cluster `index` links after `chain_start_cluster`, if the chain
    /// is long enough.
    #[verifier::rlimit(100)]
    pub fn search_cluster<D: BlockDevice>(
        &mut self,
        dev: &mut D,
        chain_start_cluster: usize,
        index: usize,
    ) -> (r: Option<usize>)
        requires
            old(self).spec_inv(old(dev).spec_sectors()),
            old(self).spec_dev_ok(*old(dev)),
            old(self).spec_chain_wf(old(dev).spec_sectors(), chain_start_cluster as int),
        ensures
            final(self).spec_frame(*old(self), *final(dev), *old(dev)),
            r == if (index as int) < old(self).spec_chain(
                old(dev).spec_sectors(),
                chain_start_cluster as int,
            ).len() {
                Some(
                    (old(self).spec_chain(old(dev).spec_sectors(), chain_start_cluster as int)[
                        index as int] as usize),
                )
            } else {
                None::<usize>
            },
    {
        let ghost ch = old(self).spec_chain(old(dev).spec_sectors(), chain_start_cluster as int);
        proof {
            old(self).lemma_chain_structure(
                old(dev).spec_sectors(),
                chain_start_cluster as int,
                (old(self).bpb.spec_total_clusters() + 1) as nat,
            );
        }
        let mut curr_cluster = chain_start_cluster;
        let mut i: usize = 0;
        while i < index
            invariant
                self.spec_frame(*old(self), *dev, *old(dev)),
                0 <= i <= index,
                i < ch.len(),
                curr_cluster as int == ch[i as int],
                ch == old(self).spec_chain(old(dev).spec_sectors(), chain_start_cluster as int),
                ch.len() <= old(self).bpb.spec_total_clusters() + 1,
                old(self).spec_chain_wf(old(dev).spec_sectors(), chain_start_cluster as int),
                forall|j: int|
                    0 <= j < ch.len() - 1 ==> old(self).spec_links_to(
                        old(dev).spec_sectors(),
                        #[trigger] ch[j],
                        ch[j + 1],
                    ),
            decreases index - i,
        {
            let ghost mid = *self;
            let ghost middev = *dev;
            if let Some(next_cluster) = self.next_cluster(dev, curr_cluster) {
                proof {
                    self.lemma_frame_trans(mid, *old(self), *dev, middev, *old(dev));
                    assert(i < ch.len() - 1) by {
                        if i == ch.len() - 1 {
                            assert(old(self).spec_entry(old(dev).spec_sectors(), ch.last())
                                == FATEntry::End);
                        }
                    }
                }
                curr_cluster = next_cluster;
                i = i + 1;
            } else {
                proof {
                    self.lemma_frame_trans(mid, *old(self), *dev, middev, *old(dev));
                    assert(mid.spec_entry(middev.spec_sectors(), curr_cluster as int) == old(
                        self,
                    ).spec_entry(old(dev).spec_sectors(), curr_cluster as int)) by {
                        assert(mid.spec_entry_raw(middev.spec_sectors(), curr_cluster as int)
                            == old(self).spec_entry_raw(
                            old(dev).spec_sectors(),
                            curr_cluster as int,
                        ));
                    }
                    assert(i == ch.len() - 1) by {
                        if i < ch.len() - 1 {
                            assert(old(self).spec_links_to(
                                old(dev).spec_sectors(),
                                ch[i as int],
                                ch[i + 1],
                            ));
                        }
                    }
                }
                return None;
            }
        }
        proof {
            assert(i == index);
        }
        Some(curr_cluster)
    }

    /// Number of free entries among clusters `[2, n)`.
    pub open spec fn spec_count_free_upto(self, disk: Seq<Seq<u8>>, n: int) -> int
        decreases n,
    {
        if n <= 2 {
            0
        } else {
            self.spec_count_free_upto(disk, n - 1) + if self.spec_entry_low(disk, n - 1) == 0 {
                1int
            } else {
                0int
            }
        }
    }

    /// Number of free clusters on the volume.
    pub open spec fn spec_count_free(self, disk: Seq<Seq<u8>>) -> int {
        self.spec_count_free_upto(disk, self.bpb.spec_total_clusters() + 2)
    }

    /// The free count over `[2, n)` is at most `n - 2`.
    pub proof fn lemma_count_free_bound(self, disk: Seq<Seq<u8>>, n: int)
        ensures
            0 <= self.spec_count_free_upto(disk, n) <= (if n <= 2 { 0int } else { n - 2 }),
        decreases n,
    {
        if n > 2 {
            self.lemma_count_free_bound(disk, n - 1);
        }
    }

    /// A positive free count over `[2, n)` names a free cluster there.
    pub proof fn lemma_count_free_witness(self, disk: Seq<Seq<u8>>, n: int) -> (c: int)
        requires
            self.spec_count_free_upto(disk, n) > 0,
        ensures
            2 <= c < n,
            self.spec_entry_low(disk, c) == 0,
        decreases n,
    {
        if n <= 2 {
            0
        } else if self.spec_entry_low(disk, n - 1) == 0 {
            n - 1
        } else {
            self.lemma_count_free_witness(disk, n - 1)
        }
    }


    /// Raw entries depend only on the geometry and the sector cache, not
    /// on the FSInfo hints.
    pub proof fn lemma_entry_raw_fsinfo_irrelevant(a: FATManager, b: FATManager, disk: Seq<Seq<u8>>)
        requires
            a.bpb == b.bpb,
            a.sector_cache == b.sector_cache,
        ensures
            forall|c: int| #[trigger] a.spec_entry_raw(disk, c) == b.spec_entry_raw(disk, c),
            forall|c: int| #[trigger] a.spec_backup_raw(disk, c) == b.spec_backup_raw(disk, c),
            forall|c: int| #[trigger] a.spec_entry_low(disk, c) == b.spec_entry_low(disk, c),
    {
        reveal(FATManager::spec_entry_raw);
        reveal(FATManager::spec_backup_raw);
    }

    /// Two states whose entries agree over `[2, n)` count the same free
    /// clusters there.
    pub proof fn lemma_count_free_congruence(
        a: FATManager,
        diska: Seq<Seq<u8>>,
        b: FATManager,
        diskb: Seq<Seq<u8>>,
        n: int,
    )
        requires
            forall|c: int|
                2 <= c < n ==> #[trigger] a.spec_entry_low(diska, c) == b.spec_entry_low(diskb, c),
        ensures
            a.spec_count_free_upto(diska, n) == b.spec_count_free_upto(diskb, n),
        decreases n,
    {
        if n > 2 {
            Self::lemma_count_free_congruence(a, diska, b, diskb, n - 1);
        }
    }

    /// Search for a free cluster: try the FSInfo hint when it is past
    /// `start_cluster` and really free, else scan from `start_cluster` to
    /// the end and wrap around.
    pub fn search_free_cluster<D: BlockDevice>(&mut self, dev: &mut D, start_cluster: usize) -> (r:
        Option<u32>)
        requires
            old(self).spec_inv(old(dev).spec_sectors()),
            old(self).spec_dev_ok(*old(dev)),
            2 <= start_cluster < old(self).bpb.spec_total_clusters() + 2,
        ensures
            final(self).spec_frame(*old(self), *final(dev), *old(dev)),
            r matches Some(id) ==> 2 <= id < old(self).bpb.spec_total_clusters() + 2 && old(self).spec_entry_low(old(dev).spec_sectors(), id as int) == 0,
            r is None ==> forall|c: int|
                2 <= c < old(self).bpb.spec_total_clusters() + 2 ==> #[trigger] old(self).spec_entry_low(old(dev).spec_sectors(), c) != 0,
    {
        let end: usize = self.bpb.total_clusters() as usize + 2;
        let hint = self.fsinfo.next_free_cluster();
        if let Some(n) = hint {
            if n as usize > start_cluster {
                let e = self.entry(dev, n as usize);
                if matches!(e, FATEntry::Free) {
                    return Some(n);
                }
            }
        }
        let ghost mid0 = *self;
        let ghost middev0 = *dev;
        proof {
            if !(*self =~= *old(self)) {
            }
            self.lemma_frame_refl(*dev);
        }
        let mut cluster_id: usize = start_cluster;
        while cluster_id < end
            invariant
                self.spec_frame(*old(self), *dev, *old(dev)),
                end == old(self).bpb.spec_total_clusters() + 2,
                2 <= start_cluster <= cluster_id <= end,
                forall|c: int|
                    start_cluster <= c < cluster_id ==> #[trigger] old(self).spec_entry_low(
                        old(dev).spec_sectors(),
                        c,
                    ) != 0,
            decreases end - cluster_id,
        {
            let ghost mid = *self;
            let ghost middev = *dev;
            let e = self.entry(dev, cluster_id);
            proof {
                self.lemma_frame_trans(mid, *old(self), *dev, middev, *old(dev));
                assert(mid.spec_entry_raw(middev.spec_sectors(), cluster_id as int) == old(
                    self,
                ).spec_entry_raw(old(dev).spec_sectors(), cluster_id as int));
            }
            if matches!(e, FATEntry::Free) {
                return Some(cluster_id as u32);
            }
            cluster_id = cluster_id + 1;
        }
        let end2: usize = start_cluster;
        cluster_id = 2;
        while cluster_id < end2
            invariant
                self.spec_frame(*old(self), *dev, *old(dev)),
                end2 == start_cluster,
                2 <= start_cluster < old(self).bpb.spec_total_clusters() + 2,
                2 <= cluster_id <= end2,
                forall|c: int|
                    start_cluster <= c < old(self).bpb.spec_total_clusters() + 2
                        ==> #[trigger] old(self).spec_entry_low(old(dev).spec_sectors(), c) != 0,
                forall|c: int|
                    2 <= c < cluster_id ==> #[trigger] old(self).spec_entry_low(
                        old(dev).spec_sectors(),
                        c,
                    ) != 0,
            decreases end2 - cluster_id,
        {
            let ghost mid = *self;
            let ghost middev = *dev;
            let e = self.entry(dev, cluster_id);
            proof {
                self.lemma_frame_trans(mid, *old(self), *dev, middev, *old(dev));
                assert(mid.spec_entry_raw(middev.spec_sectors(), cluster_id as int) == old(
                    self,
                ).spec_entry_raw(old(dev).spec_sectors(), cluster_id as int));
            }
            if matches!(e, FATEntry::Free) {
                return Some(cluster_id as u32);
            }
            cluster_id = cluster_id + 1;
        }
        None
    }

    /// The frame relation is reflexive.
    pub proof fn lemma_frame_refl<D: BlockDevice>(self, dev: D)
        requires
            self.spec_inv(dev.spec_sectors()),
            self.spec_dev_ok(dev),
        ensures
            self.spec_frame(self, dev, dev),
    {
    }

    /// The free-cluster count: the FSInfo hint when one is known, else an
    /// exact scan of the whole FAT.
    pub fn count_free_clusters<D: BlockDevice>(&mut self, dev: &mut D) -> (r: u32)
        requires
            old(self).spec_inv(old(dev).spec_sectors()),
            old(self).spec_dev_ok(*old(dev)),
        ensures
            final(self).spec_frame(*old(self), *final(dev), *old(dev)),
            r == match old(self).fsinfo.free_cluster_count {
                Some(n) => n as int,
                None => old(self).spec_count_free(old(dev).spec_sectors()),
            },
    {
        if let Some(num) = self.fsinfo.free_clusters() {
            proof {
                self.lemma_frame_refl(*dev);
            }
            return num;
        }
        let end: usize = self.bpb.total_clusters() as usize + 2;
        let mut cluster_id: usize = 2;
        let mut num: u32 = 0;
        proof {
            self.lemma_frame_refl(*dev);
        }
        while cluster_id < end
            invariant
                self.spec_frame(*old(self), *dev, *old(dev)),
                end == old(self).bpb.spec_total_clusters() + 2,
                2 <= cluster_id <= end,
                num == old(self).spec_count_free_upto(old(dev).spec_sectors(), cluster_id as int),
                num <= cluster_id - 2,
            decreases end - cluster_id,
        {
            let ghost mid = *self;
            let ghost middev = *dev;
            let e = self.entry(dev, cluster_id);
            proof {
                self.lemma_frame_trans(mid, *old(self), *dev, middev, *old(dev));
                assert(mid.spec_entry_raw(middev.spec_sectors(), cluster_id as int) == old(
                    self,
                ).spec_entry_raw(old(dev).spec_sectors(), cluster_id as int));
            }
            if matches!(e, FATEntry::Free) {
                num = num + 1;
            }
            cluster_id = cluster_id + 1;
        }
        num
    }

    /// Recompute the free-count hint by scanning the FAT, as done at mount.
    pub fn recalculate_fsinfo<D: BlockDevice>(&mut self, dev: &mut D)
        requires
            old(self).spec_inv(old(dev).spec_sectors()),
            old(self).spec_dev_ok(*old(dev)),
        ensures
            final(self).spec_inv(final(dev).spec_sectors()),
            final(self).spec_dev_ok(*final(dev)),
            final(self).bpb == old(self).bpb,
            final(dev).spec_sectors().len() == old(dev).spec_sectors().len(),
            final(dev).spec_sector_size() == old(dev).spec_sector_size(),
            forall|c: int|
                spec_fat_index_ok(old(self).bpb, c) ==> #[trigger] final(self).spec_entry_raw(final(dev).spec_sectors(), c) == old(self).spec_entry_raw(
                    old(dev).spec_sectors(),
                    c,
                ),
            forall|s: int|
                old(self).bpb.spec_first_data_sector() <= s < old(dev).spec_sectors().len()
                    ==> final(dev).spec_sectors()[s] == old(dev).spec_sectors()[s],
            final(self).fsinfo.free_cluster_count == Some(
                (old(self).spec_count_free(old(dev).spec_sectors()) as u32),
            ),
            final(self).fsinfo.next_free_cluster == old(self).fsinfo.next_free_cluster,
    {
        self.fsinfo.set_free_cluster_count(None);
        let ghost cleared = *self;
        proof {
            cleared.lemma_frame_refl(*dev);
            Self::lemma_entry_raw_fsinfo_irrelevant(cleared, *old(self), old(dev).spec_sectors());
        }
        let num = self.count_free_clusters(dev);
        let ghost counted = *self;
        proof {
            old(self).lemma_count_free_bound(
                old(dev).spec_sectors(),
                old(self).bpb.spec_total_clusters() + 2,
            );
            Self::lemma_count_free_congruence(
                cleared,
                old(dev).spec_sectors(),
                *old(self),
                old(dev).spec_sectors(),
                old(self).bpb.spec_total_clusters() + 2,
            );
        }
        self.fsinfo.set_free_cluster_count(Some(num));
        proof {
            Self::lemma_entry_raw_fsinfo_irrelevant(*self, counted, dev.spec_sectors());
            assert forall|c: int| spec_fat_index_ok(old(self).bpb, c) implies #[trigger] self.spec_entry_raw(dev.spec_sectors(), c) == old(self).spec_entry_raw(
                old(dev).spec_sectors(),
                c,
            ) by {
                assert(counted.spec_entry_raw(dev.spec_sectors(), c) == cleared.spec_entry_raw(
                    old(dev).spec_sectors(),
                    c,
                ));
                assert(cleared.spec_entry_raw(old(dev).spec_sectors(), c) == old(
                    self,
                ).spec_entry_raw(old(dev).spec_sectors(), c));
            }
        }
    }

    /// Allocate one cluster: find a free id, mark it `End`, link `prev` to
    /// it when `prev` currently ends a chain, and refresh the hints.
    /// Returns `None`, changing nothing, when the volume is full.
    pub fn alloc_cluster<D: BlockDevice>(&mut self, dev: &mut D, prev: Option<u32>) -> (r: Option<
        u32,
    >)
        requires
            old(self).spec_inv(old(dev).spec_sectors()),
            old(self).spec_dev_ok(*old(dev)),
            prev matches Some(p) ==> 2 <= p < old(self).bpb.spec_total_clusters() + 2,
        ensures
            final(self).spec_inv(final(dev).spec_sectors()),
            final(self).spec_dev_ok(*final(dev)),
            final(self).bpb == old(self).bpb,
            final(dev).spec_sectors().len() == old(dev).spec_sectors().len(),
            final(dev).spec_sector_size() == old(dev).spec_sector_size(),
            forall|s: int|
                old(self).bpb.spec_first_data_sector() <= s < old(dev).spec_sectors().len()
                    ==> final(dev).spec_sectors()[s] == old(dev).spec_sectors()[s],
            r is None ==> final(self).spec_frame(*old(self), *final(dev), *old(dev)) && forall|
                c: int,
            |
                2 <= c < old(self).bpb.spec_total_clusters() + 2 ==> #[trigger] old(self).spec_entry_low(old(dev).spec_sectors(), c) != 0,
            r matches Some(id) ==> {
                &&& 2 <= id < old(self).bpb.spec_total_clusters() + 2
                &&& old(self).spec_entry_low(old(dev).spec_sectors(), id as int) == 0
                &&& final(self).spec_entry(final(dev).spec_sectors(), id as int) == FATEntry::End
                &&& (prev matches Some(p) ==> (old(self).spec_entry(
                    old(dev).spec_sectors(),
                    p as int,
                ) == FATEntry::End ==> final(self).spec_entry(final(dev).spec_sectors(), p as int)
                    == FATEntry::Next(id)))
                &&& (prev matches Some(p) ==> (old(self).spec_entry(
                    old(dev).spec_sectors(),
                    p as int,
                ) != FATEntry::End && p != id ==> final(self).spec_entry_raw(
                    final(dev).spec_sectors(),
                    p as int,
                ) == old(self).spec_entry_raw(old(dev).spec_sectors(), p as int)))
                &&& forall|c: int|
                    spec_fat_index_ok(old(self).bpb, c) && c != id && (prev is None || c
                        != prev->0) ==> #[trigger] final(self).spec_entry_raw(
                        final(dev).spec_sectors(),
                        c,
                    ) == old(self).spec_entry_raw(old(dev).spec_sectors(), c)
                &&& final(self).fsinfo.free_cluster_count == match old(self).fsinfo.free_cluster_count {
                    Some(n) => Some((if n > 0 { (n - 1) as u32 } else { 0u32 })),
                    None => None::<u32>,
                }
                &&& (final(self).fsinfo.next_free_cluster matches Some(m) ==> final(self).spec_entry_low(final(dev).spec_sectors(), m as int) == 0)
            },
            old(self).bpb.fats_number == 2 && old(self).spec_fats_agree(old(dev).spec_sectors())
                ==> final(self).spec_fats_agree(final(dev).spec_sectors()),
    {
        let free = self.search_free_cluster(dev, 2);
        let ghost st0 = *self;
        let ghost dev0 = *dev;
        if free.is_none() {
            return None;
        }
        let free_id = free.unwrap();
        // remember whether prev currently ends a chain, before any write
        let mut link_prev = false;
        let ghost st1 = *self;
        let ghost dev1 = *dev;
        if let Some(p) = prev {
            let pe = self.entry(dev, p as usize);
            link_prev = matches!(pe, FATEntry::End);
            proof {
                self.lemma_frame_trans(st1, *old(self), *dev, dev1, *old(dev));
                assert(st1.spec_entry_raw(dev1.spec_sectors(), p as int) == old(
                    self,
                ).spec_entry_raw(old(dev).spec_sectors(), p as int));
                assert(link_prev == (old(self).spec_entry(old(dev).spec_sectors(), p as int)
                    == FATEntry::End));
                if link_prev {
                    assert(p != free_id) by {
                        assert(old(self).spec_entry_low(old(dev).spec_sectors(), free_id as int)
                            == 0);
                    }
                }
            }
        }
        proof {
            assert(self.spec_frame(*old(self), *dev, *old(dev)));
        }
        let ghost st2 = *self;
        let ghost dev2 = *dev;
        self.set_entry(dev, free_id as usize, FATEntry::End);
        let ghost st3 = *self;
        let ghost dev3 = *dev;
        if link_prev {
            let p = prev.unwrap();
            self.set_entry(dev, p as usize, FATEntry::Next(free_id));
        }
        let ghost st4 = *self;
        let ghost dev4 = *dev;
        proof {
            if link_prev {
                let p = prev->0;
                assert(p != free_id);
                assert(self.spec_entry(dev.spec_sectors(), free_id as int) == FATEntry::End) by {
                    assert(st4.spec_entry_raw(dev4.spec_sectors(), free_id as int)
                        == st3.spec_entry_raw(dev3.spec_sectors(), free_id as int));
                }
            }
        }
        let next_free = self.search_free_cluster(dev, free_id as usize);
        let ghost st5 = *self;
        let ghost dev5 = *dev;
        proof {
            assert(st5.spec_frame(st4, dev5, dev4));
        }
        self.fsinfo.set_next_free_cluster(next_free);
        if let Some(n) = self.fsinfo.free_clusters() {
            if n > 0 {
                self.fsinfo.set_free_cluster_count(Some(n - 1));
            } else {
                self.fsinfo.set_free_cluster_count(Some(0));
            }
        }
        proof {
            Self::lemma_entry_raw_fsinfo_irrelevant(*self, st5, dev.spec_sectors());
            assert forall|c: int|
                spec_fat_index_ok(old(self).bpb, c) && c != free_id && (prev is None || c
                    != prev->0) implies #[trigger] self.spec_entry_raw(dev.spec_sectors(), c)
                == old(self).spec_entry_raw(old(dev).spec_sectors(), c) by {
                assert(st5.spec_entry_raw(dev5.spec_sectors(), c) == st4.spec_entry_raw(
                    dev4.spec_sectors(),
                    c,
                ));
                assert(st2.spec_entry_raw(dev2.spec_sectors(), c) == old(self).spec_entry_raw(
                    old(dev).spec_sectors(),
                    c,
                ));
            }
            assert(self.spec_entry(dev.spec_sectors(), free_id as int) == FATEntry::End) by {
                assert(st5.spec_entry_raw(dev5.spec_sectors(), free_id as int)
                    == st4.spec_entry_raw(dev4.spec_sectors(), free_id as int));
            }
            if prev is Some {
                let p = prev->0;
                if old(self).spec_entry(old(dev).spec_sectors(), p as int) == FATEntry::End {
                    assert(self.spec_entry(dev.spec_sectors(), p as int) == FATEntry::Next(
                        free_id,
                    )) by {
                        assert(st5.spec_entry_raw(dev5.spec_sectors(), p as int)
                            == st4.spec_entry_raw(dev4.spec_sectors(), p as int));
                    }
                } else if p != free_id {
                    assert(self.spec_entry_raw(dev.spec_sectors(), p as int) == old(
                        self,
                    ).spec_entry_raw(old(dev).spec_sectors(), p as int)) by {
                        assert(!link_prev);
                        assert(st5.spec_entry_raw(dev5.spec_sectors(), p as int)
                            == st4.spec_entry_raw(dev4.spec_sectors(), p as int));
                        assert(st4.spec_entry_raw(dev4.spec_sectors(), p as int)
                            == st3.spec_entry_raw(dev3.spec_sectors(), p as int));
                        assert(st3.spec_entry_raw(dev3.spec_sectors(), p as int)
                            == st2.spec_entry_raw(dev2.spec_sectors(), p as int));
                        assert(st2.spec_entry_raw(dev2.spec_sectors(), p as int) == old(
                            self,
                        ).spec_entry_raw(old(dev).spec_sectors(), p as int));
                    }
                }
            }
            if next_free is Some {
                let m = next_free->0;
                assert(self.spec_entry_low(dev.spec_sectors(), m as int) == 0) by {
                    assert(st5.spec_entry_low(dev5.spec_sectors(), m as int) == st4.spec_entry_low(
                        dev4.spec_sectors(),
                        m as int,
                    ));
                }
            }
            if old(self).bpb.fats_number == 2 && old(self).spec_fats_agree(
                old(dev).spec_sectors(),
            ) {
                assert forall|c: int| spec_fat_index_ok(old(self).bpb, c) implies
                #[trigger] self.spec_backup_raw(dev.spec_sectors(), c) == self.spec_entry_raw(
                    dev.spec_sectors(),
                    c,
                ) by {
                    assert(st2.spec_fats_agree(dev2.spec_sectors()));
                    assert(st3.spec_fats_agree(dev3.spec_sectors()));
                    assert(st4.spec_fats_agree(dev4.spec_sectors()));
                    assert(st5.spec_fats_agree(dev5.spec_sectors()));
                    assert(self.spec_backup_raw(dev.spec_sectors(), c) == st5.spec_backup_raw(
                        dev5.spec_sectors(),
                        c,
                    ));
                }
            }
        }
        Some(free_id)
    }

    /// Free one cluster; when `prev` is supplied it becomes the new end of
    /// its chain.  Returns the cluster that followed, now orphaned.
    pub fn dealloc_cluster<D: BlockDevice>(
        &mut self,
        dev: &mut D,
        cluster_id: usize,
        prev: Option<u32>,
    ) -> (r: Option<u32>)
        requires
            old(self).spec_inv(old(dev).spec_sectors()),
            old(self).spec_dev_ok(*old(dev)),
            2 <= cluster_id < old(self).bpb.spec_total_clusters() + 2,
            prev matches Some(p) ==> 2 <= p < old(self).bpb.spec_total_clusters() + 2 && p
                != cluster_id,
        ensures
            final(self).spec_inv(final(dev).spec_sectors()),
            final(self).spec_dev_ok(*final(dev)),
            final(self).bpb == old(self).bpb,
            final(dev).spec_sectors().len() == old(dev).spec_sectors().len(),
            final(dev).spec_sector_size() == old(dev).spec_sector_size(),
            forall|s: int|
                old(self).bpb.spec_first_data_sector() <= s < old(dev).spec_sectors().len()
                    ==> final(dev).spec_sectors()[s] == old(dev).spec_sectors()[s],
            r == old(self).spec_next(old(dev).spec_sectors(), cluster_id as int),
            final(self).spec_entry(final(dev).spec_sectors(), cluster_id as int) == FATEntry::Free,
            prev matches Some(p) ==> final(self).spec_entry(final(dev).spec_sectors(), p as int)
                == FATEntry::End,
            forall|c: int|
                spec_fat_index_ok(old(self).bpb, c) && c != cluster_id && (prev is None || c
                    != prev->0) ==> #[trigger] final(self).spec_entry_raw(
                    final(dev).spec_sectors(),
                    c,
                ) == old(self).spec_entry_raw(old(dev).spec_sectors(), c),
            final(self).fsinfo.next_free_cluster == old(self).fsinfo.next_free_cluster,
            final(self).fsinfo.free_cluster_count == match old(self).fsinfo.free_cluster_count {
                Some(n) => Some(
                    (if n < old(self).bpb.spec_total_clusters() {
                        (n + 1) as u32
                    } else {
                        (old(self).bpb.spec_total_clusters() as u32)
                    }),
                ),
                None => None::<u32>,
            },
            old(self).bpb.fats_number == 2 && old(self).spec_fats_agree(old(dev).spec_sectors())
                ==> final(self).spec_fats_agree(final(dev).spec_sectors()),
    {
        let e = self.entry(dev, cluster_id);
        let r = match e {
            FATEntry::Next(n) => Some(n),
            _ => None,
        };
        let ghost st1 = *self;
        let ghost dev1 = *dev;
        self.set_entry(dev, cluster_id, FATEntry::Free);
        let ghost st2 = *self;
        let ghost dev2 = *dev;
        if let Some(p) = prev {
            self.set_entry(dev, p as usize, FATEntry::End);
        }
        let ghost st3 = *self;
        let ghost dev3 = *dev;
        if let Some(n) = self.fsinfo.free_clusters() {
            let total = self.bpb.total_clusters();
            if n < total {
                self.fsinfo.set_free_cluster_count(Some(n + 1));
            } else {
                self.fsinfo.set_free_cluster_count(Some(total));
            }
        }
        proof {
            Self::lemma_entry_raw_fsinfo_irrelevant(*self, st3, dev.spec_sectors());
            assert(self.spec_entry(dev.spec_sectors(), cluster_id as int) == FATEntry::Free) by {
                assert(st3.spec_entry_raw(dev3.spec_sectors(), cluster_id as int)
                    == st2.spec_entry_raw(dev2.spec_sectors(), cluster_id as int));
            }
            assert forall|c: int|
                spec_fat_index_ok(old(self).bpb, c) && c != cluster_id && (prev is None || c
                    != prev->0) implies #[trigger] self.spec_entry_raw(dev.spec_sectors(), c)
                == old(self).spec_entry_raw(old(dev).spec_sectors(), c) by {
                assert(st1.spec_entry_raw(dev1.spec_sectors(), c) == old(self).spec_entry_raw(
                    old(dev).spec_sectors(),
                    c,
                ));
            }
            if old(self).bpb.fats_number == 2 && old(self).spec_fats_agree(
                old(dev).spec_sectors(),
            ) {
                assert(st1.spec_fats_agree(dev1.spec_sectors()));
                assert(st2.spec_fats_agree(dev2.spec_sectors()));
                assert(st3.spec_fats_agree(dev3.spec_sectors()));
                assert forall|c: int| spec_fat_index_ok(old(self).bpb, c) implies
                #[trigger] self.spec_backup_raw(dev.spec_sectors(), c) == self.spec_entry_raw(
                    dev.spec_sectors(),
                    c,
                ) by {
                    assert(self.spec_backup_raw(dev.spec_sectors(), c) == st3.spec_backup_raw(
                        dev3.spec_sectors(),
                        c,
                    ));
                }
            }
        }
        r
    }

    /// Free the whole chain reachable from `first_cluster`; when `prev` is
    /// supplied it becomes the new end of its chain.  Returns how many
    /// clusters were freed.
    pub fn dealloc_clusters<D: BlockDevice>(
        &mut self,
        dev: &mut D,
        first_cluster: usize,
        prev: Option<u32>,
    ) -> (r: usize)
        requires
            old(self).spec_inv(old(dev).spec_sectors()),
            old(self).spec_dev_ok(*old(dev)),
            old(self).spec_chain_wf(old(dev).spec_sectors(), first_cluster as int),
            prev matches Some(p) ==> 2 <= p < old(self).bpb.spec_total_clusters() + 2 && !old(
                self,
            ).spec_chain(old(dev).spec_sectors(), first_cluster as int).contains(p as int),
        ensures
            final(self).spec_inv(final(dev).spec_sectors()),
            final(self).spec_dev_ok(*final(dev)),
            final(self).bpb == old(self).bpb,
            final(dev).spec_sectors().len() == old(dev).spec_sectors().len(),
            final(dev).spec_sector_size() == old(dev).spec_sector_size(),
            forall|s: int|
                old(self).bpb.spec_first_data_sector() <= s < old(dev).spec_sectors().len()
                    ==> final(dev).spec_sectors()[s] == old(dev).spec_sectors()[s],
            r == old(self).spec_chain(old(dev).spec_sectors(), first_cluster as int).len(),
            forall|i: int|
                0 <= i < old(self).spec_chain(old(dev).spec_sectors(), first_cluster as int).len()
                    ==> final(self).spec_entry(
                    final(dev).spec_sectors(),
                    #[trigger] old(self).spec_chain(old(dev).spec_sectors(), first_cluster as int)[
                        i],
                ) == FATEntry::Free,
            prev matches Some(p) ==> final(self).spec_entry(final(dev).spec_sectors(), p as int)
                == FATEntry::End,
            forall|c: int|
                spec_fat_index_ok(old(self).bpb, c) && !old(self).spec_chain(
                    old(dev).spec_sectors(),
                    first_cluster as int,
                ).contains(c) && (prev is None || c != prev->0) ==> #[trigger] final(self).spec_entry_raw(final(dev).spec_sectors(), c) == old(self).spec_entry_raw(
                    old(dev).spec_sectors(),
                    c,
                ),
            final(self).fsinfo.next_free_cluster == old(self).fsinfo.next_free_cluster,
            final(self).fsinfo.free_cluster_count == match old(self).fsinfo.free_cluster_count {
                Some(n) => Some(
                    (if n + r < old(self).bpb.spec_total_clusters() {
                        (n + r) as u32
                    } else {
                        (old(self).bpb.spec_total_clusters() as u32)
                    }),
                ),
                None => None::<u32>,
            },
            old(self).bpb.fats_number == 2 && old(self).spec_fats_agree(old(dev).spec_sectors())
                ==> final(self).spec_fats_agree(final(dev).spec_sectors()),
    {
        let ghost ch = old(self).spec_chain(old(dev).spec_sectors(), first_cluster as int);
        let ids = self.all_clusters(dev, first_cluster);
        let ghost st1 = *self;
        let ghost dev1 = *dev;
        let num = ids.len();
        let mut i: usize = 0;
        while i < num
            invariant
                num == ids@.len(),
                num == ch.len(),
                ch == old(self).spec_chain(old(dev).spec_sectors(), first_cluster as int),
                forall|j: int| 0 <= j < num ==> #[trigger] ids@[j] == ch[j],
                forall|j: int| 0 <= j < num ==> 2 <= #[trigger] ch[j] < old(self).bpb.spec_total_clusters() + 2,
                0 <= i <= num,
                self.spec_inv(dev.spec_sectors()),
                self.spec_dev_ok(*dev),
                self.bpb == old(self).bpb,
                self.fsinfo == old(self).fsinfo,
                dev.spec_sectors().len() == old(dev).spec_sectors().len(),
                dev.spec_sector_size() == old(dev).spec_sector_size(),
                forall|s: int|
                    old(self).bpb.spec_first_data_sector() <= s < old(dev).spec_sectors().len()
                        ==> dev.spec_sectors()[s] == old(dev).spec_sectors()[s],
                forall|j: int|
                    0 <= j < i ==> self.spec_entry(dev.spec_sectors(), #[trigger] ch[j])
                        == FATEntry::Free,
                forall|c: int|
                    spec_fat_index_ok(old(self).bpb, c) && !ch.contains(c)
                        ==> #[trigger] self.spec_entry_raw(dev.spec_sectors(), c) == old(
                        self,
                    ).spec_entry_raw(old(dev).spec_sectors(), c),
                old(self).bpb.fats_number == 2 && old(self).spec_fats_agree(
                    old(dev).spec_sectors(),
                ) ==> self.spec_fats_agree(dev.spec_sectors()),
            decreases num - i,
        {
            let ghost stp = *self;
            let ghost devp = *dev;
            self.set_free(dev, ids[i]);
            proof {
                assert(ch.contains(ch[i as int]));
                assert forall|j: int|
                    0 <= j < i + 1 implies self.spec_entry(dev.spec_sectors(), #[trigger] ch[j])
                    == FATEntry::Free by {
                    if j < i && ch[j] != ch[i as int] {
                        assert(self.spec_entry_raw(dev.spec_sectors(), ch[j])
                            == stp.spec_entry_raw(devp.spec_sectors(), ch[j]));
                    }
                }
            }
            i = i + 1;
        }
        let ghost st2 = *self;
        let ghost dev2 = *dev;
        if let Some(p) = prev {
            self.set_end(dev, p as usize);
            proof {
                assert forall|j: int|
                    0 <= j < num implies self.spec_entry(dev.spec_sectors(), #[trigger] ch[j])
                    == FATEntry::Free by {
                    assert(ch.contains(ch[j]));
                    assert(ch[j] != p);
                    assert(self.spec_entry_raw(dev.spec_sectors(), ch[j]) == st2.spec_entry_raw(
                        dev2.spec_sectors(),
                        ch[j],
                    ));
                }
            }
        }
        let ghost st3 = *self;
        let ghost dev3 = *dev;
        if let Some(n) = self.fsinfo.free_clusters() {
            let total = self.bpb.total_clusters();
            let cnt: u32 = num as u32;
            proof {
                old(self).lemma_chain_structure(
                    old(dev).spec_sectors(),
                    first_cluster as int,
                    (old(self).bpb.spec_total_clusters() + 1) as nat,
                );
            }
            if n < total && cnt < total - n {
                self.fsinfo.set_free_cluster_count(Some(n + cnt));
            } else {
                self.fsinfo.set_free_cluster_count(Some(total));
            }
        }
        proof {
            Self::lemma_entry_raw_fsinfo_irrelevant(*self, st3, dev.spec_sectors());
        }
        num
    }

    /// A run of entries where each id links to the next and the last is
    /// `End` is exactly the chain of its first id.
    pub proof fn lemma_chain_of_links(self, disk: Seq<Seq<u8>>, ids: Seq<int>, i: int, fuel: nat)
        requires
            0 <= i < ids.len(),
            fuel >= ids.len() - i,
            forall|j: int|
                0 <= j < ids.len() - 1 ==> self.spec_links_to(disk, #[trigger] ids[j], ids[j + 1]),
            self.spec_entry(disk, ids.last()) == FATEntry::End,
        ensures
            self.spec_chain_from(disk, ids[i], fuel) == ids.skip(i),
        decreases ids.len() - i,
    {
        reveal_with_fuel(FATManager::spec_chain_from, 2);
        if i == ids.len() - 1 {
            assert(self.spec_chain_from(disk, ids[i], fuel) =~= ids.skip(i));
        } else {
            assert(self.spec_links_to(disk, ids[i], ids[i + 1]));
            self.lemma_chain_of_links(disk, ids, i + 1, (fuel - 1) as nat);
            assert(self.spec_chain_from(disk, ids[i], fuel) =~= seq![ids[i]]
                + self.spec_chain_from(disk, ids[i + 1], (fuel - 1) as nat));
            assert(seq![ids[i]] + ids.skip(i + 1) =~= ids.skip(i));
        }
    }

    /// Allocate `num` clusters linked into one fresh chain ending in `End`,
    /// all or nothing: when fewer than `num` clusters are free, nothing
    /// changes and `None` comes back.  When `prev` currently ends a chain
    /// it is linked to the first new cluster.
    pub fn alloc_clusters<D: BlockDevice>(&mut self, dev: &mut D, num: usize, prev: Option<u32>)
        -> (r: Option<u32>)
        requires
            old(self).spec_inv(old(dev).spec_sectors()),
            old(self).spec_dev_ok(*old(dev)),
            prev matches Some(p) ==> 2 <= p < old(self).bpb.spec_total_clusters() + 2,
        ensures
            final(self).spec_inv(final(dev).spec_sectors()),
            final(self).spec_dev_ok(*final(dev)),
            final(self).bpb == old(self).bpb,
            final(dev).spec_sectors().len() == old(dev).spec_sectors().len(),
            final(dev).spec_sector_size() == old(dev).spec_sector_size(),
            forall|s: int|
                old(self).bpb.spec_first_data_sector() <= s < old(dev).spec_sectors().len()
                    ==> final(dev).spec_sectors()[s] == old(dev).spec_sectors()[s],
            r is None <==> (num == 0 || old(self).spec_count_free(old(dev).spec_sectors()) < num),
            r is None ==> final(self).spec_frame(*old(self), *final(dev), *old(dev)),
            r matches Some(first) ==> {
                &&& 2 <= first < old(self).bpb.spec_total_clusters() + 2
                &&& final(self).spec_chain_wf(final(dev).spec_sectors(), first as int)
                &&& final(self).spec_chain(final(dev).spec_sectors(), first as int).len() == num
                &&& forall|i: int|
                    0 <= i < num ==> old(self).spec_entry_low(
                        old(dev).spec_sectors(),
                        #[trigger] final(self).spec_chain(final(dev).spec_sectors(), first as int)[
                            i],
                    ) == 0
                &&& (prev matches Some(p) ==> (old(self).spec_entry(
                    old(dev).spec_sectors(),
                    p as int,
                ) == FATEntry::End ==> final(self).spec_entry(final(dev).spec_sectors(), p as int)
                    == FATEntry::Next(first)))
                &&& forall|c: int|
                    spec_fat_index_ok(old(self).bpb, c) && !final(self).spec_chain(
                        final(dev).spec_sectors(),
                        first as int,
                    ).contains(c) && (prev is None || c != prev->0)
                        ==> #[trigger] final(self).spec_entry_raw(final(dev).spec_sectors(), c)
                        == old(self).spec_entry_raw(old(dev).spec_sectors(), c)
            },
            old(self).bpb.fats_number == 2 && old(self).spec_fats_agree(old(dev).spec_sectors())
                ==> final(self).spec_fats_agree(final(dev).spec_sectors()),
    {
        if num == 0 {
            proof {
                self.lemma_frame_refl(*dev);
            }
            return None;
        }
        let end: usize = self.bpb.total_clusters() as usize + 2;
        // collect `num` free cluster ids, in ascending order
        let mut ids: Vec<usize> = Vec::new();
        let mut cluster_id: usize = 2;
        proof {
            self.lemma_frame_refl(*dev);
        }
        while cluster_id < end && ids.len() < num
            invariant
                num > 0,
                end == old(self).bpb.spec_total_clusters() + 2,
                2 <= cluster_id <= end,
                self.spec_frame(*old(self), *dev, *old(dev)),
                ids@.len() <= num,
                ids@.len() == old(self).spec_count_free_upto(
                    old(dev).spec_sectors(),
                    cluster_id as int,
                ) || (ids@.len() == num && ids@.len() <= old(self).spec_count_free_upto(
                    old(dev).spec_sectors(),
                    cluster_id as int,
                )),
                forall|j: int| 0 <= j < ids@.len() ==> 2 <= #[trigger] ids@[j] < cluster_id,
                forall|j1: int, j2: int|
                    0 <= j1 < j2 < ids@.len() ==> #[trigger] ids@[j1] < #[trigger] ids@[j2],
                forall|j: int|
                    0 <= j < ids@.len() ==> old(self).spec_entry_low(
                        old(dev).spec_sectors(),
                        #[trigger] ids@[j] as int,
                    ) == 0,
            decreases end - cluster_id,
        {
            let ghost mid = *self;
            let ghost middev = *dev;
            let e = self.entry(dev, cluster_id);
            proof {
                self.lemma_frame_trans(mid, *old(self), *dev, middev, *old(dev));
                assert(mid.spec_entry_raw(middev.spec_sectors(), cluster_id as int) == old(
                    self,
                ).spec_entry_raw(old(dev).spec_sectors(), cluster_id as int));
            }
            if matches!(e, FATEntry::Free) {
                ids.push(cluster_id);
            }
            cluster_id = cluster_id + 1;
        }
        if ids.len() < num {
            proof {
                assert(cluster_id == end);
                old(self).lemma_count_free_bound(old(dev).spec_sectors(), end as int);
                assert(old(self).spec_count_free(old(dev).spec_sectors()) < num);
            }
            return None;
        }
        proof {
            old(self).lemma_count_free_bound(old(dev).spec_sectors(), end as int);
            Self::lemma_count_free_monotone(
                *old(self),
                old(dev).spec_sectors(),
                cluster_id as int,
                end as int,
            );
            assert(old(self).spec_count_free(old(dev).spec_sectors()) >= num);
        }
        let ghost collected = *self;
        let ghost devc = *dev;
        let ghost gids = ids@.map_values(|x: usize| x as int);
        // remember whether prev currently ends a chain, before any write
        let mut link_prev = false;
        let ghost stq = *self;
        let ghost devq = *dev;
        if let Some(p) = prev {
            let pe = self.entry(dev, p as usize);
            link_prev = matches!(pe, FATEntry::End);
            proof {
                self.lemma_frame_trans(stq, *old(self), *dev, devq, *old(dev));
                assert(stq.spec_entry_raw(devq.spec_sectors(), p as int) == old(
                    self,
                ).spec_entry_raw(old(dev).spec_sectors(), p as int));
                assert(link_prev == (old(self).spec_entry(old(dev).spec_sectors(), p as int)
                    == FATEntry::End));
                if link_prev {
                    assert(!gids.contains(p as int)) by {
                        if gids.contains(p as int) {
                            let j = choose|j: int|
                                0 <= j < gids.len() && gids[j] == p as int;
                            assert(old(self).spec_entry_low(
                                old(dev).spec_sectors(),
                                ids@[j] as int,
                            ) == 0);
                        }
                    }
                }
            }
        }
        // link the run: each id points at the next, the last one ends
        let mut i: usize = 0;
        while i < num
            invariant
                num > 0,
                ids@.len() == num,
                gids == ids@.map_values(|x: usize| x as int),
                gids.len() == num,
                forall|j: int| 0 <= j < num ==> 2 <= #[trigger] gids[j] < old(self).bpb.spec_total_clusters() + 2,
                forall|j1: int, j2: int|
                    0 <= j1 < j2 < num ==> #[trigger] gids[j1] < #[trigger] gids[j2],
                forall|j: int|
                    0 <= j < num ==> old(self).spec_entry_low(
                        old(dev).spec_sectors(),
                        #[trigger] gids[j],
                    ) == 0,
                0 <= i <= num,
                self.spec_inv(dev.spec_sectors()),
                self.spec_dev_ok(*dev),
                self.bpb == old(self).bpb,
                self.fsinfo == old(self).fsinfo,
                dev.spec_sectors().len() == old(dev).spec_sectors().len(),
                dev.spec_sector_size() == old(dev).spec_sector_size(),
                forall|s: int|
                    old(self).bpb.spec_first_data_sector() <= s < old(dev).spec_sectors().len()
                        ==> dev.spec_sectors()[s] == old(dev).spec_sectors()[s],
                forall|j: int|
                    0 <= j < i ==> self.spec_entry(dev.spec_sectors(), #[trigger] gids[j]) == (
                    if j < num - 1 {
                        FATEntry::Next((gids[j + 1] as u32))
                    } else {
                        FATEntry::End
                    }),
                forall|c: int|
                    spec_fat_index_ok(old(self).bpb, c) && !gids.contains(c)
                        ==> #[trigger] self.spec_entry_raw(dev.spec_sectors(), c) == old(
                        self,
                    ).spec_entry_raw(old(dev).spec_sectors(), c),
                old(self).bpb.fats_number == 2 && old(self).spec_fats_agree(
                    old(dev).spec_sectors(),
                ) ==> self.spec_fats_agree(dev.spec_sectors()),
            decreases num - i,
        {
            let ghost stp = *self;
            let ghost devp = *dev;
            proof {
                assert(gids[i as int] == ids@[i as int] as int);
                if i + 1 < num {
                    assert(gids[i as int + 1] == ids@[i as int + 1] as int);
                }
            }
            let target: FATEntry = if i + 1 < num {
                FATEntry::Next(ids[i + 1] as u32)
            } else {
                FATEntry::End
            };
            self.set_entry(dev, ids[i], target);
            proof {
                assert(gids.contains(gids[i as int]));
                assert forall|j: int|
                    0 <= j < i + 1 implies self.spec_entry(dev.spec_sectors(), #[trigger] gids[j])
                    == (if j < num - 1 {
                    FATEntry::Next((gids[j + 1] as u32))
                } else {
                    FATEntry::End
                }) by {
                    if j < i {
                        assert(gids[j] != gids[i as int]);
                        assert(self.spec_entry_raw(dev.spec_sectors(), gids[j])
                            == stp.spec_entry_raw(devp.spec_sectors(), gids[j]));
                    }
                }
            }
            i = i + 1;
        }
        let ghost st2 = *self;
        let ghost dev2 = *dev;
        let first = ids[0] as u32;
        if link_prev {
            let p = prev.unwrap();
            proof {
                assert(!gids.contains(p as int));
            }
            self.set_entry(dev, p as usize, FATEntry::Next(first));
            proof {
                assert forall|j: int|
                    0 <= j < num implies self.spec_entry(dev.spec_sectors(), #[trigger] gids[j])
                    == (if j < num - 1 {
                    FATEntry::Next((gids[j + 1] as u32))
                } else {
                    FATEntry::End
                }) by {
                    assert(gids.contains(gids[j]));
                    assert(gids[j] != p as int);
                    assert(self.spec_entry_raw(dev.spec_sectors(), gids[j]) == st2.spec_entry_raw(
                        dev2.spec_sectors(),
                        gids[j],
                    ));
                }
            }
        }
        let ghost st3 = *self;
        let ghost dev3 = *dev;
        if let Some(n) = self.fsinfo.free_clusters() {
            let cnt: u32 = num as u32;
            if n >= cnt {
                self.fsinfo.set_free_cluster_count(Some(n - cnt));
            } else {
                self.fsinfo.set_free_cluster_count(Some(0));
            }
        }
        proof {
            Self::lemma_entry_raw_fsinfo_irrelevant(*self, st3, dev.spec_sectors());
            assert forall|j: int|
                0 <= j < num implies self.spec_entry(dev.spec_sectors(), #[trigger] gids[j]) == (
            if j < num - 1 {
                FATEntry::Next((gids[j + 1] as u32))
            } else {
                FATEntry::End
            }) by {
                assert(self.spec_entry_raw(dev.spec_sectors(), gids[j]) == st3.spec_entry_raw(
                    dev3.spec_sectors(),
                    gids[j],
                ));
            }
            assert forall|j: int|
                0 <= j < num - 1 implies self.spec_links_to(
                dev.spec_sectors(),
                #[trigger] gids[j],
                gids[j + 1],
            ) by {}
            assert(self.spec_entry(dev.spec_sectors(), gids.last()) == FATEntry::End);
            self.lemma_chain_of_links(
                dev.spec_sectors(),
                gids,
                0,
                (self.bpb.spec_total_clusters() + 1) as nat,
            );
            assert(self.spec_chain(dev.spec_sectors(), first as int) =~= gids);
            assert(self.spec_chain_wf(dev.spec_sectors(), first as int));
            if prev is Some {
                let p = prev->0;
                if old(self).spec_entry(old(dev).spec_sectors(), p as int) == FATEntry::End {
                    assert(self.spec_entry(dev.spec_sectors(), p as int) == FATEntry::Next(first))
                        by {
                        assert(self.spec_entry_raw(dev.spec_sectors(), p as int)
                            == st3.spec_entry_raw(dev3.spec_sectors(), p as int));
                    }
                }
            }
            assert forall|c: int|
                spec_fat_index_ok(old(self).bpb, c) && !self.spec_chain(
                    dev.spec_sectors(),
                    first as int,
                ).contains(c) && (prev is None || c != prev->0) implies
            #[trigger] self.spec_entry_raw(dev.spec_sectors(), c) == old(self).spec_entry_raw(
                old(dev).spec_sectors(),
                c,
            ) by {
                assert(!gids.contains(c));
                assert(self.spec_entry_raw(dev.spec_sectors(), c) == st3.spec_entry_raw(
                    dev3.spec_sectors(),
                    c,
                ));
                assert(st3.spec_entry_raw(dev3.spec_sectors(), c) == st2.spec_entry_raw(
                    dev2.spec_sectors(),
                    c,
                ));
            }
        }
        Some(first)
    }

    /// The free count only grows with the upper bound of its range.
    proof fn lemma_count_free_monotone(m: FATManager, disk: Seq<Seq<u8>>, a: int, b: int)
        requires
            a <= b,
        ensures
            m.spec_count_free_upto(disk, a) <= m.spec_count_free_upto(disk, b),
        decreases b,
    {
        if b > 2 && a < b {
            Self::lemma_count_free_monotone(m, disk, a, b - 1);
            m.lemma_count_free_bound(disk, b - 1);
        } else {
            m.lemma_count_free_bound(disk, a);
            m.lemma_count_free_bound(disk, b);
        }
    }

    /// Two states whose entries agree over the mapped range produce the
    /// same chain, as long as that chain stays inside the data region.
    pub proof fn lemma_chain_congruence(
        a: FATManager,
        diska: Seq<Seq<u8>>,
        b: FATManager,
        diskb: Seq<Seq<u8>>,
        c: int,
        fuel: nat,
    )
        requires
            a.bpb == b.bpb,
            forall|cc: int|
                spec_fat_index_ok(a.bpb, cc) ==> #[trigger] a.spec_entry_low(diska, cc)
                    == b.spec_entry_low(diskb, cc),
            forall|i: int|
                0 <= i < b.spec_chain_from(diskb, c, fuel).len() ==> 2 <= #[trigger] b.spec_chain_from(diskb, c, fuel)[i] && b.spec_chain_from(diskb, c, fuel)[i] < a.bpb.spec_total_clusters() + 2,
        ensures
            a.spec_chain_from(diska, c, fuel) == b.spec_chain_from(diskb, c, fuel),
        decreases fuel,
    {
        reveal_with_fuel(FATManager::spec_chain_from, 2);
        if fuel > 0 {
            let bch = b.spec_chain_from(diskb, c, fuel);
            assert(bch[0] == c);
            assert(spec_fat_index_ok(a.bpb, c));
            assert(a.spec_entry(diska, c) == b.spec_entry(diskb, c));
            match b.spec_entry(diskb, c) {
                FATEntry::Next(n) => {
                    let btail = b.spec_chain_from(diskb, n as int, (fuel - 1) as nat);
                    assert(bch == seq![c] + btail);
                    assert forall|i: int|
                        0 <= i < btail.len() implies 2 <= #[trigger] btail[i] && btail[i]
                        < a.bpb.spec_total_clusters() + 2 by {
                        assert(bch[i + 1] == btail[i]);
                    }
                    Self::lemma_chain_congruence(a, diska, b, diskb, n as int, (fuel - 1) as nat);
                },
                _ => {},
            }
        }
    }

    /// Chain well-formedness carries across two states whose entries agree
    /// over the mapped range.
    pub proof fn lemma_chain_wf_congruence(
        a: FATManager,
        diska: Seq<Seq<u8>>,
        b: FATManager,
        diskb: Seq<Seq<u8>>,
        c: int,
    )
        requires
            a.bpb == b.bpb,
            forall|cc: int|
                spec_fat_index_ok(a.bpb, cc) ==> #[trigger] a.spec_entry_low(diska, cc)
                    == b.spec_entry_low(diskb, cc),
            b.spec_chain_wf(diskb, c),
        ensures
            a.spec_chain_wf(diska, c),
            a.spec_chain(diska, c) == b.spec_chain(diskb, c),
    {
        b.lemma_chain_structure(diskb, c, (b.bpb.spec_total_clusters() + 1) as nat);
        Self::lemma_chain_congruence(
            a,
            diska,
            b,
            diskb,
            c,
            (b.bpb.spec_total_clusters() + 1) as nat,
        );
        let ch = b.spec_chain(diskb, c);
        assert(0 <= ch.len() - 1 < ch.len());
        assert(spec_fat_index_ok(a.bpb, ch.last()));
        assert(a.spec_entry(diska, ch.last()) == b.spec_entry(diskb, ch.last()));
    }

    /// FAT-copy agreement carries across a frame-preserving operation.
    pub proof fn lemma_agree_from_frame<D: BlockDevice>(
        a: FATManager,
        b: FATManager,
        deva: D,
        devb: D,
    )
        requires
            a.spec_frame(b, deva, devb),
            b.bpb.fats_number == 2,
            b.spec_fats_agree(devb.spec_sectors()),
        ensures
            a.spec_fats_agree(deva.spec_sectors()),
    {
        assert forall|c: int| spec_fat_index_ok(a.bpb, c) implies #[trigger] a.spec_backup_raw(
            deva.spec_sectors(),
            c,
        ) == a.spec_entry_raw(deva.spec_sectors(), c) by {
            assert(a.spec_entry_raw(deva.spec_sectors(), c) == b.spec_entry_raw(
                devb.spec_sectors(),
                c,
            ));
            assert(a.spec_backup_raw(deva.spec_sectors(), c) == b.spec_backup_raw(
                devb.spec_sectors(),
                c,
            ));
        }
    }

    /// A well-formed chain never repeats a cluster.
    pub proof fn lemma_chain_distinct(self, disk: Seq<Seq<u8>>, start: int)
        requires
            self.spec_chain_wf(disk, start),
        ensures
            forall|i: int, j: int|
                0 <= i < j < self.spec_chain(disk, start).len() ==> #[trigger] self.spec_chain(
                    disk,
                    start,
                )[i] != #[trigger] self.spec_chain(disk, start)[j],
    {
        let ch = self.spec_chain(disk, start);
        let fuel = (self.bpb.spec_total_clusters() + 1) as nat;
        self.lemma_chain_structure(disk, start, fuel);
        assert forall|i: int, j: int| 0 <= i < j < ch.len() implies #[trigger] ch[i]
            != #[trigger] ch[j] by {
            if ch[i] == ch[j] {
                self.lemma_chain_of_links(disk, ch, i, fuel);
                self.lemma_chain_of_links(disk, ch, j, fuel);
                assert(self.spec_chain_from(disk, ch[i], fuel) == ch.skip(i));
                assert(self.spec_chain_from(disk, ch[j], fuel) == ch.skip(j));
                assert(ch.skip(i).len() == ch.skip(j).len());
            }
        }
    }

    /// Pairwise-distinct ids drawn from `[lo, hi)` cannot outnumber the
    /// range.
    pub proof fn lemma_distinct_in_range_len(ids: Seq<int>, lo: int, hi: int)
        requires
            lo <= hi,
            forall|i: int, j: int| 0 <= i < j < ids.len() ==> ids[i] != ids[j],
            forall|i: int| 0 <= i < ids.len() ==> lo <= #[trigger] ids[i] < hi,
        ensures
            ids.len() <= hi - lo,
    {
        assert(ids.no_duplicates());
        ids.unique_seq_to_set();
        assert(ids.to_set().subset_of(vstd::set_lib::set_int_range(lo, hi))) by {
            assert forall|x: int| ids.to_set().contains(x) implies vstd::set_lib::set_int_range(
                lo,
                hi,
            ).contains(x) by {
                assert(ids.contains(x));
                let i = choose|i: int| 0 <= i < ids.len() && ids[i] == x;
                assert(lo <= ids[i] < hi);
            }
        }
        vstd::set_lib::lemma_int_range(lo, hi);
        vstd::set_lib::lemma_len_subset(
            ids.to_set(),
            vstd::set_lib::set_int_range(lo, hi),
        );
    }

    /// A chain whose last entry was relinked to a fresh well-formed run
    /// becomes the concatenation of the two.
    pub proof fn lemma_chain_append(
        self,
        disk: Seq<Seq<u8>>,
        old_ch: Seq<int>,
        fresh_ch: Seq<int>,
    )
        requires
            old_ch.len() >= 1,
            fresh_ch.len() >= 1,
            forall|j: int|
                0 <= j < old_ch.len() - 1 ==> self.spec_links_to(
                    disk,
                    #[trigger] old_ch[j],
                    old_ch[j + 1],
                ),
            self.spec_links_to(disk, old_ch.last(), fresh_ch[0]),
            forall|j: int|
                0 <= j < fresh_ch.len() - 1 ==> self.spec_links_to(
                    disk,
                    #[trigger] fresh_ch[j],
                    fresh_ch[j + 1],
                ),
            self.spec_entry(disk, fresh_ch.last()) == FATEntry::End,
            forall|i: int|
                0 <= i < old_ch.len() ==> 2 <= #[trigger] old_ch[i]
                    && old_ch[i] < self.bpb.spec_total_clusters() + 2,
            forall|i: int|
                0 <= i < fresh_ch.len() ==> 2 <= #[trigger] fresh_ch[i]
                    && fresh_ch[i] < self.bpb.spec_total_clusters() + 2,
            forall|i: int, j: int|
                0 <= i < j < old_ch.len() + fresh_ch.len() ==> (old_ch + fresh_ch)[i] != (old_ch
                    + fresh_ch)[j],
        ensures
            self.spec_chain(disk, old_ch[0]) == old_ch + fresh_ch,
            self.spec_chain_wf(disk, old_ch[0]),
    {
        let combined = old_ch + fresh_ch;
        let n1 = old_ch.len() as int;
        let n2 = fresh_ch.len() as int;
        assert forall|j: int| 0 <= j < combined.len() - 1 implies self.spec_links_to(
            disk,
            #[trigger] combined[j],
            combined[j + 1],
        ) by {
            if j < n1 - 1 {
                assert(combined[j] == old_ch[j] && combined[j + 1] == old_ch[j + 1]);
            } else if j == n1 - 1 {
                assert(combined[j] == old_ch.last() && combined[j + 1] == fresh_ch[0]);
            } else {
                assert(combined[j] == fresh_ch[j - n1] && combined[j + 1] == fresh_ch[j + 1 - n1]);
            }
        }
        assert(combined.last() == fresh_ch.last());
        assert forall|i: int| 0 <= i < combined.len() implies 2 <= #[trigger] combined[i]
            && combined[i] < self.bpb.spec_total_clusters() + 2 by {
            if i < n1 {
                assert(combined[i] == old_ch[i]);
            } else {
                assert(combined[i] == fresh_ch[i - n1]);
            }
        }
        Self::lemma_distinct_in_range_len(combined, 2, self.bpb.spec_total_clusters() + 2);
        self.lemma_chain_of_links(
            disk,
            combined,
            0,
            (self.bpb.spec_total_clusters() + 1) as nat,
        );
        assert(self.spec_chain(disk, old_ch[0]) == combined.skip(0));
        assert(combined.skip(0) =~= combined);
        assert(self.spec_entry(disk, self.spec_chain(disk, old_ch[0]).last()) == FATEntry::End);
    }
}

/// Every reserved cluster id in 0x0FFFFFF7..=0x0FFFFFFF decodes to `Bad`,
/// whatever word the table stores for it.
pub proof fn lemma_reserved_ids_decode_bad(c: int, low: u32)
    requires
        0x0FFFFFF7 <= c <= 0x0FFFFFFF,
    ensures
        spec_decode_entry(c, low) == FATEntry::Bad,
{
}

} // verus!
