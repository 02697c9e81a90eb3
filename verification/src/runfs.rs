//! The mounted filesystem: it owns the block device, the FAT manager and
//! the data manager, validates the on-disk structures at mount and exposes
//! allocation that hands out zero-filled clusters.

use vstd::prelude::*;
use crate::block_device::BlockDevice;
use crate::cluster_cache::{spec_cluster_disk, spec_cluster_in_range};
use crate::dir_entry::le32_at;
use crate::fat::{spec_backup_fat_sector, spec_fat_offset, spec_fat_sector};
use crate::data::DataManager;
use crate::dir_entry::{FileAttributes, ShortDirectoryEntry};
use crate::error::FSError;
use crate::fat::{spec_fat_index_ok, FATEntry, FATManager};
use crate::fat32::{BiosParameterBlock, BootSector};
use crate::fsinfo::{FSInfo, FSInfoSector};

verus! {

/// A mounted FAT32 volume over the block device `D`.
pub struct RunFileSystem<D: BlockDevice> {
    pub bpb: BiosParameterBlock,
    pub device: D,
    pub fat_manager: FATManager,
    pub data_manager: DataManager,
}

impl<D: BlockDevice> RunFileSystem<D> {
    /// The filesystem is in a consistent state.
    pub open spec fn spec_inv(self) -> bool {
        &&& self.bpb.spec_valid()
        &&& self.fat_manager.bpb == self.bpb
        &&& self.data_manager.cluster_cache.bpb == self.bpb
        &&& self.device.inv()
        &&& self.device.spec_sector_size() == self.bpb.bytes_per_sector as nat
        &&& self.fat_manager.spec_inv(self.device.spec_sectors())
        &&& self.data_manager.spec_inv(self.device.spec_sectors())
        &&& self.data_manager.root_dirent.spec_first_cluster() == self.bpb.root_dir_cluster
        &&& self.data_manager.root_dirent.spec_is_dir()
    }

    /// The decoded FAT entry of cluster `c`.
    pub open spec fn spec_fat_entry(self, c: int) -> FATEntry {
        self.fat_manager.spec_entry(self.device.spec_sectors(), c)
    }

    /// The low 28 stored bits of cluster `c`'s entry.
    pub open spec fn spec_fat_entry_low(self, c: int) -> u32 {
        self.fat_manager.spec_entry_low(self.device.spec_sectors(), c)
    }

    /// The current bytes of data cluster `c`.
    pub open spec fn spec_cluster_view(self, c: int) -> Seq<u8> {
        self.data_manager.spec_cluster_view(self.device.spec_sectors(), c)
    }

    /// The cluster chain starting at `c`.
    pub open spec fn spec_chain(self, c: int) -> Seq<int> {
        self.fat_manager.spec_chain(self.device.spec_sectors(), c)
    }

    /// The chain starting at `c` stays in the data region and ends at an
    /// `End` entry.
    pub open spec fn spec_chain_wf(self, c: int) -> bool {
        self.fat_manager.spec_chain_wf(self.device.spec_sectors(), c)
    }

    /// Nothing observable changed.
    pub open spec fn spec_frame(self, pre: RunFileSystem<D>) -> bool {
        &&& self.spec_inv()
        &&& self.bpb == pre.bpb
        &&& self.data_manager.root_dirent == pre.data_manager.root_dirent
        &&& self.fat_manager.fsinfo == pre.fat_manager.fsinfo
        &&& forall|c: int|
            spec_fat_index_ok(pre.bpb, c) ==> #[trigger] self.spec_fat_entry_low(c)
                == pre.spec_fat_entry_low(c)
        &&& forall|c: int|
            spec_cluster_in_range(pre.bpb, c) ==> #[trigger] self.spec_cluster_view(c)
                == pre.spec_cluster_view(c)
    }

    /// After a FAT-side operation, every cluster view survives, because
    /// the data region of the device was untouched.
    pub proof fn lemma_data_stable(self, pre: RunFileSystem<D>)
        requires
            pre.spec_inv(),
            self.bpb == pre.bpb,
            self.data_manager.cluster_cache == pre.data_manager.cluster_cache,
            self.device.inv(),
            self.device.spec_sector_size() == pre.device.spec_sector_size(),
            self.device.spec_sectors().len() == pre.device.spec_sectors().len(),
            forall|s: int|
                pre.bpb.spec_first_data_sector() <= s < pre.device.spec_sectors().len()
                    ==> self.device.spec_sectors()[s] == pre.device.spec_sectors()[s],
        ensures
            self.data_manager.spec_inv(self.device.spec_sectors()),
            forall|c: int|
                spec_cluster_in_range(pre.bpb, c) ==> #[trigger] self.spec_cluster_view(c)
                    == pre.spec_cluster_view(c),
    {
        pre.data_manager.cluster_cache.lemma_view_stable(
            pre.device.spec_sectors(),
            self.device.spec_sectors(),
        );
    }

    /// After a data-side operation, every FAT entry survives, because the
    /// metadata region of the device was untouched.
    pub proof fn lemma_fat_stable(self, pre: RunFileSystem<D>)
        requires
            pre.spec_inv(),
            self.bpb == pre.bpb,
            self.fat_manager == pre.fat_manager,
            self.device.inv(),
            self.device.spec_sector_size() == pre.device.spec_sector_size(),
            self.device.spec_sectors().len() == pre.device.spec_sectors().len(),
            forall|s: int|
                0 <= s < pre.bpb.spec_first_data_sector() ==> self.device.spec_sectors()[s]
                    == pre.device.spec_sectors()[s],
        ensures
            self.fat_manager.spec_inv(self.device.spec_sectors()),
            forall|c: int|
                spec_fat_index_ok(pre.bpb, c) ==> #[trigger] self.spec_fat_entry_low(c)
                    == pre.spec_fat_entry_low(c),
            forall|c: int|
                spec_fat_index_ok(pre.bpb, c) ==> #[trigger] self.fat_manager.spec_entry_raw(
                    self.device.spec_sectors(),
                    c,
                ) == pre.fat_manager.spec_entry_raw(pre.device.spec_sectors(), c),
            pre.bpb.fats_number == 2 ==> forall|c: int|
                spec_fat_index_ok(pre.bpb, c) ==> #[trigger] self.fat_manager.spec_backup_raw(
                    self.device.spec_sectors(),
                    c,
                ) == pre.fat_manager.spec_backup_raw(pre.device.spec_sectors(), c),
    {
        pre.fat_manager.sector_cache.lemma_view_stable(
            pre.device.spec_sectors(),
            self.device.spec_sectors(),
        );
        assert(pre.fat_manager.sector_cache.limit_sector == pre.bpb.spec_first_data_sector());
        reveal(FATManager::spec_entry_raw);
        reveal(FATManager::spec_backup_raw);
        assert forall|c: int| spec_fat_index_ok(pre.bpb, c) implies
        #[trigger] self.fat_manager.spec_entry_raw(self.device.spec_sectors(), c)
            == pre.fat_manager.spec_entry_raw(pre.device.spec_sectors(), c) by {
            crate::fat::lemma_fat_pos(pre.bpb, c);
        }
        if pre.bpb.fats_number == 2 {
            assert forall|c: int| spec_fat_index_ok(pre.bpb, c) implies
            #[trigger] self.fat_manager.spec_backup_raw(self.device.spec_sectors(), c)
                == pre.fat_manager.spec_backup_raw(pre.device.spec_sectors(), c) by {
                crate::fat::lemma_fat_pos(pre.bpb, c);
            }
        }
    }

    /// Everything a mount checks: the device holds a parsable, valid boot
    /// sector, its geometry matches the device, and the FSInfo sector
    /// carries its three signatures.
    pub open spec fn spec_mountable(device: D) -> bool {
        &&& device.spec_sectors().len() >= 1
        &&& device.spec_sector_size() >= 512
        &&& BiosParameterBlock::spec_parse(device.spec_sectors()[0]).spec_valid()
        &&& device.spec_sector_size() == BiosParameterBlock::spec_parse(
            device.spec_sectors()[0],
        ).bytes_per_sector as nat
        &&& device.spec_sectors().len() >= BiosParameterBlock::spec_parse(
            device.spec_sectors()[0],
        ).total_sectors as int
        &&& FSInfoSector::spec_parse(
            device.spec_sectors()[BiosParameterBlock::spec_parse(
                device.spec_sectors()[0],
            ).fsinfo_sector_number as int],
        ).spec_valid()
    }

    /// Mount the volume: read and validate the boot sector and the FSInfo
    /// sector, synthesize the root directory entry and recompute the
    /// free-cluster count.  Succeeds exactly on a mountable device.
    #[verifier::rlimit(100)]
    pub fn new(device: D) -> (r: Result<Self, FSError>)
        requires
            device.inv(),
        ensures
            r is Ok <==> Self::spec_mountable(device),
            r matches Ok(fs) ==> {
                &&& fs.spec_inv()
                &&& fs.bpb == BiosParameterBlock::spec_parse(device.spec_sectors()[0])
                &&& fs.device.spec_sectors().len() == device.spec_sectors().len()
                &&& forall|s: int|
                    fs.bpb.spec_first_data_sector() <= s < device.spec_sectors().len()
                        ==> fs.device.spec_sectors()[s] == device.spec_sectors()[s]
                &&& fs.data_manager.root_dirent.spec_first_cluster() == fs.bpb.root_dir_cluster
                &&& fs.data_manager.root_dirent.spec_is_dir()
                &&& fs.fat_manager.fsinfo.free_cluster_count is Some
            },
            r is Err ==> r->Err_0 == FSError::CorruptedFileSystem,
    {
        if device.num_sectors() == 0 || device.sector_size() < 512 {
            return Err(FSError::CorruptedFileSystem);
        }
        let boot_bytes = device.read_block(0);
        proof {
            device.lemma_inv();
        }
        let boot_sector = BootSector::parse(&boot_bytes);
        match boot_sector.validate() {
            Ok(_) => {},
            Err(e) => {
                return Err(e);
            },
        }
        let bpb = boot_sector.bpb;
        if device.sector_size() != bpb.bytes_per_sector() as usize {
            return Err(FSError::CorruptedFileSystem);
        }
        if device.num_sectors() < bpb.total_sectors() as usize {
            return Err(FSError::CorruptedFileSystem);
        }
        let fsinfo_block_id: usize = bpb.fsinfo_sector() as usize;
        proof {
            assert(fsinfo_block_id < bpb.reserved_sectors as int);
            assert(bpb.reserved_sectors as int <= bpb.spec_first_data_sector());
            assert(bpb.spec_first_data_sector() < bpb.total_sectors as int);
        }
        let fsinfo_bytes = device.read_block(fsinfo_block_id);
        let fsinfo_sector = FSInfoSector::parse(&fsinfo_bytes);
        match fsinfo_sector.validate() {
            Ok(_) => {},
            Err(e) => {
                return Err(e);
            },
        }
        let mut fsinfo = FSInfo::new(
            fsinfo_sector.free_clusters_raw(),
            fsinfo_sector.next_free_cluster_raw(),
        );
        fsinfo.validate_and_fix(bpb.total_clusters());
        let root_dirent = ShortDirectoryEntry::new(
            [0x2Fu8, 0x20u8, 0x20u8, 0x20u8, 0x20u8, 0x20u8, 0x20u8, 0x20u8],
            [0x20u8, 0x20u8, 0x20u8],
            FileAttributes::directory(),
            bpb.root_dir_cluster(),
        );
        proof {
            assert((0x10u8 & 0x10u8) == 0x10u8) by (bit_vector);
            assert(root_dirent.spec_is_dir());
        }
        let fs = Self::finish_mount(bpb, fsinfo, root_dirent, device);
        Ok(fs)
    }

    /// Build the managers of a validated volume and recompute the
    /// free-cluster count.
    fn finish_mount(
        bpb: BiosParameterBlock,
        fsinfo: FSInfo,
        root_dirent: ShortDirectoryEntry,
        device: D,
    ) -> (fs: Self)
        requires
            bpb.spec_valid(),
            fsinfo.spec_clamped((bpb.spec_total_clusters() as u32)),
            device.inv(),
            device.spec_sector_size() == bpb.bytes_per_sector as nat,
            device.spec_sectors().len() >= bpb.total_sectors as int,
            root_dirent.spec_first_cluster() == bpb.root_dir_cluster,
            root_dirent.spec_is_dir(),
        ensures
            fs.spec_inv(),
            fs.bpb == bpb,
            fs.data_manager.root_dirent == root_dirent,
            fs.device.spec_sectors().len() == device.spec_sectors().len(),
            forall|s: int|
                bpb.spec_first_data_sector() <= s < device.spec_sectors().len()
                    ==> fs.device.spec_sectors()[s] == device.spec_sectors()[s],
            fs.fat_manager.fsinfo.free_cluster_count is Some,
    {
        let mut fat_manager = FATManager::new(fsinfo, bpb);
        let mut dev = device;
        proof {
            assert(fat_manager.spec_inv(dev.spec_sectors()));
        }
        fat_manager.recalculate_fsinfo(&mut dev);
        let data_manager = DataManager::new(bpb, root_dirent);
        let fs = RunFileSystem { bpb, device: dev, fat_manager, data_manager };
        proof {
            assert(fs.data_manager.spec_inv(fs.device.spec_sectors()));
        }
        fs
    }

    /// The volume id from the BPB.
    pub fn volume_id(&self) -> (r: u32)
        ensures
            r == self.bpb.volume_id,
    {
        self.bpb.volumn_id()
    }

    /// The volume geometry.
    pub fn bpb(&self) -> (r: BiosParameterBlock)
        ensures
            r == self.bpb,
    {
        self.bpb
    }

    /// The next-free hint; `None` only means it is unknown.
    pub fn next_free_cluster(&self) -> (r: Option<u32>)
        ensures
            r == self.fat_manager.fsinfo.next_free_cluster,
    {
        self.fat_manager.next_free_cluster()
    }

    /// The free-count hint; `None` only means it is unknown.
    pub fn free_clusters(&self) -> (r: Option<u32>)
        ensures
            r == self.fat_manager.fsinfo.free_cluster_count,
    {
        self.fat_manager.free_clusters()
    }

    /// The in-memory FSInfo hints.
    pub fn fsinfo(&self) -> (r: FSInfo)
        ensures
            r == self.fat_manager.fsinfo,
    {
        self.fat_manager.fsinfo()
    }

    /// The synthesized root directory entry.
    pub fn root_dirent(&self) -> (r: ShortDirectoryEntry)
        ensures
            r == self.data_manager.root_dirent,
    {
        self.data_manager.root_dirent()
    }

    /// Allocate one cluster and zero-fill it; link it after `prev` when
    /// `prev` currently ends a chain.  `None` when the volume is full.
    pub fn alloc_cluster(&mut self, prev: Option<u32>) -> (r: Option<u32>)
        requires
            old(self).spec_inv(),
            prev matches Some(p) ==> 2 <= p < old(self).bpb.spec_total_clusters() + 2,
        ensures
            final(self).spec_inv(),
            final(self).bpb == old(self).bpb,
            final(self).data_manager.root_dirent == old(self).data_manager.root_dirent,
            r is None ==> forall|c: int|
                2 <= c < old(self).bpb.spec_total_clusters() + 2
                    ==> #[trigger] old(self).spec_fat_entry_low(c) != 0,
            r is None ==> final(self).spec_frame(*old(self)),
            r matches Some(id) ==> {
                &&& 2 <= id < old(self).bpb.spec_total_clusters() + 2
                &&& old(self).spec_fat_entry_low(id as int) == 0
                &&& final(self).spec_fat_entry(id as int) == FATEntry::End
                &&& final(self).spec_chain_wf(id as int)
                &&& (prev matches Some(p) ==> (old(self).spec_fat_entry(p as int) == FATEntry::End
                    ==> final(self).spec_fat_entry(p as int) == FATEntry::Next(id)))
                &&& forall|c: int|
                    spec_fat_index_ok(old(self).bpb, c) && c != id && (prev is None || c
                        != prev->0) ==> #[trigger] final(self).spec_fat_entry_low(c) == old(self).spec_fat_entry_low(c)
                &&& final(self).spec_cluster_view(id as int).len()
                    == old(self).bpb.spec_cluster_size()
                &&& forall|k: int|
                    0 <= k < old(self).bpb.spec_cluster_size() ==> #[trigger] final(self).spec_cluster_view(id as int)[k] == 0u8
                &&& forall|c: int|
                    spec_cluster_in_range(old(self).bpb, c) && c != id ==> #[trigger] final(self).spec_cluster_view(c) == old(self).spec_cluster_view(c)
            },
    {
        let ghost pre = *self;
        let r = self.fat_manager.alloc_cluster(&mut self.device, prev);
        let ghost mid = *self;
        proof {
            mid.lemma_data_stable(pre);
        }
        match r {
            None => {
                proof {
                    assert(self.spec_frame(pre));
                }
                None
            },
            Some(id) => {
                self.data_manager.clear_cluster(&mut self.device, id as usize);
                let ghost fin = *self;
                proof {
                    fin.lemma_fat_stable(mid);
                    assert forall|c: int|
                        spec_fat_index_ok(pre.bpb, c) && c != id && (prev is None || c
                            != prev->0) implies #[trigger] self.spec_fat_entry_low(c)
                        == pre.spec_fat_entry_low(c) by {
                        assert(fin.fat_manager.spec_entry_raw(fin.device.spec_sectors(), c)
                            == mid.fat_manager.spec_entry_raw(mid.device.spec_sectors(), c));
                        assert(mid.fat_manager.spec_entry_raw(mid.device.spec_sectors(), c)
                            == pre.fat_manager.spec_entry_raw(pre.device.spec_sectors(), c));
                    }
                    assert forall|c: int|
                        spec_cluster_in_range(pre.bpb, c) && c != id implies
                    #[trigger] self.spec_cluster_view(c) == pre.spec_cluster_view(c) by {
                        assert(fin.spec_cluster_view(c) == mid.spec_cluster_view(c));
                        assert(mid.spec_cluster_view(c) == pre.spec_cluster_view(c));
                    }
                    if prev is Some {
                        let pp = prev->0;
                        if pre.spec_fat_entry(pp as int) == FATEntry::End {
                            assert(self.spec_fat_entry(pp as int) == FATEntry::Next(id)) by {
                                assert(fin.fat_manager.spec_entry_raw(
                                    fin.device.spec_sectors(),
                                    pp as int,
                                ) == mid.fat_manager.spec_entry_raw(
                                    mid.device.spec_sectors(),
                                    pp as int,
                                ));
                            }
                        }
                    }
                    self.fat_manager.lemma_chain_structure(
                        self.device.spec_sectors(),
                        id as int,
                        (self.bpb.spec_total_clusters() + 1) as nat,
                    );
                    reveal_with_fuel(FATManager::spec_chain_from, 2);
                    assert(self.spec_fat_entry(id as int) == FATEntry::End) by {
                        assert(self.spec_fat_entry_low(id as int) == mid.spec_fat_entry_low(
                            id as int,
                        ));
                    }
                    assert(self.spec_chain(id as int) =~= seq![id as int]);
                    assert(self.spec_chain_wf(id as int));
                }
                Some(id)
            },
        }
    }

    /// Allocate `num` clusters as one fresh zero-filled chain, all or
    /// nothing; link it after `prev` when `prev` currently ends a chain.
    pub fn alloc_clusters(&mut self, num: usize, prev: Option<u32>) -> (r: Option<u32>)
        requires
            old(self).spec_inv(),
            prev matches Some(p) ==> 2 <= p < old(self).bpb.spec_total_clusters() + 2,
        ensures
            final(self).spec_inv(),
            final(self).bpb == old(self).bpb,
            final(self).data_manager.root_dirent == old(self).data_manager.root_dirent,
            r is None <==> (num == 0 || old(self).fat_manager.spec_count_free(
                old(self).device.spec_sectors(),
            ) < num),
            r is None ==> final(self).spec_frame(*old(self)),
            r matches Some(first) ==> {
                &&& 2 <= first < old(self).bpb.spec_total_clusters() + 2
                &&& final(self).spec_chain_wf(first as int)
                &&& final(self).spec_chain(first as int).len() == num
                &&& forall|i: int|
                    0 <= i < num ==> old(self).spec_fat_entry_low(
                        #[trigger] final(self).spec_chain(first as int)[i],
                    ) == 0
                &&& (prev matches Some(p) ==> (old(self).spec_fat_entry(p as int) == FATEntry::End
                    ==> final(self).spec_fat_entry(p as int) == FATEntry::Next(first)))
                &&& forall|c: int|
                    spec_fat_index_ok(old(self).bpb, c) && !final(self).spec_chain(
                        first as int,
                    ).contains(c) && (prev is None || c != prev->0) ==> #[trigger] final(self).spec_fat_entry_low(c) == old(self).spec_fat_entry_low(c)
                &&& forall|i: int, k: int|
                    0 <= i < num && 0 <= k < old(self).bpb.spec_cluster_size() ==> #[trigger] final(self).spec_cluster_view(final(self).spec_chain(first as int)[i])[k] == 0u8
                &&& forall|c: int|
                    spec_cluster_in_range(old(self).bpb, c) && !final(self).spec_chain(
                        first as int,
                    ).contains(c) ==> #[trigger] final(self).spec_cluster_view(c) == old(self).spec_cluster_view(c)
            },
    {
        if num == 0 {
            proof {
                self.lemma_frame_refl();
            }
            return None;
        }
        let ghost pre = *self;
        let r = self.fat_manager.alloc_clusters(&mut self.device, num, prev);
        let ghost mid = *self;
        proof {
            mid.lemma_data_stable(pre);
        }
        match r {
            None => {
                proof {
                    assert(self.spec_frame(pre));
                }
                None
            },
            Some(first) => {
                let ghost gch = mid.spec_chain(first as int);
                let id_vec = self.fat_manager.all_clusters(&mut self.device, first as usize);
                let ghost mid2 = *self;
                proof {
                    mid2.lemma_data_stable(mid);
                    assert(mid2.spec_chain(first as int) == gch) by {
                        FATManager::lemma_chain_congruence(
                            mid2.fat_manager,
                            mid2.device.spec_sectors(),
                            mid.fat_manager,
                            mid.device.spec_sectors(),
                            first as int,
                            (mid.bpb.spec_total_clusters() + 1) as nat,
                        );
                    }
                }
                let n = id_vec.len();
                let mut i: usize = 0;
                while i < n
                    invariant
                        n == id_vec@.len(),
                        n == gch.len(),
                        forall|j: int| 0 <= j < n ==> #[trigger] id_vec@[j] == gch[j],
                        forall|j: int|
                            0 <= j < n ==> 2 <= #[trigger] gch[j] < mid.bpb.spec_total_clusters()
                                + 2,
                        0 <= i <= n,
                        self.spec_inv(),
                        self.bpb == mid.bpb,
                        self.fat_manager == mid2.fat_manager,
                        self.data_manager.root_dirent == mid.data_manager.root_dirent,
                        self.device.spec_sectors().len() == mid2.device.spec_sectors().len(),
                        self.device.spec_sector_size() == mid2.device.spec_sector_size(),
                        forall|s: int|
                            0 <= s < mid.bpb.spec_first_data_sector()
                                ==> self.device.spec_sectors()[s]
                                == mid2.device.spec_sectors()[s],
                        forall|c: int|
                            spec_fat_index_ok(mid.bpb, c) ==> #[trigger] self.spec_fat_entry_low(c)
                                == mid2.spec_fat_entry_low(c),
                        forall|j: int, k: int|
                            0 <= j < i && 0 <= k < mid.bpb.spec_cluster_size()
                                ==> #[trigger] self.spec_cluster_view(gch[j])[k] == 0u8,
                        forall|j: int|
                            0 <= j < i ==> #[trigger] self.spec_cluster_view(gch[j]).len()
                                == mid.bpb.spec_cluster_size(),
                        forall|c: int|
                            spec_cluster_in_range(mid.bpb, c) && !gch.contains(c)
                                ==> #[trigger] self.spec_cluster_view(c) == mid2.spec_cluster_view(
                                c,
                            ),
                    decreases n - i,
                {
                    let ghost stp = *self;
                    self.data_manager.clear_cluster(&mut self.device, id_vec[i]);
                    proof {
                        self.lemma_fat_stable(stp);
                        assert(gch.contains(gch[i as int]));
                        assert forall|j: int, k: int|
                            0 <= j < i + 1 && 0 <= k < mid.bpb.spec_cluster_size() implies
                        #[trigger] self.spec_cluster_view(gch[j])[k] == 0u8 by {
                            if j < i && gch[j] != gch[i as int] {
                                assert(self.spec_cluster_view(gch[j]) == stp.spec_cluster_view(
                                    gch[j],
                                ));
                            }
                        }
                        assert forall|c: int|
                            spec_cluster_in_range(mid.bpb, c) && !gch.contains(c) implies
                        #[trigger] self.spec_cluster_view(c) == mid2.spec_cluster_view(c) by {
                            assert(c != gch[i as int]);
                            assert(self.spec_cluster_view(c) == stp.spec_cluster_view(c));
                        }
                        assert forall|j: int|
                            0 <= j < i + 1 implies #[trigger] self.spec_cluster_view(
                            gch[j],
                        ).len() == mid.bpb.spec_cluster_size() by {
                            if j < i && gch[j] != gch[i as int] {
                                assert(self.spec_cluster_view(gch[j]) == stp.spec_cluster_view(
                                    gch[j],
                                ));
                            }
                        }
                    }
                    i = i + 1;
                }
                proof {
                    assert forall|cc: int| spec_fat_index_ok(mid.bpb, cc) implies
                    #[trigger] self.fat_manager.spec_entry_low(self.device.spec_sectors(), cc)
                        == mid.fat_manager.spec_entry_low(mid.device.spec_sectors(), cc) by {
                        assert(self.spec_fat_entry_low(cc) == mid2.spec_fat_entry_low(cc));
                        assert(mid2.fat_manager.spec_entry_raw(mid2.device.spec_sectors(), cc)
                            == mid.fat_manager.spec_entry_raw(mid.device.spec_sectors(), cc));
                    }
                    assert(mid.fat_manager.spec_chain_wf(mid.device.spec_sectors(), first as int));
                    FATManager::lemma_chain_wf_congruence(
                        self.fat_manager,
                        self.device.spec_sectors(),
                        mid.fat_manager,
                        mid.device.spec_sectors(),
                        first as int,
                    );
                    assert(self.spec_chain(first as int) == gch);
                    assert(self.spec_chain_wf(first as int));
                    assert forall|i: int| 0 <= i < num implies pre.spec_fat_entry_low(
                        #[trigger] self.spec_chain(first as int)[i],
                    ) == 0 by {
                        assert(self.spec_chain(first as int)[i] == gch[i]);
                        assert(pre.fat_manager.spec_entry_low(
                            pre.device.spec_sectors(),
                            mid.fat_manager.spec_chain(mid.device.spec_sectors(), first as int)[i],
                        ) == 0);
                    }
                }
                Some(first)
            },
        }
    }

    /// Free one cluster; `prev`, when supplied, becomes the end of its
    /// chain.  Returns the orphaned successor.
    pub fn dealloc_cluster(&mut self, cluster_id: usize, prev: Option<u32>) -> (r: Option<u32>)
        requires
            old(self).spec_inv(),
            2 <= cluster_id < old(self).bpb.spec_total_clusters() + 2,
            prev matches Some(p) ==> 2 <= p < old(self).bpb.spec_total_clusters() + 2 && p
                != cluster_id,
        ensures
            final(self).spec_inv(),
            final(self).bpb == old(self).bpb,
            final(self).data_manager.root_dirent == old(self).data_manager.root_dirent,
            r == old(self).fat_manager.spec_next(old(self).device.spec_sectors(), cluster_id as int),
            final(self).spec_fat_entry(cluster_id as int) == FATEntry::Free,
            prev matches Some(p) ==> final(self).spec_fat_entry(p as int) == FATEntry::End,
            forall|c: int|
                spec_fat_index_ok(old(self).bpb, c) && c != cluster_id && (prev is None || c
                    != prev->0) ==> #[trigger] final(self).spec_fat_entry_low(c) == old(self).spec_fat_entry_low(c),
            forall|c: int|
                spec_cluster_in_range(old(self).bpb, c) ==> #[trigger] final(self).spec_cluster_view(c) == old(self).spec_cluster_view(c),
            final(self).fat_manager.fsinfo.next_free_cluster == old(self).fat_manager.fsinfo.next_free_cluster,
            final(self).fat_manager.fsinfo.free_cluster_count == match old(self).fat_manager.fsinfo.free_cluster_count {
                Some(n) => Some(
                    (if n < old(self).bpb.spec_total_clusters() {
                        (n + 1) as u32
                    } else {
                        (old(self).bpb.spec_total_clusters() as u32)
                    }),
                ),
                None => None::<u32>,
            },
            old(self).bpb.fats_number == 2 && old(self).fat_manager.spec_fats_agree(
                old(self).device.spec_sectors(),
            ) ==> final(self).fat_manager.spec_fats_agree(final(self).device.spec_sectors()),
    {
        let ghost pre = *self;
        let r = self.fat_manager.dealloc_cluster(&mut self.device, cluster_id, prev);
        proof {
            self.lemma_data_stable(pre);
        }
        r
    }

    /// Free a whole chain; `prev`, when supplied, becomes the end of its
    /// chain.  Returns the number of clusters freed.
    pub fn dealloc_clusters(&mut self, first_cluster: usize, prev: Option<u32>) -> (r: usize)
        requires
            old(self).spec_inv(),
            old(self).spec_chain_wf(first_cluster as int),
            prev matches Some(p) ==> 2 <= p < old(self).bpb.spec_total_clusters() + 2 && !old(self).spec_chain(first_cluster as int).contains(p as int),
        ensures
            final(self).spec_inv(),
            final(self).bpb == old(self).bpb,
            final(self).data_manager.root_dirent == old(self).data_manager.root_dirent,
            r == old(self).spec_chain(first_cluster as int).len(),
            forall|i: int|
                0 <= i < old(self).spec_chain(first_cluster as int).len() ==> final(self).spec_fat_entry(#[trigger] old(self).spec_chain(first_cluster as int)[i])
                    == FATEntry::Free,
            prev matches Some(p) ==> final(self).spec_fat_entry(p as int) == FATEntry::End,
            forall|c: int|
                spec_fat_index_ok(old(self).bpb, c) && !old(self).spec_chain(
                    first_cluster as int,
                ).contains(c) && (prev is None || c != prev->0) ==> #[trigger] final(self).spec_fat_entry_low(c) == old(self).spec_fat_entry_low(c),
            forall|c: int|
                spec_cluster_in_range(old(self).bpb, c) ==> #[trigger] final(self).spec_cluster_view(c) == old(self).spec_cluster_view(c),
            final(self).fat_manager.fsinfo.next_free_cluster == old(self).fat_manager.fsinfo.next_free_cluster,
            final(self).fat_manager.fsinfo.free_cluster_count == match old(self).fat_manager.fsinfo.free_cluster_count {
                Some(n) => Some(
                    (if n + r < old(self).bpb.spec_total_clusters() {
                        (n + r) as u32
                    } else {
                        (old(self).bpb.spec_total_clusters() as u32)
                    }),
                ),
                None => None::<u32>,
            },
            old(self).bpb.fats_number == 2 && old(self).fat_manager.spec_fats_agree(
                old(self).device.spec_sectors(),
            ) ==> final(self).fat_manager.spec_fats_agree(final(self).device.spec_sectors()),
    {
        let ghost pre = *self;
        let r = self.fat_manager.dealloc_clusters(&mut self.device, first_cluster, prev);
        proof {
            self.lemma_data_stable(pre);
        }
        r
    }

    /// The frame relation is reflexive.
    pub proof fn lemma_frame_refl(self)
        requires
            self.spec_inv(),
        ensures
            self.spec_frame(self),
    {
    }

    /// Write every dirty cache slot and the FSInfo sector back to the
    /// device.  Afterwards the device itself holds the current state.
    pub fn sync_all(&mut self)
        requires
            old(self).spec_inv(),
        ensures
            final(self).spec_inv(),
            final(self).spec_frame(*old(self)),
            old(self).bpb.fats_number == 2 && old(self).fat_manager.spec_fats_agree(
                old(self).device.spec_sectors(),
            ) ==> final(self).fat_manager.spec_fats_agree(final(self).device.spec_sectors()),
            FSInfoSector::spec_parse(
                final(self).device.spec_sectors()[old(self).bpb.fsinfo_sector_number as int],
            ) == FSInfoSector::spec_from_fsinfo(old(self).fat_manager.fsinfo),
            forall|c: int|
                spec_cluster_in_range(old(self).bpb, c) ==> spec_cluster_disk(
                    old(self).bpb,
                    final(self).device.spec_sectors(),
                    c,
                ) == #[trigger] final(self).spec_cluster_view(c),
            old(self).bpb.fats_number == 2 && old(self).fat_manager.spec_fats_agree(
                old(self).device.spec_sectors(),
            ) ==> forall|c: int|
                spec_fat_index_ok(old(self).bpb, c) ==> le32_at(
                    final(self).device.spec_sectors()[spec_fat_sector(old(self).bpb, c)],
                    #[trigger] spec_fat_offset(old(self).bpb, c),
                ) == le32_at(
                    final(self).device.spec_sectors()[spec_backup_fat_sector(old(self).bpb, c)],
                    spec_fat_offset(old(self).bpb, c),
                ),
    {
        let ghost pre = *self;
        self.fat_manager.sync_fsinfo(&mut self.device);
        let ghost st1 = *self;
        proof {
            st1.lemma_data_stable(pre);
            if pre.bpb.fats_number == 2 && pre.fat_manager.spec_fats_agree(
                pre.device.spec_sectors(),
            ) {
                FATManager::lemma_agree_from_frame(
                    st1.fat_manager,
                    pre.fat_manager,
                    st1.device,
                    pre.device,
                );
            }
        }
        self.fat_manager.flush(&mut self.device);
        let ghost st2 = *self;
        proof {
            st2.lemma_data_stable(st1);
            if pre.bpb.fats_number == 2 && pre.fat_manager.spec_fats_agree(
                pre.device.spec_sectors(),
            ) {
                FATManager::lemma_agree_from_frame(
                    st2.fat_manager,
                    st1.fat_manager,
                    st2.device,
                    st1.device,
                );
            }
        }
        self.data_manager.flush(&mut self.device);
        let ghost st3 = *self;
        proof {
            st3.lemma_fat_stable(st2);
            assert forall|c: int| spec_fat_index_ok(pre.bpb, c) implies
            #[trigger] self.spec_fat_entry_low(c) == pre.spec_fat_entry_low(c) by {
                assert(st3.fat_manager.spec_entry_raw(st3.device.spec_sectors(), c)
                    == st2.fat_manager.spec_entry_raw(st2.device.spec_sectors(), c));
                assert(st2.fat_manager.spec_entry_raw(st2.device.spec_sectors(), c)
                    == st1.fat_manager.spec_entry_raw(st1.device.spec_sectors(), c));
                assert(st1.fat_manager.spec_entry_raw(st1.device.spec_sectors(), c)
                    == pre.fat_manager.spec_entry_raw(pre.device.spec_sectors(), c));
            }
            assert forall|c: int| spec_cluster_in_range(pre.bpb, c) implies
            #[trigger] self.spec_cluster_view(c) == pre.spec_cluster_view(c) by {
                assert(st3.spec_cluster_view(c) == st2.spec_cluster_view(c));
                assert(st2.spec_cluster_view(c) == st1.spec_cluster_view(c));
                assert(st1.spec_cluster_view(c) == pre.spec_cluster_view(c));
            }
            if pre.bpb.fats_number == 2 && pre.fat_manager.spec_fats_agree(
                pre.device.spec_sectors(),
            ) {
                assert forall|c: int| spec_fat_index_ok(st3.bpb, c) implies
                #[trigger] st3.fat_manager.spec_backup_raw(st3.device.spec_sectors(), c)
                    == st3.fat_manager.spec_entry_raw(st3.device.spec_sectors(), c) by {
                    assert(st2.fat_manager.spec_backup_raw(st2.device.spec_sectors(), c)
                        == st2.fat_manager.spec_entry_raw(st2.device.spec_sectors(), c));
                }
            }
            // the device itself now carries the FSInfo serialization: the
            // flushed metadata region holds the cache views, and the data
            // flush leaves the metadata region alone
            let fsid = pre.bpb.fsinfo_sector_number as int;
            assert(fsid < pre.bpb.spec_first_data_sector());
            assert(st2.device.spec_sectors()[fsid]
                == st1.fat_manager.sector_cache.spec_sector_view(
                st1.device.spec_sectors(),
                fsid,
            ));
            assert(st3.device.spec_sectors()[fsid] == st2.device.spec_sectors()[fsid]);
            // both on-device FAT copies hold the words the views held
            if pre.bpb.fats_number == 2 && pre.fat_manager.spec_fats_agree(
                pre.device.spec_sectors(),
            ) {
                assert forall|c: int| spec_fat_index_ok(pre.bpb, c) implies le32_at(
                    st3.device.spec_sectors()[spec_fat_sector(pre.bpb, c)],
                    #[trigger] spec_fat_offset(pre.bpb, c),
                ) == le32_at(
                    st3.device.spec_sectors()[spec_backup_fat_sector(pre.bpb, c)],
                    spec_fat_offset(pre.bpb, c),
                ) by {
                    crate::fat::lemma_fat_pos(pre.bpb, c);
                    reveal(FATManager::spec_entry_raw);
                    reveal(FATManager::spec_backup_raw);
                    let ps = spec_fat_sector(pre.bpb, c);
                    let bs = spec_backup_fat_sector(pre.bpb, c);
                    assert(st3.device.spec_sectors()[ps] == st2.device.spec_sectors()[ps]);
                    assert(st3.device.spec_sectors()[bs] == st2.device.spec_sectors()[bs]);
                    assert(st2.device.spec_sectors()[ps]
                        == st1.fat_manager.sector_cache.spec_sector_view(
                        st1.device.spec_sectors(),
                        ps,
                    ));
                    assert(st2.device.spec_sectors()[bs]
                        == st1.fat_manager.sector_cache.spec_sector_view(
                        st1.device.spec_sectors(),
                        bs,
                    ));
                    assert(st1.fat_manager.spec_entry_raw(st1.device.spec_sectors(), c)
                        == st1.fat_manager.spec_backup_raw(st1.device.spec_sectors(), c));
                }
            }
        }
    }

    /// Frame facts compose across successive operations.
    pub proof fn lemma_frame_compose(self, mid: Self, pre: Self)
        requires
            self.spec_frame(mid),
            mid.spec_frame(pre),
        ensures
            self.spec_frame(pre),
    {
        assert forall|c: int| spec_fat_index_ok(pre.bpb, c) implies
        #[trigger] self.spec_fat_entry_low(c) == pre.spec_fat_entry_low(c) by {
            assert(mid.spec_fat_entry_low(c) == pre.spec_fat_entry_low(c));
        }
        assert forall|c: int| spec_cluster_in_range(pre.bpb, c) implies
        #[trigger] self.spec_cluster_view(c) == pre.spec_cluster_view(c) by {
            assert(mid.spec_cluster_view(c) == pre.spec_cluster_view(c));
        }
    }

    /// A FAT-side operation that kept every entry leaves the whole
    /// filesystem observably unchanged.
    pub proof fn lemma_frame_after_fat_op(self, pre: Self)
        requires
            pre.spec_inv(),
            self.bpb == pre.bpb,
            self.data_manager == pre.data_manager,
            self.fat_manager.spec_frame(pre.fat_manager, self.device, pre.device),
        ensures
            self.spec_frame(pre),
    {
        self.lemma_data_stable(pre);
        assert forall|c: int| spec_fat_index_ok(pre.bpb, c) implies
        #[trigger] self.spec_fat_entry_low(c) == pre.spec_fat_entry_low(c) by {
            assert(self.fat_manager.spec_entry_raw(self.device.spec_sectors(), c)
                == pre.fat_manager.spec_entry_raw(pre.device.spec_sectors(), c));
        }
    }

    /// A data-side operation that kept every cluster view leaves the whole
    /// filesystem observably unchanged.
    pub proof fn lemma_frame_after_data_op(self, pre: Self)
        requires
            pre.spec_inv(),
            self.bpb == pre.bpb,
            self.fat_manager == pre.fat_manager,
            self.data_manager.spec_frame(pre.data_manager, self.device, pre.device),
        ensures
            self.spec_frame(pre),
    {
        self.lemma_fat_stable(pre);
        assert forall|c: int| spec_cluster_in_range(pre.bpb, c) implies
        #[trigger] self.spec_cluster_view(c) == pre.spec_cluster_view(c) by {
            assert(self.data_manager.spec_cluster_view(self.device.spec_sectors(), c)
                == pre.data_manager.spec_cluster_view(pre.device.spec_sectors(), c));
        }
    }

    /// Entry equality at the filesystem level gives the manager-level
    /// equality the congruence lemmas expect.
    pub proof fn lemma_low_bridge(self, pre: Self)
        requires
            forall|c: int|
                spec_fat_index_ok(pre.bpb, c) ==> #[trigger] self.spec_fat_entry_low(c)
                    == pre.spec_fat_entry_low(c),
        ensures
            forall|c: int|
                spec_fat_index_ok(pre.bpb, c) ==> #[trigger] self.fat_manager.spec_entry_low(
                    self.device.spec_sectors(),
                    c,
                ) == pre.fat_manager.spec_entry_low(pre.device.spec_sectors(), c),
    {
        assert forall|c: int| spec_fat_index_ok(pre.bpb, c) implies
        #[trigger] self.fat_manager.spec_entry_low(self.device.spec_sectors(), c)
            == pre.fat_manager.spec_entry_low(pre.device.spec_sectors(), c) by {
            assert(self.spec_fat_entry_low(c) == pre.spec_fat_entry_low(c));
        }
    }
}

} // verus!
