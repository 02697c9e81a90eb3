//! The boot sector and its BIOS Parameter Block: the volume's immutable
//! geometry, parsed from the first sector and validated at mount.

use vstd::prelude::*;
use crate::dir_entry::{le16_at, le32_at};
use crate::error::FSError;

verus! {

/// The geometry header of a FAT32 volume, taken from the boot sector.
/// Immutable after mount.
#[derive(Clone, Copy, Debug)]
pub struct BiosParameterBlock {
    pub bytes_per_sector: u16,
    pub sectors_per_cluster: u8,
    pub reserved_sectors: u16,
    pub fats_number: u8,
    pub root_entries: u16,
    pub total_sectors_16: u16,
    pub media: u8,
    pub sectors_per_fat_16: u16,
    pub hidden_sectors: u32,
    pub total_sectors: u32,
    pub fats_sectors: u32,
    pub extended_flags: u16,
    pub fs_version: u16,
    pub root_dir_cluster: u32,
    pub fsinfo_sector_number: u16,
    pub backup_boot_sector: u16,
    pub volume_id: u32,
    pub volume_label: [u8; 11],
    pub fs_type_label: [u8; 8],
}

impl BiosParameterBlock {
    /// The fields as laid out in bytes 11..90 of the boot sector.
    pub open spec fn spec_parse(s: Seq<u8>) -> BiosParameterBlock {
        BiosParameterBlock {
            bytes_per_sector: le16_at(s, 11),
            sectors_per_cluster: s[13],
            reserved_sectors: le16_at(s, 14),
            fats_number: s[16],
            root_entries: le16_at(s, 17),
            total_sectors_16: le16_at(s, 19),
            media: s[21],
            sectors_per_fat_16: le16_at(s, 22),
            hidden_sectors: le32_at(s, 28),
            total_sectors: le32_at(s, 32),
            fats_sectors: le32_at(s, 36),
            extended_flags: le16_at(s, 40),
            fs_version: le16_at(s, 42),
            root_dir_cluster: le32_at(s, 44),
            fsinfo_sector_number: le16_at(s, 48),
            backup_boot_sector: le16_at(s, 50),
            volume_id: le32_at(s, 67),
            volume_label: [
                s[71],
                s[72],
                s[73],
                s[74],
                s[75],
                s[76],
                s[77],
                s[78],
                s[79],
                s[80],
                s[81],
            ],
            fs_type_label: [s[82], s[83], s[84], s[85], s[86], s[87], s[88], s[89]],
        }
    }

    /// Parse the BPB out of a boot sector of at least 512 bytes.
    pub fn parse(sector: &Vec<u8>) -> (r: Self)
        requires
            sector@.len() >= 512,
        ensures
            r == Self::spec_parse(sector@),
    {
        BiosParameterBlock {
            bytes_per_sector: sector[11] as u16 + sector[12] as u16 * 256,
            sectors_per_cluster: sector[13],
            reserved_sectors: sector[14] as u16 + sector[15] as u16 * 256,
            fats_number: sector[16],
            root_entries: sector[17] as u16 + sector[18] as u16 * 256,
            total_sectors_16: sector[19] as u16 + sector[20] as u16 * 256,
            media: sector[21],
            sectors_per_fat_16: sector[22] as u16 + sector[23] as u16 * 256,
            hidden_sectors: Self::read32(sector, 28),
            total_sectors: Self::read32(sector, 32),
            fats_sectors: Self::read32(sector, 36),
            extended_flags: sector[40] as u16 + sector[41] as u16 * 256,
            fs_version: sector[42] as u16 + sector[43] as u16 * 256,
            root_dir_cluster: Self::read32(sector, 44),
            fsinfo_sector_number: sector[48] as u16 + sector[49] as u16 * 256,
            backup_boot_sector: sector[50] as u16 + sector[51] as u16 * 256,
            volume_id: Self::read32(sector, 67),
            volume_label: [
                sector[71],
                sector[72],
                sector[73],
                sector[74],
                sector[75],
                sector[76],
                sector[77],
                sector[78],
                sector[79],
                sector[80],
                sector[81],
            ],
            fs_type_label: [
                sector[82],
                sector[83],
                sector[84],
                sector[85],
                sector[86],
                sector[87],
                sector[88],
                sector[89],
            ],
        }
    }

    fn read32(sector: &Vec<u8>, off: usize) -> (r: u32)
        requires
            off + 4 <= sector@.len(),
        ensures
            r == le32_at(sector@, off as int),
    {
        let n = sector.len();
        sector[off] as u32 + sector[off + 1] as u32 * 256 + sector[off + 2] as u32 * 65536
            + sector[off + 3] as u32 * 16777216
    }

    /// Sectors occupied by the (FAT12/16-style) root directory region; zero
    /// on a valid FAT32 volume.
    pub open spec fn spec_root_dir_sectors(self) -> int {
        if self.bytes_per_sector == 0 {
            0
        } else {
            (self.root_entries as int * 32 + self.bytes_per_sector as int - 1)
                / self.bytes_per_sector as int
        }
    }

    /// First sector of the data region.
    pub open spec fn spec_first_data_sector(self) -> int {
        self.reserved_sectors as int + self.fats_number as int * self.fats_sectors as int
            + self.spec_root_dir_sectors()
    }

    /// Number of data clusters on the volume.
    pub open spec fn spec_total_clusters(self) -> int {
        if self.sectors_per_cluster == 0 {
            0
        } else {
            (self.total_sectors as int - self.spec_first_data_sector())
                / self.sectors_per_cluster as int
        }
    }

    /// Bytes per cluster.
    pub open spec fn spec_cluster_size(self) -> int {
        self.bytes_per_sector as int * self.sectors_per_cluster as int
    }

    /// FAT entries stored in one sector.
    pub open spec fn spec_entries_per_sector(self) -> int {
        self.bytes_per_sector as int / 4
    }

    /// All conditions a mountable FAT32 geometry must satisfy.
    pub open spec fn spec_valid(self) -> bool {
        &&& self.root_entries == 0
        &&& self.total_sectors_16 == 0
        &&& self.sectors_per_fat_16 == 0
        &&& self.fs_version == 0
        &&& self.fs_type_label@ =~= seq![
            0x46u8,
            0x41u8,
            0x54u8,
            0x33u8,
            0x32u8,
            0x20u8,
            0x20u8,
            0x20u8,
        ]
        &&& (self.bytes_per_sector == 512 || self.bytes_per_sector == 1024
            || self.bytes_per_sector == 2048 || self.bytes_per_sector == 4096)
        &&& (self.sectors_per_cluster == 1 || self.sectors_per_cluster == 2
            || self.sectors_per_cluster == 4 || self.sectors_per_cluster == 8
            || self.sectors_per_cluster == 16 || self.sectors_per_cluster == 32
            || self.sectors_per_cluster == 64 || self.sectors_per_cluster == 128)
        &&& self.spec_cluster_size() <= 32768
        &&& self.reserved_sectors >= 1
        &&& self.backup_boot_sector < self.reserved_sectors
        &&& self.fsinfo_sector_number < self.reserved_sectors
        &&& (self.fats_number == 1 || self.fats_number == 2)
        &&& self.fats_sectors > 0
        &&& self.total_sectors as int > self.spec_first_data_sector()
        &&& self.spec_total_clusters() <= 0x0FFFFFF4
        &&& self.spec_entries_per_sector() * self.fats_sectors as int >= self.spec_total_clusters()
            + 2
        &&& 2 <= self.root_dir_cluster as int
        &&& (self.root_dir_cluster as int) < self.spec_total_clusters() + 2
        &&& self.total_sectors as int * self.bytes_per_sector as int + 98304 <= usize::MAX as int
    }

    /// Check every condition of `spec_valid`; a failure is a corrupted
    /// filesystem.
    pub fn validate(&self) -> (r: Result<(), FSError>)
        ensures
            r is Ok <==> self.spec_valid(),
            r is Err ==> r->Err_0 == FSError::CorruptedFileSystem,
    {
        let bps: u64 = self.bytes_per_sector as u64;
        let spc: u64 = self.sectors_per_cluster as u64;
        if self.root_entries != 0 || self.total_sectors_16 != 0 || self.sectors_per_fat_16 != 0
            || self.fs_version != 0 {
            return Err(FSError::CorruptedFileSystem);
        }
        if !(self.fs_type_label[0] == 0x46 && self.fs_type_label[1] == 0x41
            && self.fs_type_label[2] == 0x54 && self.fs_type_label[3] == 0x33
            && self.fs_type_label[4] == 0x32 && self.fs_type_label[5] == 0x20
            && self.fs_type_label[6] == 0x20 && self.fs_type_label[7] == 0x20) {
            return Err(FSError::CorruptedFileSystem);
        }
        proof {
            if self.fs_type_label@[0] == 0x46 && self.fs_type_label@[1] == 0x41
                && self.fs_type_label@[2] == 0x54 && self.fs_type_label@[3] == 0x33
                && self.fs_type_label@[4] == 0x32 && self.fs_type_label@[5] == 0x20
                && self.fs_type_label@[6] == 0x20 && self.fs_type_label@[7] == 0x20 {
                assert(self.fs_type_label@ =~= seq![
                    0x46u8,
                    0x41u8,
                    0x54u8,
                    0x33u8,
                    0x32u8,
                    0x20u8,
                    0x20u8,
                    0x20u8,
                ]);
            }
        }
        if !(self.bytes_per_sector == 512 || self.bytes_per_sector == 1024
            || self.bytes_per_sector == 2048 || self.bytes_per_sector == 4096) {
            return Err(FSError::CorruptedFileSystem);
        }
        if !(self.sectors_per_cluster == 1 || self.sectors_per_cluster == 2
            || self.sectors_per_cluster == 4 || self.sectors_per_cluster == 8
            || self.sectors_per_cluster == 16 || self.sectors_per_cluster == 32
            || self.sectors_per_cluster == 64 || self.sectors_per_cluster == 128) {
            return Err(FSError::CorruptedFileSystem);
        }
        proof {
            vstd::arithmetic::mul::lemma_mul_upper_bound(bps as int, 4096, spc as int, 128);
        }
        if bps * spc > 32768 {
            return Err(FSError::CorruptedFileSystem);
        }
        if self.reserved_sectors < 1 || self.backup_boot_sector >= self.reserved_sectors
            || self.fsinfo_sector_number >= self.reserved_sectors {
            return Err(FSError::CorruptedFileSystem);
        }
        if !(self.fats_number == 1 || self.fats_number == 2) {
            return Err(FSError::CorruptedFileSystem);
        }
        if self.fats_sectors == 0 {
            return Err(FSError::CorruptedFileSystem);
        }
        proof {
            vstd::arithmetic::mul::lemma_mul_upper_bound(
                self.fats_number as int,
                2,
                self.fats_sectors as int,
                0xFFFFFFFF,
            );
        }
        let fds: u64 = self.reserved_sectors as u64 + self.fats_number as u64
            * self.fats_sectors as u64;
        proof {
            vstd::arithmetic::div_mod::lemma_basic_div(
                self.bytes_per_sector as int - 1,
                self.bytes_per_sector as int,
            );
            assert(self.spec_root_dir_sectors() == 0);
        }
        if self.total_sectors as u64 <= fds {
            return Err(FSError::CorruptedFileSystem);
        }
        let tc: u64 = (self.total_sectors as u64 - fds) / spc;
        if tc > 0x0FFFFFF4 {
            return Err(FSError::CorruptedFileSystem);
        }
        proof {
            vstd::arithmetic::mul::lemma_mul_upper_bound(
                bps as int / 4,
                1024,
                self.fats_sectors as int,
                0xFFFFFFFF,
            );
        }
        if (bps / 4) * (self.fats_sectors as u64) < tc + 2 {
            return Err(FSError::CorruptedFileSystem);
        }
        if !(2 <= self.root_dir_cluster as u64 && (self.root_dir_cluster as u64) < tc + 2) {
            return Err(FSError::CorruptedFileSystem);
        }
        proof {
            vstd::arithmetic::mul::lemma_mul_upper_bound(
                self.total_sectors as int,
                0xFFFFFFFF,
                bps as int,
                4096,
            );
        }
        if self.total_sectors as u64 * bps > usize::MAX as u64 - 98304 {
            return Err(FSError::CorruptedFileSystem);
        }
        Ok(())
    }

    pub fn bytes_per_sector(&self) -> (r: u16)
        ensures
            r == self.bytes_per_sector,
    {
        self.bytes_per_sector
    }

    pub fn sectors_per_cluster(&self) -> (r: u8)
        ensures
            r == self.sectors_per_cluster,
    {
        self.sectors_per_cluster
    }

    pub fn fats_sectors(&self) -> (r: u32)
        ensures
            r == self.fats_sectors,
    {
        self.fats_sectors
    }

    pub fn total_sectors(&self) -> (r: u32)
        ensures
            r == self.total_sectors,
    {
        self.total_sectors
    }

    pub fn reserved_sectors(&self) -> (r: u32)
        ensures
            r == self.reserved_sectors as u32,
    {
        self.reserved_sectors as u32
    }

    pub fn root_dir_sectors(&self) -> (r: u32)
        requires
            self.spec_valid(),
        ensures
            r == self.spec_root_dir_sectors(),
    {
        let root_dir_bytes: u32 = self.root_entries as u32 * 32;
        (root_dir_bytes + self.bytes_per_sector as u32 - 1) / self.bytes_per_sector as u32
    }

    pub fn sectors_per_all_fats(&self) -> (r: u32)
        requires
            self.spec_valid(),
        ensures
            r == self.fats_number as int * self.fats_sectors as int,
    {
        proof {
            assert((self.fats_number as int * self.fats_sectors as int)
                < self.total_sectors as int);
            assert(self.total_sectors as int <= u32::MAX as int);
        }
        self.fats_number as u32 * self.fats_sectors
    }

    pub fn first_data_sector(&self) -> (r: u32)
        requires
            self.spec_valid(),
        ensures
            r == self.spec_first_data_sector(),
    {
        self.reserved_sectors as u32 + self.sectors_per_all_fats() + self.root_dir_sectors()
    }

    pub fn total_clusters(&self) -> (r: u32)
        requires
            self.spec_valid(),
        ensures
            r == self.spec_total_clusters(),
    {
        let first_data_sector = self.first_data_sector();
        (self.total_sectors - first_data_sector) / self.sectors_per_cluster as u32
    }

    pub fn cluster_size(&self) -> (r: usize)
        requires
            self.spec_valid(),
        ensures
            r == self.spec_cluster_size(),
    {
        self.bytes_per_sector as usize * self.sectors_per_cluster as usize
    }

    /// First sector of the primary FAT.
    pub fn first_fats_sector(&self) -> (r: u32)
        ensures
            r == self.reserved_sectors as u32,
    {
        self.reserved_sectors as u32
    }

    /// First sector of the backup FAT; meaningful only with two FATs.
    pub fn first_backup_fats_sector(&self) -> (r: u32)
        requires
            self.spec_valid(),
        ensures
            r == self.reserved_sectors as int + self.fats_sectors as int,
    {
        proof {
            assert(self.reserved_sectors as int + self.fats_sectors as int
                <= self.spec_first_data_sector());
            assert(self.spec_first_data_sector() < self.total_sectors as int);
            assert(self.total_sectors as int <= u32::MAX as int);
        }
        self.reserved_sectors as u32 + self.fats_sectors
    }

    pub fn fsinfo_sector(&self) -> (r: u16)
        ensures
            r == self.fsinfo_sector_number,
    {
        self.fsinfo_sector_number
    }

    pub fn root_dir_cluster(&self) -> (r: u32)
        ensures
            r == self.root_dir_cluster,
    {
        self.root_dir_cluster
    }

    pub fn volumn_id(&self) -> (r: u32)
        ensures
            r == self.volume_id,
    {
        self.volume_id
    }
}

/// The first sector of the volume: ignored jump and OEM bytes around the
/// BPB, plus the conventional trailing signature.
#[derive(Clone, Copy, Debug)]
pub struct BootSector {
    pub bootjmp: [u8; 3],
    pub oem_name: [u8; 8],
    pub bpb: BiosParameterBlock,
    pub boot_sig: [u8; 2],
}

impl BootSector {
    /// Parse a boot sector of at least 512 bytes.
    pub fn parse(sector: &Vec<u8>) -> (r: Self)
        requires
            sector@.len() >= 512,
        ensures
            r.bpb == BiosParameterBlock::spec_parse(sector@),
            r.bootjmp@ == seq![sector@[0], sector@[1], sector@[2]],
            r.boot_sig@ == seq![sector@[510], sector@[511]],
    {
        let r = BootSector {
            bootjmp: [sector[0], sector[1], sector[2]],
            oem_name: [
                sector[3],
                sector[4],
                sector[5],
                sector[6],
                sector[7],
                sector[8],
                sector[9],
                sector[10],
            ],
            bpb: BiosParameterBlock::parse(sector),
            boot_sig: [sector[510], sector[511]],
        };
        proof {
            assert(r.bootjmp@ =~= seq![sector@[0], sector@[1], sector@[2]]);
            assert(r.boot_sig@ =~= seq![sector@[510], sector@[511]]);
        }
        r
    }

    /// Validate the contained BPB.
    pub fn validate(&self) -> (r: Result<(), FSError>)
        ensures
            r is Ok <==> self.bpb.spec_valid(),
            r is Err ==> r->Err_0 == FSError::CorruptedFileSystem,
    {
        self.bpb.validate()
    }
}


/// The whole data region, one spare cluster included, fits in a `usize`
/// byte count on a valid volume.
pub proof fn lemma_volume_bytes_bound(bpb: BiosParameterBlock)
    requires
        bpb.spec_valid(),
    ensures
        bpb.spec_cluster_size() * (bpb.spec_total_clusters() + 1) + 65536 <= usize::MAX as int,
{
    let spc = bpb.sectors_per_cluster as int;
    let bps = bpb.bytes_per_sector as int;
    let tc = bpb.spec_total_clusters();
    let fds = bpb.spec_first_data_sector();
    let ts = bpb.total_sectors as int;
    vstd::arithmetic::div_mod::lemma_fundamental_div_mod(ts - fds, spc);
    vstd::arithmetic::div_mod::lemma_mod_bound(ts - fds, spc);
    assert(tc * spc <= ts - fds) by (nonlinear_arith)
        requires
            ts - fds == spc * tc + (ts - fds) % spc,
            0 <= (ts - fds) % spc,
    ;
    assert(bps * spc * (tc + 1) <= ts * bps + 32768) by (nonlinear_arith)
        requires
            tc * spc <= ts - fds,
            fds >= 1,
            bps * spc <= 32768,
            bps >= 512,
            spc >= 1,
            tc >= 0,
            ts >= 1,
    ;
}

} // verus!
