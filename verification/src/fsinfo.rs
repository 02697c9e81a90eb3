//! The FSInfo sector: best-effort hints about free clusters.  Correctness of
//! the filesystem never depends on these hints; they only speed up searches.

use vstd::prelude::*;
use crate::dir_entry::{le32_at, le32_byte};
use crate::error::FSError;

verus! {

/// Stored value meaning "no information".
pub const NO_INFORMATION: u32 = 0xFFFFFFFF;

/// In-memory free-space hints; `None` means unknown.
#[derive(Clone, Copy, PartialEq, Eq, Structural, Debug)]
pub struct FSInfo {
    pub free_cluster_count: Option<u32>,
    pub next_free_cluster: Option<u32>,
}

impl FSInfo {
    /// Build hints from raw on-disk words; 0xFFFFFFFF means unknown.
    pub fn new(free_cluster_count: u32, next_free_cluster: u32) -> (r: Self)
        ensures
            r.free_cluster_count == if free_cluster_count != 0xFFFFFFFFu32 {
                Some(free_cluster_count)
            } else {
                None::<u32>
            },
            r.next_free_cluster == if next_free_cluster != 0xFFFFFFFFu32 {
                Some(next_free_cluster)
            } else {
                None::<u32>
            },
    {
        FSInfo {
            free_cluster_count: if free_cluster_count != NO_INFORMATION {
                Some(free_cluster_count)
            } else {
                None
            },
            next_free_cluster: if next_free_cluster != NO_INFORMATION {
                Some(next_free_cluster)
            } else {
                None
            },
        }
    }

    /// Both hints are inside the volume described by `total_clusters`.
    pub open spec fn spec_clamped(self, total_clusters: u32) -> bool {
        &&& (self.free_cluster_count matches Some(n) ==> n <= total_clusters)
        &&& (self.next_free_cluster matches Some(n) ==> 2 <= n && n < total_clusters as int + 2)
    }

    /// Drop any hint that is out of range for a volume of `total_clusters`
    /// data clusters; cluster ids 0 and 1 are reserved.
    pub fn validate_and_fix(&mut self, total_clusters: u32)
        ensures
            final(self).free_cluster_count == match old(self).free_cluster_count {
                Some(n) => if n <= total_clusters {
                    Some(n)
                } else {
                    None::<u32>
                },
                None => None::<u32>,
            },
            final(self).next_free_cluster == match old(self).next_free_cluster {
                Some(n) => if 2 <= n && n as int <= total_clusters as int + 1 {
                    Some(n)
                } else {
                    None::<u32>
                },
                None => None::<u32>,
            },
            final(self).spec_clamped(total_clusters),
    {
        if let Some(n) = self.free_cluster_count {
            if n > total_clusters {
                self.free_cluster_count = None;
            }
        }
        if let Some(n) = self.next_free_cluster {
            let max_ok: u64 = total_clusters as u64 + 1;
            if n < 2 || n as u64 > max_ok {
                self.next_free_cluster = None;
            }
        }
    }

    /// Apply `map_fn` to the free-cluster count, when one is known.
    pub fn map_free_clusters<F: Fn(u32) -> u32>(&mut self, map_fn: F)
        requires
            forall|x: u32| #[trigger] map_fn.requires((x,)),
        ensures
            old(self).free_cluster_count is None ==> *final(self) == *old(self),
            old(self).free_cluster_count matches Some(n) ==> exists|r: u32|
                map_fn.ensures((n,), r) && *final(self) == (FSInfo {
                    free_cluster_count: Some(r),
                    ..*old(self)
                }),
    {
        if let Some(n) = self.free_cluster_count {
            self.free_cluster_count = Some(map_fn(n));
        }
    }

    /// The next-free hint; `None` only means it is unknown.
    pub fn next_free_cluster(&self) -> (r: Option<u32>)
        ensures
            r == self.next_free_cluster,
    {
        self.next_free_cluster
    }

    /// The free-count hint; `None` only means it is unknown.
    pub fn free_clusters(&self) -> (r: Option<u32>)
        ensures
            r == self.free_cluster_count,
    {
        self.free_cluster_count
    }

    pub fn set_next_free_cluster(&mut self, cluster_id: Option<u32>)
        ensures
            *final(self) == (FSInfo { next_free_cluster: cluster_id, ..*old(self) }),
    {
        self.next_free_cluster = cluster_id;
    }

    pub fn set_free_cluster_count(&mut self, free_cluster_count: Option<u32>)
        ensures
            *final(self) == (FSInfo { free_cluster_count, ..*old(self) }),
    {
        self.free_cluster_count = free_cluster_count;
    }
}

/// The on-disk FSInfo sector: three signatures around the two hint words.
#[derive(Clone, Copy, PartialEq, Eq, Structural, Debug)]
pub struct FSInfoSector {
    pub lead_signature: u32,
    pub struc_signature: u32,
    pub free_cluster_count: u32,
    pub next_free_cluster: u32,
    pub trail_signature: u32,
}

/// Value of the signature at offset 0 of a valid FSInfo sector.
pub const FSINFO_LEAD_SIGNATURE: u32 = 0x41615252;

/// Value of the signature at offset 484 of a valid FSInfo sector.
pub const FSINFO_STRUC_SIGNATURE: u32 = 0x61417272;

/// Value of the signature at offset 508 of a valid FSInfo sector.
pub const FSINFO_TRAIL_SIGNATURE: u32 = 0xAA550000;

impl FSInfoSector {
    /// The signature and hint words as laid out in a 512-byte-or-larger
    /// sector.
    pub open spec fn spec_parse(s: Seq<u8>) -> FSInfoSector {
        FSInfoSector {
            lead_signature: le32_at(s, 0),
            struc_signature: le32_at(s, 484),
            free_cluster_count: le32_at(s, 488),
            next_free_cluster: le32_at(s, 492),
            trail_signature: le32_at(s, 508),
        }
    }

    /// Parse the FSInfo fields out of a sector of at least 512 bytes.
    pub fn parse(sector: &Vec<u8>) -> (r: Self)
        requires
            sector@.len() >= 512,
        ensures
            r == Self::spec_parse(sector@),
    {
        FSInfoSector {
            lead_signature: Self::read32(sector, 0),
            struc_signature: Self::read32(sector, 484),
            free_cluster_count: Self::read32(sector, 488),
            next_free_cluster: Self::read32(sector, 492),
            trail_signature: Self::read32(sector, 508),
        }
    }

    fn read32(sector: &Vec<u8>, off: usize) -> (r: u32)
        requires
            off + 4 <= sector@.len(),
        ensures
            r == le32_at(sector@, off as int),
    {
        let n = sector.len();
        sector[off] as u32 + sector[off + 1] as u32 * 256 + sector[off + 2] as u32 * 65536
            + sector[off + 3] as u32 * 16777216
    }

    /// All three signatures match.
    pub open spec fn spec_valid(self) -> bool {
        &&& self.lead_signature == 0x41615252u32
        &&& self.struc_signature == 0x61417272u32
        &&& self.trail_signature == 0xAA550000u32
    }

    /// Check the three signatures; a mismatch is a corrupted filesystem.
    pub fn validate(&self) -> (r: Result<(), FSError>)
        ensures
            r is Ok <==> self.spec_valid(),
            r is Err ==> r->Err_0 == FSError::CorruptedFileSystem,
    {
        if self.lead_signature != FSINFO_LEAD_SIGNATURE
            || self.struc_signature != FSINFO_STRUC_SIGNATURE
            || self.trail_signature != FSINFO_TRAIL_SIGNATURE {
            return Err(FSError::CorruptedFileSystem);
        }
        Ok(())
    }

    /// The sector words that `from_fsinfo` produces for given hints.
    pub open spec fn spec_from_fsinfo(fsinfo: FSInfo) -> FSInfoSector {
        FSInfoSector {
            lead_signature: 0x41615252u32,
            struc_signature: 0x61417272u32,
            free_cluster_count: match fsinfo.free_cluster_count {
                Some(n) => n,
                None => 0xFFFFFFFFu32,
            },
            next_free_cluster: match fsinfo.next_free_cluster {
                Some(n) => n,
                None => 0xFFFFFFFFu32,
            },
            trail_signature: 0xAA550000u32,
        }
    }

    /// Rebuild a sector image from in-memory hints, with fresh signatures.
    pub fn from_fsinfo(fsinfo: FSInfo) -> (r: Self)
        ensures
            r == Self::spec_from_fsinfo(fsinfo),
            r.spec_valid(),
    {
        FSInfoSector {
            lead_signature: FSINFO_LEAD_SIGNATURE,
            struc_signature: FSINFO_STRUC_SIGNATURE,
            free_cluster_count: match fsinfo.free_cluster_count {
                Some(n) => n,
                None => NO_INFORMATION,
            },
            next_free_cluster: match fsinfo.next_free_cluster {
                Some(n) => n,
                None => NO_INFORMATION,
            },
            trail_signature: FSINFO_TRAIL_SIGNATURE,
        }
    }

    /// Byte `i` of the serialized sector: the five little-endian words at
    /// their offsets, zero elsewhere.
    pub open spec fn spec_sector_byte(self, i: int) -> u8 {
        if 0 <= i < 4 {
            le32_byte(self.lead_signature, i)
        } else if 484 <= i < 488 {
            le32_byte(self.struc_signature, i - 484)
        } else if 488 <= i < 492 {
            le32_byte(self.free_cluster_count, i - 488)
        } else if 492 <= i < 496 {
            le32_byte(self.next_free_cluster, i - 492)
        } else if 508 <= i < 512 {
            le32_byte(self.trail_signature, i - 508)
        } else {
            0
        }
    }

    /// Serialize into a full sector of `sector_size` bytes.
    pub fn to_bytes(&self, sector_size: usize) -> (r: Vec<u8>)
        requires
            sector_size >= 512,
        ensures
            r@.len() == sector_size,
            forall|i: int| 0 <= i < sector_size ==> r@[i] == self.spec_sector_byte(i),
    {
        let mut v: Vec<u8> = Vec::new();
        let mut i: usize = 0;
        while i < sector_size
            invariant
                0 <= i <= sector_size,
                v@.len() == i,
                forall|k: int| 0 <= k < i ==> v@[k] == 0u8,
            decreases sector_size - i,
        {
            v.push(0u8);
            i = i + 1;
        }
        Self::put32(&mut v, 0, self.lead_signature);
        Self::put32(&mut v, 484, self.struc_signature);
        Self::put32(&mut v, 488, self.free_cluster_count);
        Self::put32(&mut v, 492, self.next_free_cluster);
        Self::put32(&mut v, 508, self.trail_signature);
        proof {
            assert forall|k: int| 0 <= k < sector_size implies v@[k] == self.spec_sector_byte(k)
            by {}
        }
        v
    }

    fn put32(v: &mut Vec<u8>, off: usize, x: u32)
        requires
            off + 4 <= old(v)@.len(),
        ensures
            final(v)@.len() == old(v)@.len(),
            forall|k: int|
                0 <= k < old(v)@.len() && !(off <= k < off + 4) ==> final(v)@[k] == old(v)@[k],
            forall|k: int| 0 <= k < 4 ==> final(v)@[off + k] == le32_byte(x, k),
    {
        let n = v.len();
        v.set(off, (x % 256) as u8);
        v.set(off + 1, ((x / 256) % 256) as u8);
        v.set(off + 2, ((x / 65536) % 256) as u8);
        v.set(off + 3, (x / 16777216) as u8);
    }

    /// The raw next-free word; 0xFFFFFFFF only means it is unknown.
    pub fn next_free_cluster_raw(&self) -> (r: u32)
        ensures
            r == self.next_free_cluster,
    {
        self.next_free_cluster
    }

    /// The raw free-count word; 0xFFFFFFFF only means it is unknown.
    pub fn free_clusters_raw(&self) -> (r: u32)
        ensures
            r == self.free_cluster_count,
    {
        self.free_cluster_count
    }
}

/// Parsing a serialized FSInfo sector yields the same five words back.
pub proof fn lemma_fsinfo_sector_roundtrip(f: FSInfoSector, s: Seq<u8>)
    requires
        s.len() >= 512,
        forall|i: int| 0 <= i < s.len() ==> s[i] == f.spec_sector_byte(i),
    ensures
        FSInfoSector::spec_parse(s) == f,
{
    crate::dir_entry::lemma_le32_reassemble(f.lead_signature);
    crate::dir_entry::lemma_le32_reassemble(f.struc_signature);
    crate::dir_entry::lemma_le32_reassemble(f.free_cluster_count);
    crate::dir_entry::lemma_le32_reassemble(f.next_free_cluster);
    crate::dir_entry::lemma_le32_reassemble(f.trail_signature);
}

} // verus!
