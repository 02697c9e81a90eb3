//! A bounded write-back cache of raw sectors, used for the metadata region
//! of the volume (boot, FSInfo, FAT).  The cache presents a view of each
//! sector: the cached bytes where a slot holds the sector, the device bytes
//! otherwise.  Every operation preserves that view except the writes, which
//! change it exactly where stated.

use vstd::prelude::*;
use crate::block_device::BlockDevice;
use crate::config::INFOSEC_CACHE_SZ;
use crate::dir_entry::{le32_at, le32_byte};

verus! {

/// One cache slot: a sector's bytes and a dirty flag.
pub struct BlockCache {
    pub sector_id: usize,
    pub cache: Vec<u8>,
    pub modified: bool,
}

impl BlockCache {
    /// Load a sector from the device into a fresh, clean slot.
    pub fn new<D: BlockDevice>(sector_id: usize, block_dev: &D) -> (r: Self)
        requires
            block_dev.inv(),
            sector_id < block_dev.spec_sectors().len(),
        ensures
            r.sector_id == sector_id,
            r.cache@ == block_dev.spec_sectors()[sector_id as int],
            !r.modified,
    {
        let cache = block_dev.read_block(sector_id);
        BlockCache { sector_id, cache, modified: false }
    }

    /// The cached bytes.
    pub fn get_cache_ref(&self) -> (r: &Vec<u8>)
        ensures
            r@ == self.cache@,
    {
        &self.cache
    }

    /// Copy `len` bytes starting at `offset` out of the slot.
    pub fn read(&self, offset: usize, len: usize) -> (r: Vec<u8>)
        requires
            offset + len <= self.cache@.len(),
        ensures
            r@.len() == len,
            forall|k: int| 0 <= k < len ==> r@[k] == self.cache@[offset + k],
    {
        let clen = self.cache.len();
        let mut r: Vec<u8> = Vec::new();
        let mut i: usize = 0;
        while i < len
            invariant
                0 <= i <= len,
                clen == self.cache@.len(),
                offset + len <= self.cache@.len(),
                r@.len() == i,
                forall|k: int| 0 <= k < i ==> r@[k] == self.cache@[offset + k],
            decreases len - i,
        {
            r.push(self.cache[offset + i]);
            i = i + 1;
        }
        r
    }

    /// Overwrite `src.len()` bytes starting at `offset` and mark the slot
    /// dirty.
    pub fn modify(&mut self, offset: usize, src: &Vec<u8>)
        requires
            offset + src@.len() <= old(self).cache@.len(),
        ensures
            final(self).sector_id == old(self).sector_id,
            final(self).modified,
            final(self).cache@.len() == old(self).cache@.len(),
            forall|k: int|
                0 <= k < old(self).cache@.len() ==> final(self).cache@[k] == if offset <= k
                    < offset + src@.len() {
                    src@[k - offset]
                } else {
                    old(self).cache@[k]
                },
    {
        let clen = self.cache.len();
        let n = src.len();
        let mut i: usize = 0;
        while i < n
            invariant
                0 <= i <= n,
                n == src@.len(),
                clen == self.cache@.len(),
                offset + n <= self.cache@.len(),
                self.sector_id == old(self).sector_id,
                self.modified == old(self).modified,
                self.cache@.len() == old(self).cache@.len(),
                forall|k: int|
                    0 <= k < self.cache@.len() ==> self.cache@[k] == if offset <= k < offset + i {
                        src@[k - offset]
                    } else {
                        old(self).cache@[k]
                    },
            decreases n - i,
        {
            self.cache.set(offset + i, src[i]);
            i = i + 1;
        }
        self.modified = true;
    }

    pub fn is_modify(&self) -> (r: bool)
        ensures
            r == self.modified,
    {
        self.modified
    }

    pub fn set_modify(&mut self)
        ensures
            *final(self) == (BlockCache { modified: true, ..*old(self) }),
    {
        self.modified = true;
    }

    /// Write the slot back to the device if dirty; afterwards the slot is
    /// clean and the device sector holds the cached bytes.
    pub fn sync<D: BlockDevice>(&mut self, block_dev: &mut D)
        requires
            old(block_dev).inv(),
            old(self).sector_id < old(block_dev).spec_sectors().len(),
            old(self).cache@.len() == old(block_dev).spec_sector_size(),
            !old(self).modified ==> old(self).cache@ == old(block_dev).spec_sectors()[old(
                self,
            ).sector_id as int],
        ensures
            final(block_dev).inv(),
            final(block_dev).spec_sector_size() == old(block_dev).spec_sector_size(),
            final(block_dev).spec_sectors().len() == old(block_dev).spec_sectors().len(),
            final(self).sector_id == old(self).sector_id,
            final(self).cache@ == old(self).cache@,
            !final(self).modified,
            final(block_dev).spec_sectors() == old(block_dev).spec_sectors().update(
                old(self).sector_id as int,
                old(self).cache@,
            ) || (!old(self).modified && final(block_dev).spec_sectors() == old(block_dev).spec_sectors()),
            final(block_dev).spec_sectors()[old(self).sector_id as int] == old(self).cache@,
    {
        proof {
            old(block_dev).lemma_inv();
        }
        if self.modified {
            self.modified = false;
            block_dev.write_block(self.sector_id, &self.cache);
        } else {
            proof {
                assert(old(block_dev).spec_sectors()[old(self).sector_id as int].len() == old(block_dev).spec_sector_size());
            }
        }
    }
}

/// A bounded cache of metadata sectors, all below `limit_sector`.
pub struct SectorCacheManager {
    pub sector_size: usize,
    pub limit_sector: usize,
    pub slots: Vec<BlockCache>,
}

impl SectorCacheManager {
    /// The cache is consistent with the device content `disk`.
    pub open spec fn spec_inv(self, disk: Seq<Seq<u8>>) -> bool {
        &&& self.sector_size > 0
        &&& self.limit_sector <= disk.len()
        &&& self.slots@.len() <= INFOSEC_CACHE_SZ
        &&& forall|i: int|
            0 <= i < self.slots@.len() ==> (#[trigger] self.slots@[i]).cache@.len()
                == self.sector_size
        &&& forall|i: int|
            0 <= i < self.slots@.len() ==> (#[trigger] self.slots@[i]).sector_id
                < self.limit_sector
        &&& forall|i: int, j: int|
            0 <= i < j < self.slots@.len() ==> (#[trigger] self.slots@[i]).sector_id != (
            #[trigger] self.slots@[j]).sector_id
        &&& forall|i: int|
            0 <= i < self.slots@.len() && !(#[trigger] self.slots@[i]).modified
                ==> self.slots@[i].cache@ == disk[self.slots@[i].sector_id as int]
    }

    /// Some slot holds sector `s`.
    pub open spec fn spec_cached(self, s: int) -> bool {
        exists|i: int| 0 <= i < self.slots@.len() && (#[trigger] self.slots@[i]).sector_id == s
    }

    /// The index of the slot holding sector `s`.
    pub open spec fn spec_slot(self, s: int) -> int {
        choose|i: int| 0 <= i < self.slots@.len() && (#[trigger] self.slots@[i]).sector_id == s
    }

    /// The current bytes of sector `s` as seen through the cache.
    pub open spec fn spec_sector_view(self, disk: Seq<Seq<u8>>, s: int) -> Seq<u8> {
        if self.spec_cached(s) {
            self.slots@[self.spec_slot(s)].cache@
        } else {
            disk[s]
        }
    }

    /// A slot holding sector `s` is the unique one `spec_slot` picks.
    pub proof fn lemma_slot_is(self, i: int, s: int)
        requires
            forall|i: int, j: int|
                0 <= i < j < self.slots@.len() ==> (#[trigger] self.slots@[i]).sector_id != (
                #[trigger] self.slots@[j]).sector_id,
            0 <= i < self.slots@.len(),
            self.slots@[i].sector_id == s,
        ensures
            self.spec_cached(s),
            self.spec_slot(s) == i,
    {
        assert(self.spec_cached(s));
        let j = self.spec_slot(s);
        if j != i {
            if j < i {
                assert(self.slots@[j].sector_id != self.slots@[i].sector_id);
            } else {
                assert(self.slots@[i].sector_id != self.slots@[j].sector_id);
            }
        }
    }

    /// An empty cache for sectors below `limit_sector`.
    pub fn new(sector_size: usize, limit_sector: usize) -> (r: Self)
        requires
            sector_size > 0,
        ensures
            r.sector_size == sector_size,
            r.limit_sector == limit_sector,
            r.slots@.len() == 0,
            forall|s: int| !r.spec_cached(s),
    {
        SectorCacheManager { sector_size, limit_sector, slots: Vec::new() }
    }

    /// The device fits this cache: matching sector size and enough sectors.
    pub open spec fn spec_dev_ok<D: BlockDevice>(self, dev: D) -> bool {
        &&& dev.inv()
        &&& dev.spec_sector_size() == self.sector_size
        &&& self.limit_sector <= dev.spec_sectors().len()
    }

    /// The view of every sector below the limit survives a change of the
    /// device that leaves the metadata region untouched.
    pub proof fn lemma_view_stable(self, disk1: Seq<Seq<u8>>, disk2: Seq<Seq<u8>>)
        requires
            self.spec_inv(disk1),
            disk2.len() == disk1.len(),
            forall|s: int| 0 <= s < self.limit_sector ==> disk2[s] == disk1[s],
        ensures
            self.spec_inv(disk2),
            forall|s: int|
                0 <= s < self.limit_sector ==> self.spec_sector_view(disk2, s)
                    == self.spec_sector_view(disk1, s),
    {
    }

    /// Find or load the slot for `sector_id`, evicting the oldest
    /// unpinned slot when full.  The view of every sector is unchanged;
    /// the device changes only below `limit_sector`.
    fn fetch<D: BlockDevice>(&mut self, dev: &mut D, sector_id: usize) -> (idx: usize)
        requires
            old(self).spec_inv(old(dev).spec_sectors()),
            old(self).spec_dev_ok(*old(dev)),
            sector_id < old(self).limit_sector,
        ensures
            final(self).spec_inv(final(dev).spec_sectors()),
            final(self).spec_dev_ok(*final(dev)),
            final(self).sector_size == old(self).sector_size,
            final(self).limit_sector == old(self).limit_sector,
            final(dev).spec_sectors().len() == old(dev).spec_sectors().len(),
            final(dev).spec_sector_size() == old(dev).spec_sector_size(),
            idx < final(self).slots@.len(),
            final(self).slots@[idx as int].sector_id == sector_id,
            forall|s: int|
                0 <= s < old(dev).spec_sectors().len() ==> final(self).spec_sector_view(
                    final(dev).spec_sectors(),
                    s,
                ) == old(self).spec_sector_view(old(dev).spec_sectors(), s),
            forall|s: int|
                old(self).limit_sector <= s < old(dev).spec_sectors().len() ==> final(dev).spec_sectors()[s] == old(dev).spec_sectors()[s],
    {
        proof {
            old(dev).lemma_inv();
        }
        let ghost disk0 = old(dev).spec_sectors();
        let n = self.slots.len();
        let mut i: usize = 0;
        while i < n
            invariant
                n == self.slots@.len(),
                0 <= i <= n,
                forall|k: int| 0 <= k < i ==> (#[trigger] self.slots@[k]).sector_id != sector_id,
                *self == *old(self),
                *dev == *old(dev),
                self.spec_inv(dev.spec_sectors()),
                self.spec_dev_ok(*dev),
                sector_id < self.limit_sector,
            decreases n - i,
        {
            if self.slots[i].sector_id == sector_id {
                proof {
                    self.lemma_slot_is(i as int, sector_id as int);
                }
                return i;
            }
            i = i + 1;
        }
        // miss: make room if the cache is full
        if self.slots.len() == INFOSEC_CACHE_SZ {
            let victim_id = self.slots[0].sector_id;
            let ghost victim_bytes = self.slots@[0].cache@;
            proof {
                self.lemma_slot_is(0, victim_id as int);
            }
            {
                let victim = &mut self.slots[0];
                victim.sync(dev);
            }
            proof {
                assert(self.slots@[0].cache@ == victim_bytes);
                assert(dev.spec_sectors()[victim_id as int] == victim_bytes);
                // views are unchanged: cached sectors keep their bytes, and
                // the one written sector was cached
                assert forall|s: int| 0 <= s < disk0.len() implies self.spec_sector_view(
                    dev.spec_sectors(),
                    s,
                ) == old(self).spec_sector_view(disk0, s) by {
                    assert(self.slots@.len() == old(self).slots@.len());
                    assert(forall|k: int|
                        0 <= k < self.slots@.len() ==> (#[trigger] self.slots@[k]).sector_id == old(self).slots@[k].sector_id && self.slots@[k].cache@ == old(self).slots@[k].cache@);
                    if old(self).spec_cached(s) {
                        let k = old(self).spec_slot(s);
                        old(self).lemma_slot_is(k, s);
                        self.lemma_slot_is(k, s);
                    } else {
                        assert(!self.spec_cached(s));
                        if s != victim_id {
                            assert(dev.spec_sectors()[s] == disk0[s]);
                        } else {
                            assert(old(self).slots@[0].sector_id == s);
                            assert(old(self).spec_cached(s));
                        }
                    }
                }
            }
            let evicted = self.slots.remove(0);
            proof {
                let ghost pre = *old(self);
                let ghost mid_slots = self.slots@.insert(0, evicted);
                assert forall|s: int| 0 <= s < disk0.len() implies self.spec_sector_view(
                    dev.spec_sectors(),
                    s,
                ) == old(self).spec_sector_view(disk0, s) by {
                    if self.spec_cached(s) {
                        let k = self.spec_slot(s);
                        self.lemma_slot_is(k, s);
                        old(self).lemma_slot_is(k + 1, s);
                        assert(old(self).slots@[k + 1].cache@ == self.slots@[k].cache@);
                    } else {
                        if s == victim_id {
                            assert(dev.spec_sectors()[s] == victim_bytes);
                            old(self).lemma_slot_is(0, s);
                        } else {
                            if old(self).spec_cached(s) {
                                let k = old(self).spec_slot(s);
                                old(self).lemma_slot_is(k, s);
                                assert(k != 0);
                                assert(self.slots@[k - 1].sector_id == s);
                                self.lemma_slot_is(k - 1, s);
                                assert(false);
                            }
                            assert(dev.spec_sectors()[s] == disk0[s]);
                        }
                    }
                }
            }
        }
        let ghost mid = *self;
        let ghost middisk = dev.spec_sectors();
        let slot = BlockCache::new(sector_id, dev);
        self.slots.push(slot);
        let idx = self.slots.len() - 1;
        proof {
            assert(forall|k: int|
                0 <= k < mid.slots@.len() ==> self.slots@[k] == mid.slots@[k]);
            assert(self.slots@[idx as int].sector_id == sector_id);
            self.lemma_slot_is(idx as int, sector_id as int);
            assert forall|s: int| 0 <= s < disk0.len() implies self.spec_sector_view(
                dev.spec_sectors(),
                s,
            ) == mid.spec_sector_view(middisk, s) by {
                if s == sector_id {
                    assert(!mid.spec_cached(s));
                    assert(self.spec_sector_view(dev.spec_sectors(), s) == middisk[s]);
                } else {
                    if mid.spec_cached(s) {
                        let k = mid.spec_slot(s);
                        mid.lemma_slot_is(k, s);
                        self.lemma_slot_is(k, s);
                    } else {
                        assert(!self.spec_cached(s)) by {
                            if self.spec_cached(s) {
                                let k = self.spec_slot(s);
                                self.lemma_slot_is(k, s);
                                assert(k < idx ==> mid.slots@[k].sector_id == s);
                            }
                        }
                    }
                }
            }
        }
        idx
    }

    /// Read the 32-bit little-endian word at `offset` of sector
    /// `sector_id`, as the cache view has it.
    pub fn read_u32<D: BlockDevice>(&mut self, dev: &mut D, sector_id: usize, offset: usize) -> (r:
        u32)
        requires
            old(self).spec_inv(old(dev).spec_sectors()),
            old(self).spec_dev_ok(*old(dev)),
            sector_id < old(self).limit_sector,
            offset + 4 <= old(self).sector_size,
        ensures
            final(self).spec_inv(final(dev).spec_sectors()),
            final(self).spec_dev_ok(*final(dev)),
            final(self).sector_size == old(self).sector_size,
            final(self).limit_sector == old(self).limit_sector,
            final(dev).spec_sectors().len() == old(dev).spec_sectors().len(),
            final(dev).spec_sector_size() == old(dev).spec_sector_size(),
            r == le32_at(
                old(self).spec_sector_view(old(dev).spec_sectors(), sector_id as int),
                offset as int,
            ),
            forall|s: int|
                0 <= s < old(dev).spec_sectors().len() ==> final(self).spec_sector_view(
                    final(dev).spec_sectors(),
                    s,
                ) == old(self).spec_sector_view(old(dev).spec_sectors(), s),
            forall|s: int|
                old(self).limit_sector <= s < old(dev).spec_sectors().len() ==> final(dev).spec_sectors()[s] == old(dev).spec_sectors()[s],
    {
        let idx = self.fetch(dev, sector_id);
        let slot = &self.slots[idx];
        let b = slot.read(offset, 4);
        proof {
            assert(self.slots@[idx as int].sector_id == sector_id);
            self.lemma_slot_is(idx as int, sector_id as int);
            assert(slot.cache@ == self.spec_sector_view(dev.spec_sectors(), sector_id as int));
        }
        b[0] as u32 + b[1] as u32 * 256 + b[2] as u32 * 65536 + b[3] as u32 * 16777216
    }

    /// Write the 32-bit little-endian word at `offset` of sector
    /// `sector_id`.  Only that sector's view changes, and only in those
    /// four bytes.
    pub fn write_u32<D: BlockDevice>(
        &mut self,
        dev: &mut D,
        sector_id: usize,
        offset: usize,
        value: u32,
    )
        requires
            old(self).spec_inv(old(dev).spec_sectors()),
            old(self).spec_dev_ok(*old(dev)),
            sector_id < old(self).limit_sector,
            offset + 4 <= old(self).sector_size,
        ensures
            final(self).spec_inv(final(dev).spec_sectors()),
            final(self).spec_dev_ok(*final(dev)),
            final(self).sector_size == old(self).sector_size,
            final(self).limit_sector == old(self).limit_sector,
            final(dev).spec_sectors().len() == old(dev).spec_sectors().len(),
            final(dev).spec_sector_size() == old(dev).spec_sector_size(),
            final(self).spec_sector_view(final(dev).spec_sectors(), sector_id as int).len()
                == old(self).sector_size,
            forall|k: int|
                0 <= k < old(self).sector_size ==> final(self).spec_sector_view(
                    final(dev).spec_sectors(),
                    sector_id as int,
                )[k] == if offset <= k < offset + 4 {
                    le32_byte(value, k - offset)
                } else {
                    old(self).spec_sector_view(old(dev).spec_sectors(), sector_id as int)[k]
                },
            forall|s: int|
                0 <= s < old(dev).spec_sectors().len() && s != sector_id ==> final(self).spec_sector_view(final(dev).spec_sectors(), s) == old(self).spec_sector_view(
                    old(dev).spec_sectors(),
                    s,
                ),
            forall|s: int|
                old(self).limit_sector <= s < old(dev).spec_sectors().len() ==> final(dev).spec_sectors()[s] == old(dev).spec_sectors()[s],
    {
        let idx = self.fetch(dev, sector_id);
        let ghost mid = *self;
        let ghost middisk = dev.spec_sectors();
        let mut bytes: Vec<u8> = Vec::new();
        bytes.push((value % 256) as u8);
        bytes.push(((value / 256) % 256) as u8);
        bytes.push(((value / 65536) % 256) as u8);
        bytes.push((value / 16777216) as u8);
        {
            let slot = &mut self.slots[idx];
            slot.modify(offset, &bytes);
        }
        proof {
            assert(bytes@.len() == 4);
            assert(forall|k: int| 0 <= k < 4 ==> bytes@[k] == le32_byte(value, k));
            assert(self.slots@[idx as int].sector_id == sector_id);
            self.lemma_slot_is(idx as int, sector_id as int);
            mid.lemma_slot_is(idx as int, sector_id as int);
            assert forall|s: int|
                0 <= s < middisk.len() && s != sector_id implies self.spec_sector_view(
                dev.spec_sectors(),
                s,
            ) == mid.spec_sector_view(middisk, s) by {
                if mid.spec_cached(s) {
                    let k = mid.spec_slot(s);
                    mid.lemma_slot_is(k, s);
                    self.lemma_slot_is(k, s);
                    assert(k != idx);
                } else {
                    assert(!self.spec_cached(s)) by {
                        if self.spec_cached(s) {
                            let k = self.spec_slot(s);
                            self.lemma_slot_is(k, s);
                            assert(mid.slots@[k].sector_id == s);
                        }
                    }
                }
            }
        }
    }

    /// Replace the whole content of sector `sector_id` in the cache.
    pub fn write_sector<D: BlockDevice>(&mut self, dev: &mut D, sector_id: usize, src: &Vec<u8>)
        requires
            old(self).spec_inv(old(dev).spec_sectors()),
            old(self).spec_dev_ok(*old(dev)),
            sector_id < old(self).limit_sector,
            src@.len() == old(self).sector_size,
        ensures
            final(self).spec_inv(final(dev).spec_sectors()),
            final(self).spec_dev_ok(*final(dev)),
            final(self).sector_size == old(self).sector_size,
            final(self).limit_sector == old(self).limit_sector,
            final(dev).spec_sectors().len() == old(dev).spec_sectors().len(),
            final(dev).spec_sector_size() == old(dev).spec_sector_size(),
            final(self).spec_sector_view(final(dev).spec_sectors(), sector_id as int) == src@,
            forall|s: int|
                0 <= s < old(dev).spec_sectors().len() && s != sector_id ==> final(self).spec_sector_view(final(dev).spec_sectors(), s) == old(self).spec_sector_view(
                    old(dev).spec_sectors(),
                    s,
                ),
            forall|s: int|
                old(self).limit_sector <= s < old(dev).spec_sectors().len() ==> final(dev).spec_sectors()[s] == old(dev).spec_sectors()[s],
    {
        let idx = self.fetch(dev, sector_id);
        let ghost mid = *self;
        let ghost middisk = dev.spec_sectors();
        {
            let slot = &mut self.slots[idx];
            slot.modify(0, src);
        }
        proof {
            assert(self.slots@[idx as int].sector_id == sector_id);
            self.lemma_slot_is(idx as int, sector_id as int);
            mid.lemma_slot_is(idx as int, sector_id as int);
            assert(self.spec_sector_view(dev.spec_sectors(), sector_id as int) =~= src@);
            assert forall|s: int|
                0 <= s < middisk.len() && s != sector_id implies self.spec_sector_view(
                dev.spec_sectors(),
                s,
            ) == mid.spec_sector_view(middisk, s) by {
                if mid.spec_cached(s) {
                    let k = mid.spec_slot(s);
                    mid.lemma_slot_is(k, s);
                    self.lemma_slot_is(k, s);
                    assert(k != idx);
                } else {
                    assert(!self.spec_cached(s)) by {
                        if self.spec_cached(s) {
                            let k = self.spec_slot(s);
                            self.lemma_slot_is(k, s);
                            assert(mid.slots@[k].sector_id == s);
                        }
                    }
                }
            }
        }
    }

    /// Write every dirty slot back.  Views are unchanged and afterwards
    /// the device itself holds the view of every sector below the limit.
    pub fn flush_all<D: BlockDevice>(&mut self, dev: &mut D)
        requires
            old(self).spec_inv(old(dev).spec_sectors()),
            old(self).spec_dev_ok(*old(dev)),
        ensures
            final(self).spec_inv(final(dev).spec_sectors()),
            final(self).spec_dev_ok(*final(dev)),
            final(self).sector_size == old(self).sector_size,
            final(self).limit_sector == old(self).limit_sector,
            final(dev).spec_sectors().len() == old(dev).spec_sectors().len(),
            final(dev).spec_sector_size() == old(dev).spec_sector_size(),
            forall|s: int|
                0 <= s < old(dev).spec_sectors().len() ==> final(self).spec_sector_view(
                    final(dev).spec_sectors(),
                    s,
                ) == old(self).spec_sector_view(old(dev).spec_sectors(), s),
            forall|s: int|
                0 <= s < old(self).limit_sector ==> final(dev).spec_sectors()[s] == old(self).spec_sector_view(old(dev).spec_sectors(), s),
            forall|s: int|
                old(self).limit_sector <= s < old(dev).spec_sectors().len() ==> final(dev).spec_sectors()[s] == old(dev).spec_sectors()[s],
    {
        proof {
            old(dev).lemma_inv();
        }
        let n = self.slots.len();
        let mut i: usize = 0;
        while i < n
            invariant
                n == self.slots@.len(),
                0 <= i <= n,
                self.spec_inv(dev.spec_sectors()),
                self.spec_dev_ok(*dev),
                self.sector_size == old(self).sector_size,
                self.limit_sector == old(self).limit_sector,
                dev.spec_sectors().len() == old(dev).spec_sectors().len(),
                dev.spec_sector_size() == old(dev).spec_sector_size(),
                forall|k: int|
                    0 <= k < n ==> (#[trigger] self.slots@[k]).sector_id == old(self).slots@[k].sector_id && self.slots@[k].cache@ == old(self).slots@[k].cache@,
                forall|k: int| 0 <= k < i ==> !(#[trigger] self.slots@[k]).modified,
                forall|s: int|
                    0 <= s < old(dev).spec_sectors().len() ==> self.spec_sector_view(
                        dev.spec_sectors(),
                        s,
                    ) == old(self).spec_sector_view(old(dev).spec_sectors(), s),
                forall|s: int|
                    old(self).limit_sector <= s < old(dev).spec_sectors().len()
                        ==> dev.spec_sectors()[s] == old(dev).spec_sectors()[s],
            decreases n - i,
        {
            let ghost pre = *self;
            let ghost predisk = dev.spec_sectors();
            let sid = self.slots[i].sector_id;
            {
                let slot = &mut self.slots[i];
                slot.sync(dev);
            }
            proof {
                self.lemma_slot_is(i as int, sid as int);
                pre.lemma_slot_is(i as int, sid as int);
                assert forall|s: int| 0 <= s < predisk.len() implies self.spec_sector_view(
                    dev.spec_sectors(),
                    s,
                ) == pre.spec_sector_view(predisk, s) by {
                    if pre.spec_cached(s) {
                        let k = pre.spec_slot(s);
                        pre.lemma_slot_is(k, s);
                        self.lemma_slot_is(k, s);
                    } else {
                        assert(!self.spec_cached(s)) by {
                            if self.spec_cached(s) {
                                let k = self.spec_slot(s);
                                self.lemma_slot_is(k, s);
                                assert(pre.slots@[k].sector_id == s);
                            }
                        }
                        assert(s != sid);
                        assert(dev.spec_sectors()[s] == predisk[s]);
                    }
                }
            }
            i = i + 1;
        }
        proof {
            // after the loop every slot is clean, so the invariant makes the
            // device agree with the view on every cached sector
            assert forall|s: int| 0 <= s < old(self).limit_sector implies dev.spec_sectors()[s]
                == old(self).spec_sector_view(old(dev).spec_sectors(), s) by {
                if self.spec_cached(s) {
                    let k = self.spec_slot(s);
                    self.lemma_slot_is(k, s);
                    assert(!self.slots@[k].modified);
                    assert(dev.spec_sectors()[s] == self.slots@[k].cache@);
                } else {
                    if old(self).spec_cached(s) {
                        let k = old(self).spec_slot(s);
                        old(self).lemma_slot_is(k, s);
                        assert(self.slots@[k].sector_id == s);
                        self.lemma_slot_is(k, s);
                        assert(false);
                    }
                }
            }
        }
    }
}

} // verus!
