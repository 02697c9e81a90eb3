//! The block device the filesystem is layered over: fixed-size sectors,
//! read and written whole.  `RamDisk` is a verified in-memory device.

use vstd::prelude::*;

verus! {

/// A device of uniformly sized sectors.  The filesystem reads and writes
/// whole sectors; a mount requires the device's sector size to equal the
/// volume's bytes-per-sector.
pub trait BlockDevice: Sized {
    /// The device is in a usable state.
    spec fn inv(&self) -> bool;

    /// Size in bytes of every sector.
    spec fn spec_sector_size(&self) -> nat;

    /// The current content of the device, one sequence per sector.
    spec fn spec_sectors(&self) -> Seq<Seq<u8>>;

    /// Every sector of a usable device has exactly `spec_sector_size` bytes.
    proof fn lemma_inv(&self)
        requires
            self.inv(),
        ensures
            forall|i: int|
                0 <= i < self.spec_sectors().len() ==> (#[trigger] self.spec_sectors()[i]).len()
                    == self.spec_sector_size(),
            self.spec_sector_size() > 0,
    ;

    fn sector_size(&self) -> (r: usize)
        requires
            self.inv(),
        ensures
            r == self.spec_sector_size(),
    ;

    fn num_sectors(&self) -> (r: usize)
        requires
            self.inv(),
        ensures
            r == self.spec_sectors().len(),
    ;

    /// Read one whole sector.
    fn read_block(&self, block_id: usize) -> (buf: Vec<u8>)
        requires
            self.inv(),
            block_id < self.spec_sectors().len(),
        ensures
            buf@ == self.spec_sectors()[block_id as int],
    ;

    /// Overwrite one whole sector.
    fn write_block(&mut self, block_id: usize, buf: &Vec<u8>)
        requires
            old(self).inv(),
            block_id < old(self).spec_sectors().len(),
            buf@.len() == old(self).spec_sector_size(),
        ensures
            final(self).inv(),
            final(self).spec_sector_size() == old(self).spec_sector_size(),
            final(self).spec_sectors() == old(self).spec_sectors().update(block_id as int, buf@),
    ;
}

/// An in-memory block device: a vector of equally sized sectors.
pub struct RamDisk {
    pub sector_size: usize,
    pub sectors: Vec<Vec<u8>>,
}

impl RamDisk {
    /// A device of `count` zero-filled sectors of `sector_size` bytes each.
    pub fn new(sector_size: usize, count: usize) -> (r: Self)
        requires
            sector_size > 0,
        ensures
            r.inv(),
            r.spec_sector_size() == sector_size,
            r.spec_sectors().len() == count,
            forall|i: int, j: int|
                0 <= i < count && 0 <= j < sector_size ==> #[trigger] r.spec_sectors()[i][j]
                    == 0u8,
    {
        let mut sectors: Vec<Vec<u8>> = Vec::new();
        let mut i: usize = 0;
        while i < count
            invariant
                0 <= i <= count,
                sectors@.len() == i,
                forall|k: int|
                    0 <= k < i ==> (#[trigger] sectors@[k])@.len() == sector_size,
                forall|k: int, j: int|
                    0 <= k < i && 0 <= j < sector_size ==> #[trigger] sectors@[k]@[j] == 0u8,
            decreases count - i,
        {
            let mut sector: Vec<u8> = Vec::new();
            let mut j: usize = 0;
            while j < sector_size
                invariant
                    0 <= j <= sector_size,
                    sector@.len() == j,
                    forall|k: int| 0 <= k < j ==> sector@[k] == 0u8,
                decreases sector_size - j,
            {
                sector.push(0u8);
                j = j + 1;
            }
            sectors.push(sector);
            i = i + 1;
        }
        RamDisk { sector_size, sectors }
    }
}

impl BlockDevice for RamDisk {
    open spec fn inv(&self) -> bool {
        &&& self.sector_size > 0
        &&& forall|i: int|
            0 <= i < self.sectors@.len() ==> (#[trigger] self.sectors@[i])@.len()
                == self.sector_size
    }

    open spec fn spec_sector_size(&self) -> nat {
        self.sector_size as nat
    }

    open spec fn spec_sectors(&self) -> Seq<Seq<u8>> {
        self.sectors.deep_view()
    }

    proof fn lemma_inv(&self) {
        assert forall|i: int| 0 <= i < self.spec_sectors().len() implies (
        #[trigger] self.spec_sectors()[i]).len() == self.spec_sector_size() by {
            assert(self.spec_sectors()[i] == self.sectors@[i]@);
        }
    }

    fn sector_size(&self) -> (r: usize) {
        self.sector_size
    }

    fn num_sectors(&self) -> (r: usize) {
        self.sectors.len()
    }

    fn read_block(&self, block_id: usize) -> (buf: Vec<u8>) {
        let src = &self.sectors[block_id];
        let n = src.len();
        let mut buf: Vec<u8> = Vec::new();
        let mut i: usize = 0;
        while i < n
            invariant
                0 <= i <= n,
                n == src@.len(),
                buf@.len() == i,
                forall|k: int| 0 <= k < i ==> buf@[k] == src@[k],
            decreases n - i,
        {
            buf.push(src[i]);
            i = i + 1;
        }
        proof {
            assert(buf@ =~= src@);
            assert(self.spec_sectors()[block_id as int] == self.sectors@[block_id as int]@);
        }
        buf
    }

    fn write_block(&mut self, block_id: usize, buf: &Vec<u8>) {
        let n = buf.len();
        let mut sector: Vec<u8> = Vec::new();
        let mut i: usize = 0;
        while i < n
            invariant
                0 <= i <= n,
                n == buf@.len(),
                sector@.len() == i,
                forall|k: int| 0 <= k < i ==> sector@[k] == buf@[k],
            decreases n - i,
        {
            sector.push(buf[i]);
            i = i + 1;
        }
        proof {
            assert(sector@ =~= buf@);
        }
        self.sectors.set(block_id, sector);
        proof {
            assert(self.spec_sectors() =~~= old(self).spec_sectors().update(
                block_id as int,
                buf@,
            ));
        }
    }
}

} // verus!
