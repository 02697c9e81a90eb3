//! A bounded write-back cache of whole data clusters.  A cluster's backing
//! sectors start at `first_data_sector + (id - 2) * sectors_per_cluster`.
//! The cache presents a view of each cluster: the cached bytes where a slot
//! holds it, the device bytes otherwise; operations preserve that view
//! except the writes, which change it exactly where stated.

use vstd::prelude::*;
use crate::block_device::BlockDevice;
use crate::config::DATACLU_CACHE_SZ;
use crate::fat32::BiosParameterBlock;
use vstd::arithmetic::div_mod::lemma_fundamental_div_mod_converse;
use vstd::arithmetic::mul::lemma_mul_inequality;

verus! {

/// First sector backing cluster `c`.
pub open spec fn spec_first_sector_of(bpb: BiosParameterBlock, c: int) -> int {
    bpb.spec_first_data_sector() + (c - 2) * bpb.sectors_per_cluster as int
}

/// Byte `j` of cluster `c` as stored on the device.
pub open spec fn spec_cluster_disk_byte(
    bpb: BiosParameterBlock,
    disk: Seq<Seq<u8>>,
    c: int,
    j: int,
) -> u8 {
    disk[spec_first_sector_of(bpb, c) + j / bpb.bytes_per_sector as int][j
        % bpb.bytes_per_sector as int]
}

/// The whole content of cluster `c` as stored on the device.
pub open spec fn spec_cluster_disk(bpb: BiosParameterBlock, disk: Seq<Seq<u8>>, c: int) -> Seq<
    u8,
> {
    Seq::new(bpb.spec_cluster_size() as nat, |j: int| spec_cluster_disk_byte(bpb, disk, c, j))
}

/// A cluster id addressing the data region: in `[2, total_clusters + 2)`.
pub open spec fn spec_cluster_in_range(bpb: BiosParameterBlock, c: int) -> bool {
    2 <= c < bpb.spec_total_clusters() + 2
}

/// The sectors of an in-range cluster lie inside the data region.
pub proof fn lemma_cluster_sector_in_range(bpb: BiosParameterBlock, c: int, k: int)
    requires
        bpb.spec_valid(),
        spec_cluster_in_range(bpb, c),
        0 <= k < bpb.sectors_per_cluster as int,
    ensures
        bpb.spec_first_data_sector() <= spec_first_sector_of(bpb, c) + k,
        spec_first_sector_of(bpb, c) + k < bpb.spec_first_data_sector()
            + bpb.spec_total_clusters() * bpb.sectors_per_cluster as int,
        spec_first_sector_of(bpb, c) + k < bpb.total_sectors as int,
        bpb.spec_first_data_sector() + bpb.spec_total_clusters() * bpb.sectors_per_cluster as int
            <= bpb.total_sectors as int,
{
    let spc = bpb.sectors_per_cluster as int;
    let tc = bpb.spec_total_clusters();
    let fds = bpb.spec_first_data_sector();
    assert((c - 2) * spc >= 0) by (nonlinear_arith)
        requires
            c >= 2,
            spc > 0,
    ;
    lemma_mul_inequality(c - 2, tc - 1, spc);
    assert((tc - 1) * spc + spc == tc * spc) by (nonlinear_arith);
    assert(tc * spc <= bpb.total_sectors as int - fds) by {
        vstd::arithmetic::div_mod::lemma_fundamental_div_mod(bpb.total_sectors as int - fds, spc);
        assert(tc == (bpb.total_sectors as int - fds) / spc);
        vstd::arithmetic::div_mod::lemma_mod_bound(bpb.total_sectors as int - fds, spc);
    }
}

/// Different in-range clusters occupy disjoint sectors.
pub proof fn lemma_clusters_disjoint(bpb: BiosParameterBlock, c1: int, c2: int, k1: int, k2: int)
    requires
        bpb.spec_valid(),
        spec_cluster_in_range(bpb, c1),
        spec_cluster_in_range(bpb, c2),
        c1 != c2,
        0 <= k1 < bpb.sectors_per_cluster as int,
        0 <= k2 < bpb.sectors_per_cluster as int,
    ensures
        spec_first_sector_of(bpb, c1) + k1 != spec_first_sector_of(bpb, c2) + k2,
{
    let spc = bpb.sectors_per_cluster as int;
    assert((c1 - 2) * spc + k1 != (c2 - 2) * spc + k2) by (nonlinear_arith)
        requires
            c1 != c2,
            0 <= k1 < spc,
            0 <= k2 < spc,
            spc > 0,
    ;
}

/// Device bytes of cluster `c` survive any change outside its own sectors.
pub proof fn lemma_cluster_disk_stable(
    bpb: BiosParameterBlock,
    disk1: Seq<Seq<u8>>,
    disk2: Seq<Seq<u8>>,
    c: int,
)
    requires
        bpb.spec_valid(),
        spec_cluster_in_range(bpb, c),
        disk2.len() == disk1.len(),
        disk1.len() >= bpb.spec_first_data_sector() + bpb.spec_total_clusters()
            * bpb.sectors_per_cluster as int,
        forall|k: int|
            0 <= k < bpb.sectors_per_cluster as int ==> #[trigger] disk2[spec_first_sector_of(
                bpb,
                c,
            ) + k] == disk1[spec_first_sector_of(bpb, c) + k],
    ensures
        spec_cluster_disk(bpb, disk2, c) == spec_cluster_disk(bpb, disk1, c),
{
    let ssz = bpb.bytes_per_sector as int;
    assert forall|j: int| 0 <= j < bpb.spec_cluster_size() implies spec_cluster_disk_byte(
        bpb,
        disk2,
        c,
        j,
    ) == spec_cluster_disk_byte(bpb, disk1, c, j) by {
        vstd::arithmetic::div_mod::lemma_fundamental_div_mod(j, ssz);
        vstd::arithmetic::div_mod::lemma_mod_bound(j, ssz);
        assert(0 <= j / ssz < bpb.sectors_per_cluster as int) by (nonlinear_arith)
            requires
                0 <= j < bpb.spec_cluster_size(),
                bpb.spec_cluster_size() == ssz * bpb.sectors_per_cluster as int,
                ssz > 0,
                j / ssz * ssz + j % ssz == j,
                0 <= j % ssz < ssz,
        ;
    }
    assert(spec_cluster_disk(bpb, disk2, c) =~= spec_cluster_disk(bpb, disk1, c));
}

/// When the device changes only inside one cluster's sectors, every other
/// cluster's device bytes are unchanged.
pub proof fn lemma_other_clusters_stable(
    bpb: BiosParameterBlock,
    disk1: Seq<Seq<u8>>,
    disk2: Seq<Seq<u8>>,
    c0: int,
)
    requires
        bpb.spec_valid(),
        spec_cluster_in_range(bpb, c0),
        disk2.len() == disk1.len(),
        disk1.len() >= bpb.total_sectors as int,
        forall|s: int|
            0 <= s < disk1.len() && !(spec_first_sector_of(bpb, c0) <= s < spec_first_sector_of(
                bpb,
                c0,
            ) + bpb.sectors_per_cluster as int) ==> disk2[s] == disk1[s],
    ensures
        forall|c: int|
            spec_cluster_in_range(bpb, c) && c != c0 ==> spec_cluster_disk(bpb, disk2, c)
                == spec_cluster_disk(bpb, disk1, c),
{
    assert forall|c: int| spec_cluster_in_range(bpb, c) && c != c0 implies spec_cluster_disk(
        bpb,
        disk2,
        c,
    ) == spec_cluster_disk(bpb, disk1, c) by {
        lemma_cluster_sector_in_range(bpb, c, 0);
        assert forall|k: int|
            0 <= k < bpb.sectors_per_cluster as int implies #[trigger] disk2[spec_first_sector_of(
            bpb,
            c,
        ) + k] == disk1[spec_first_sector_of(bpb, c) + k] by {
            lemma_cluster_sector_in_range(bpb, c, k);
            let s = spec_first_sector_of(bpb, c) + k;
            let fv = spec_first_sector_of(bpb, c0);
            if fv <= s < fv + bpb.sectors_per_cluster as int {
                lemma_clusters_disjoint(bpb, c, c0, k, s - fv);
            }
        }
        lemma_cluster_disk_stable(bpb, disk1, disk2, c);
    }
}

/// One cache slot: a whole cluster's bytes and a dirty flag.
pub struct ClusterCache {
    pub cluster_id: usize,
    pub cache: Vec<u8>,
    pub modified: bool,
}

impl ClusterCache {
    /// Load a cluster from the device into a fresh, clean slot.
    pub fn new<D: BlockDevice>(cluster_id: usize, block_dev: &D, bpb: &BiosParameterBlock) -> (r:
        Self)
        requires
            bpb.spec_valid(),
            spec_cluster_in_range(*bpb, cluster_id as int),
            block_dev.inv(),
            block_dev.spec_sector_size() == bpb.bytes_per_sector as nat,
            block_dev.spec_sectors().len() >= bpb.total_sectors as int,
        ensures
            r.cluster_id == cluster_id,
            r.cache@ == spec_cluster_disk(*bpb, block_dev.spec_sectors(), cluster_id as int),
            !r.modified,
    {
        proof {
            block_dev.lemma_inv();
        }
        let ghost disk = block_dev.spec_sectors();
        let ssz: usize = bpb.bytes_per_sector() as usize;
        let spc: usize = bpb.sectors_per_cluster() as usize;
        let num = block_dev.num_sectors();
        proof {
            vstd::arithmetic::mul::lemma_mul_upper_bound(
                cluster_id as int - 2,
                0x0FFFFFF3,
                spc as int,
                128,
            );
        }
        let first64: u64 = bpb.first_data_sector() as u64 + (cluster_id as u64 - 2) * spc as u64;
        proof {
            lemma_cluster_sector_in_range(*bpb, cluster_id as int, 0);
            assert(first64 == spec_first_sector_of(*bpb, cluster_id as int));
        }
        let first: usize = first64 as usize;
        let mut cache: Vec<u8> = Vec::new();
        let mut k: usize = 0;
        while k < spc
            invariant
                0 <= k <= spc,
                ssz == bpb.bytes_per_sector as int,
                spc == bpb.sectors_per_cluster as int,
                bpb.spec_valid(),
                spec_cluster_in_range(*bpb, cluster_id as int),
                block_dev.inv(),
                block_dev.spec_sector_size() == bpb.bytes_per_sector as nat,
                block_dev.spec_sectors() == disk,
                disk.len() >= bpb.total_sectors as int,
                first == spec_first_sector_of(*bpb, cluster_id as int),
                cache@.len() == k * ssz,
                forall|j: int|
                    0 <= j < k * ssz ==> cache@[j] == spec_cluster_disk_byte(
                        *bpb,
                        disk,
                        cluster_id as int,
                        j,
                    ),
            decreases spc - k,
        {
            proof {
                block_dev.lemma_inv();
                lemma_cluster_sector_in_range(*bpb, cluster_id as int, k as int);
                lemma_mul_inequality(k as int + 1, spc as int, ssz as int);
                assert((k + 1) * ssz == k * ssz + ssz) by (nonlinear_arith);
                assert(first + k < block_dev.spec_sectors().len());
                assert(block_dev.spec_sectors()[first + k].len() == ssz);
            }
            let sector = block_dev.read_block(first + k);
            let mut i: usize = 0;
            while i < ssz
                invariant
                    0 <= i <= ssz,
                    ssz == bpb.bytes_per_sector as int,
                    sector@.len() == ssz,
                    sector@ == disk[first + k],
                    bpb.spec_valid(),
                    spec_cluster_in_range(*bpb, cluster_id as int),
                    first == spec_first_sector_of(*bpb, cluster_id as int),
                    0 <= k < bpb.sectors_per_cluster as int,
                    cache@.len() == k * ssz + i,
                    k * ssz + ssz <= bpb.spec_cluster_size(),
                    forall|j: int|
                        0 <= j < k * ssz ==> cache@[j] == spec_cluster_disk_byte(
                            *bpb,
                            disk,
                            cluster_id as int,
                            j,
                        ),
                    forall|j: int|
                        k * ssz <= j < k * ssz + i ==> cache@[j] == sector@[j - k * ssz],
                decreases ssz - i,
            {
                cache.push(sector[i]);
                i = i + 1;
            }
            k = k + 1;
        }
        proof {
            assert(cache@.len() == spc * ssz);
            assert(spc * ssz == bpb.spec_cluster_size()) by (nonlinear_arith)
                requires
                    spc == bpb.sectors_per_cluster as int,
                    ssz == bpb.bytes_per_sector as int,
                    bpb.spec_cluster_size() == bpb.bytes_per_sector as int
                        * bpb.sectors_per_cluster as int,
            ;
            assert forall|j: int| 0 <= j < bpb.spec_cluster_size() implies cache@[j]
                == spec_cluster_disk_byte(*bpb, disk, cluster_id as int, j) by {}
            assert(cache@ =~= spec_cluster_disk(*bpb, disk, cluster_id as int));
        }
        ClusterCache { cluster_id, cache, modified: false }
    }

    /// Number of cached bytes: the cluster size.
    pub fn len(&self) -> (r: usize)
        ensures
            r == self.cache@.len(),
    {
        self.cache.len()
    }

    /// Copy `len` bytes starting at `offset` out of the slot.
    pub fn read(&self, offset: usize, len: usize) -> (r: Vec<u8>)
        requires
            offset + len <= self.cache@.len(),
        ensures
            r@.len() == len,
            forall|k: int| 0 <= k < len ==> r@[k] == self.cache@[offset + k],
    {
        let clen = self.cache.len();
        let mut r: Vec<u8> = Vec::new();
        let mut i: usize = 0;
        while i < len
            invariant
                0 <= i <= len,
                clen == self.cache@.len(),
                offset + len <= self.cache@.len(),
                r@.len() == i,
                forall|k: int| 0 <= k < i ==> r@[k] == self.cache@[offset + k],
            decreases len - i,
        {
            r.push(self.cache[offset + i]);
            i = i + 1;
        }
        r
    }

    /// Overwrite `src.len()` bytes starting at `offset` and mark the slot
    /// dirty.
    pub fn modify(&mut self, offset: usize, src: &Vec<u8>)
        requires
            offset + src@.len() <= old(self).cache@.len(),
        ensures
            final(self).cluster_id == old(self).cluster_id,
            final(self).modified,
            final(self).cache@.len() == old(self).cache@.len(),
            forall|k: int|
                0 <= k < old(self).cache@.len() ==> final(self).cache@[k] == if offset <= k
                    < offset + src@.len() {
                    src@[k - offset]
                } else {
                    old(self).cache@[k]
                },
    {
        let clen = self.cache.len();
        let n = src.len();
        let mut i: usize = 0;
        while i < n
            invariant
                0 <= i <= n,
                n == src@.len(),
                clen == self.cache@.len(),
                offset + n <= self.cache@.len(),
                self.cluster_id == old(self).cluster_id,
                self.modified == old(self).modified,
                self.cache@.len() == old(self).cache@.len(),
                forall|k: int|
                    0 <= k < self.cache@.len() ==> self.cache@[k] == if offset <= k < offset + i {
                        src@[k - offset]
                    } else {
                        old(self).cache@[k]
                    },
            decreases n - i,
        {
            self.cache.set(offset + i, src[i]);
            i = i + 1;
        }
        self.modified = true;
    }

    /// Write the cluster back to the device sector by sector if dirty;
    /// afterwards the slot is clean and the device holds the cached bytes.
    pub fn sync<D: BlockDevice>(&mut self, block_dev: &mut D, bpb: &BiosParameterBlock)
        requires
            bpb.spec_valid(),
            spec_cluster_in_range(*bpb, old(self).cluster_id as int),
            old(self).cache@.len() == bpb.spec_cluster_size(),
            old(block_dev).inv(),
            old(block_dev).spec_sector_size() == bpb.bytes_per_sector as nat,
            old(block_dev).spec_sectors().len() >= bpb.total_sectors as int,
            !old(self).modified ==> old(self).cache@ == spec_cluster_disk(
                *bpb,
                old(block_dev).spec_sectors(),
                old(self).cluster_id as int,
            ),
        ensures
            final(block_dev).inv(),
            final(block_dev).spec_sector_size() == old(block_dev).spec_sector_size(),
            final(block_dev).spec_sectors().len() == old(block_dev).spec_sectors().len(),
            final(self).cluster_id == old(self).cluster_id,
            final(self).cache@ == old(self).cache@,
            !final(self).modified,
            forall|s: int|
                0 <= s < old(block_dev).spec_sectors().len() && !(spec_first_sector_of(
                    *bpb,
                    old(self).cluster_id as int,
                ) <= s < spec_first_sector_of(*bpb, old(self).cluster_id as int)
                    + bpb.sectors_per_cluster as int) ==> final(block_dev).spec_sectors()[s] == old(block_dev).spec_sectors()[s],
            spec_cluster_disk(*bpb, final(block_dev).spec_sectors(), old(self).cluster_id as int)
                == old(self).cache@,
    {
        proof {
            old(block_dev).lemma_inv();
        }
        let ghost disk0 = old(block_dev).spec_sectors();
        let ghost cid = old(self).cluster_id as int;
        if !self.modified {
            proof {
                assert(spec_cluster_disk(*bpb, disk0, cid) == old(self).cache@);
            }
            return ;
        }
        let ssz: usize = bpb.bytes_per_sector() as usize;
        let spc: usize = bpb.sectors_per_cluster() as usize;
        let num = block_dev.num_sectors();
        proof {
            vstd::arithmetic::mul::lemma_mul_upper_bound(
                self.cluster_id as int - 2,
                0x0FFFFFF3,
                spc as int,
                128,
            );
        }
        let first64: u64 = bpb.first_data_sector() as u64 + (self.cluster_id as u64 - 2) * spc
            as u64;
        proof {
            lemma_cluster_sector_in_range(*bpb, cid, 0);
            assert(first64 == spec_first_sector_of(*bpb, cid));
        }
        let first: usize = first64 as usize;
        let clen = self.cache.len();
        let mut k: usize = 0;
        while k < spc
            invariant
                0 <= k <= spc,
                ssz == bpb.bytes_per_sector as int,
                spc == bpb.sectors_per_cluster as int,
                bpb.spec_valid(),
                spec_cluster_in_range(*bpb, cid),
                self.cluster_id as int == cid,
                clen == self.cache@.len(),
                self.cache@ == old(self).cache@,
                self.cache@.len() == bpb.spec_cluster_size(),
                block_dev.inv(),
                block_dev.spec_sector_size() == bpb.bytes_per_sector as nat,
                block_dev.spec_sectors().len() == disk0.len(),
                disk0.len() >= bpb.total_sectors as int,
                first == spec_first_sector_of(*bpb, cid),
                forall|s: int|
                    0 <= s < disk0.len() && !(first <= s < first + k)
                        ==> block_dev.spec_sectors()[s] == disk0[s],
                forall|s: int, i: int|
                    first <= s < first + k && 0 <= i < ssz
                        ==> #[trigger] block_dev.spec_sectors()[s][i] == self.cache@[(s - first)
                        * ssz + i],
            decreases spc - k,
        {
            proof {
                block_dev.lemma_inv();
                lemma_cluster_sector_in_range(*bpb, cid, k as int);
                lemma_mul_inequality(k as int + 1, spc as int, ssz as int);
                assert((k + 1) * ssz == k * ssz + ssz) by (nonlinear_arith);
                assert(spc * ssz == bpb.spec_cluster_size()) by (nonlinear_arith)
                    requires
                        spc == bpb.sectors_per_cluster as int,
                        ssz == bpb.bytes_per_sector as int,
                        bpb.spec_cluster_size() == bpb.bytes_per_sector as int
                            * bpb.sectors_per_cluster as int,
                ;
                lemma_mul_inequality(k as int + 1, spc as int, ssz as int);
            }
            let mut sector: Vec<u8> = Vec::new();
            let mut i: usize = 0;
            while i < ssz
                invariant
                    0 <= i <= ssz,
                    clen == self.cache@.len(),
                    k * ssz + ssz <= self.cache@.len(),
                    sector@.len() == i,
                    forall|j: int| 0 <= j < i ==> sector@[j] == self.cache@[k * ssz + j],
                decreases ssz - i,
            {
                sector.push(self.cache[k * ssz + i]);
                i = i + 1;
            }
            block_dev.write_block(first + k, &sector);
            k = k + 1;
        }
        self.modified = false;
        proof {
            assert forall|j: int| 0 <= j < bpb.spec_cluster_size() implies spec_cluster_disk_byte(
                *bpb,
                block_dev.spec_sectors(),
                cid,
                j,
            ) == self.cache@[j] by {
                vstd::arithmetic::div_mod::lemma_fundamental_div_mod(j, ssz as int);
                vstd::arithmetic::div_mod::lemma_mod_bound(j, ssz as int);
                assert(0 <= j / (ssz as int) < spc as int) by (nonlinear_arith)
                    requires
                        0 <= j < bpb.spec_cluster_size(),
                        bpb.spec_cluster_size() == ssz as int * spc as int,
                        ssz > 0,
                        j / (ssz as int) * (ssz as int) + j % (ssz as int) == j,
                        0 <= j % (ssz as int) < ssz as int,
                ;
            }
            assert(spec_cluster_disk(*bpb, block_dev.spec_sectors(), cid) =~= self.cache@);
        }
    }
}

/// A bounded cache of data clusters.
pub struct ClusterCacheManager {
    pub bpb: BiosParameterBlock,
    pub slots: Vec<ClusterCache>,
}

impl ClusterCacheManager {
    /// The cache is consistent with the device content `disk`.
    pub open spec fn spec_inv(self, disk: Seq<Seq<u8>>) -> bool {
        &&& self.bpb.spec_valid()
        &&& disk.len() >= self.bpb.total_sectors as int
        &&& self.slots@.len() <= DATACLU_CACHE_SZ
        &&& forall|i: int|
            0 <= i < self.slots@.len() ==> (#[trigger] self.slots@[i]).cache@.len()
                == self.bpb.spec_cluster_size()
        &&& forall|i: int|
            0 <= i < self.slots@.len() ==> spec_cluster_in_range(
                self.bpb,
                (#[trigger] self.slots@[i]).cluster_id as int,
            )
        &&& forall|i: int, j: int|
            0 <= i < j < self.slots@.len() ==> (#[trigger] self.slots@[i]).cluster_id != (
            #[trigger] self.slots@[j]).cluster_id
        &&& forall|i: int|
            0 <= i < self.slots@.len() && !(#[trigger] self.slots@[i]).modified
                ==> self.slots@[i].cache@ == spec_cluster_disk(
                self.bpb,
                disk,
                self.slots@[i].cluster_id as int,
            )
    }

    /// Some slot holds cluster `c`.
    pub open spec fn spec_cached(self, c: int) -> bool {
        exists|i: int| 0 <= i < self.slots@.len() && (#[trigger] self.slots@[i]).cluster_id == c
    }

    /// The index of the slot holding cluster `c`.
    pub open spec fn spec_slot(self, c: int) -> int {
        choose|i: int| 0 <= i < self.slots@.len() && (#[trigger] self.slots@[i]).cluster_id == c
    }

    /// The current bytes of cluster `c` as seen through the cache.
    pub open spec fn spec_cluster_view(self, disk: Seq<Seq<u8>>, c: int) -> Seq<u8> {
        if self.spec_cached(c) {
            self.slots@[self.spec_slot(c)].cache@
        } else {
            spec_cluster_disk(self.bpb, disk, c)
        }
    }

    /// The device fits this cache.
    pub open spec fn spec_dev_ok<D: BlockDevice>(self, dev: D) -> bool {
        &&& dev.inv()
        &&& dev.spec_sector_size() == self.bpb.bytes_per_sector as nat
    }

    /// A slot holding cluster `c` is the unique one `spec_slot` picks.
    pub proof fn lemma_slot_is(self, i: int, c: int)
        requires
            forall|i: int, j: int|
                0 <= i < j < self.slots@.len() ==> (#[trigger] self.slots@[i]).cluster_id != (
                #[trigger] self.slots@[j]).cluster_id,
            0 <= i < self.slots@.len(),
            self.slots@[i].cluster_id == c,
        ensures
            self.spec_cached(c),
            self.spec_slot(c) == i,
    {
        assert(self.spec_cached(c));
        let j = self.spec_slot(c);
        if j != i {
            if j < i {
                assert(self.slots@[j].cluster_id != self.slots@[i].cluster_id);
            } else {
                assert(self.slots@[i].cluster_id != self.slots@[j].cluster_id);
            }
        }
    }

    /// An empty cache over the given geometry.
    pub fn new(bpb: BiosParameterBlock) -> (r: Self)
        ensures
            r.bpb == bpb,
            r.slots@.len() == 0,
            forall|c: int| !r.spec_cached(c),
    {
        ClusterCacheManager { bpb, slots: Vec::new() }
    }

    /// The view of every in-range cluster survives a change of the device
    /// that leaves the data region untouched.
    pub proof fn lemma_view_stable(self, disk1: Seq<Seq<u8>>, disk2: Seq<Seq<u8>>)
        requires
            self.spec_inv(disk1),
            disk2.len() == disk1.len(),
            forall|s: int|
                self.bpb.spec_first_data_sector() <= s < disk1.len() ==> disk2[s] == disk1[s],
        ensures
            self.spec_inv(disk2),
            forall|c: int|
                spec_cluster_in_range(self.bpb, c) ==> self.spec_cluster_view(disk2, c)
                    == self.spec_cluster_view(disk1, c),
    {
        assert forall|c: int| spec_cluster_in_range(self.bpb, c) implies spec_cluster_disk(
            self.bpb,
            disk2,
            c,
        ) == spec_cluster_disk(self.bpb, disk1, c) by {
            assert forall|k: int|
                0 <= k < self.bpb.sectors_per_cluster as int implies #[trigger] disk2[
                spec_first_sector_of(self.bpb, c) + k] == disk1[spec_first_sector_of(self.bpb, c)
                + k] by {
                lemma_cluster_sector_in_range(self.bpb, c, k);
            }
            lemma_cluster_sector_in_range(self.bpb, c, 0);
            lemma_cluster_disk_stable(self.bpb, disk1, disk2, c);
        }
    }

    /// Find or load the slot for `cluster_id`, evicting the oldest slot
    /// when full.  The view of every in-range cluster is unchanged; the
    /// device changes only inside the data region.
    fn fetch<D: BlockDevice>(&mut self, dev: &mut D, cluster_id: usize) -> (idx: usize)
        requires
            old(self).spec_inv(old(dev).spec_sectors()),
            old(self).spec_dev_ok(*old(dev)),
            spec_cluster_in_range(old(self).bpb, cluster_id as int),
        ensures
            final(self).spec_inv(final(dev).spec_sectors()),
            final(self).spec_dev_ok(*final(dev)),
            final(self).bpb == old(self).bpb,
            final(dev).spec_sectors().len() == old(dev).spec_sectors().len(),
            final(dev).spec_sector_size() == old(dev).spec_sector_size(),
            idx < final(self).slots@.len(),
            final(self).slots@[idx as int].cluster_id == cluster_id,
            forall|c: int|
                spec_cluster_in_range(old(self).bpb, c) ==> final(self).spec_cluster_view(
                    final(dev).spec_sectors(),
                    c,
                ) == old(self).spec_cluster_view(old(dev).spec_sectors(), c),
            forall|s: int|
                0 <= s < old(self).bpb.spec_first_data_sector() ==> final(dev).spec_sectors()[s]
                    == old(dev).spec_sectors()[s],
    {
        proof {
            old(dev).lemma_inv();
        }
        let ghost disk0 = old(dev).spec_sectors();
        let ghost bpb0 = old(self).bpb;
        let n = self.slots.len();
        let mut i: usize = 0;
        while i < n
            invariant
                n == self.slots@.len(),
                0 <= i <= n,
                forall|k: int| 0 <= k < i ==> (#[trigger] self.slots@[k]).cluster_id != cluster_id,
                *self == *old(self),
                *dev == *old(dev),
                self.spec_inv(dev.spec_sectors()),
                self.spec_dev_ok(*dev),
                spec_cluster_in_range(self.bpb, cluster_id as int),
            decreases n - i,
        {
            if self.slots[i].cluster_id == cluster_id {
                proof {
                    self.lemma_slot_is(i as int, cluster_id as int);
                }
                return i;
            }
            i = i + 1;
        }
        // miss: make room if the cache is full
        if self.slots.len() == DATACLU_CACHE_SZ {
            let victim_id = self.slots[0].cluster_id;
            let ghost victim_bytes = self.slots@[0].cache@;
            proof {
                self.lemma_slot_is(0, victim_id as int);
            }
            let bpb_copy = self.bpb;
            {
                let victim = &mut self.slots[0];
                victim.sync(dev, &bpb_copy);
            }
            proof {
                assert(self.slots@[0].cache@ == victim_bytes);
                lemma_other_clusters_stable(bpb0, disk0, dev.spec_sectors(), victim_id as int);
                assert forall|c: int| spec_cluster_in_range(bpb0, c) implies self.spec_cluster_view(
                    dev.spec_sectors(),
                    c,
                ) == old(self).spec_cluster_view(disk0, c) by {
                    assert(forall|k: int|
                        0 <= k < self.slots@.len() ==> (#[trigger] self.slots@[k]).cluster_id
                            == old(self).slots@[k].cluster_id && self.slots@[k].cache@ == old(self).slots@[k].cache@);
                    if old(self).spec_cached(c) {
                        let k = old(self).spec_slot(c);
                        old(self).lemma_slot_is(k, c);
                        self.lemma_slot_is(k, c);
                    } else {
                        assert(!self.spec_cached(c));
                        assert(c != victim_id) by {
                            if c == victim_id {
                                assert(old(self).spec_cached(c));
                            }
                        }
                    }
                }
                // the data region is the only part of the device written
                assert forall|s: int| 0 <= s < bpb0.spec_first_data_sector() implies
                dev.spec_sectors()[s] == disk0[s] by {
                    lemma_cluster_sector_in_range(bpb0, victim_id as int, 0);
                }
                // clean slots other than the victim still match the device
                assert forall|k: int|
                    0 <= k < self.slots@.len() && !(#[trigger] self.slots@[k]).modified implies
                self.slots@[k].cache@ == spec_cluster_disk(
                    bpb0,
                    dev.spec_sectors(),
                    self.slots@[k].cluster_id as int,
                ) by {
                    if k != 0 {
                        assert(self.slots@[k].cluster_id != victim_id);
                    }
                }
            }
            let ghost mid1 = *self;
            let ghost disk1 = dev.spec_sectors();
            let evicted = self.slots.remove(0);
            proof {
                assert forall|c: int| spec_cluster_in_range(bpb0, c) implies self.spec_cluster_view(
                    disk1,
                    c,
                ) == mid1.spec_cluster_view(disk1, c) by {
                    if self.spec_cached(c) {
                        let k = self.spec_slot(c);
                        self.lemma_slot_is(k, c);
                        mid1.lemma_slot_is(k + 1, c);
                    } else {
                        if c == victim_id {
                            mid1.lemma_slot_is(0, c);
                            assert(mid1.spec_cluster_view(disk1, c) == victim_bytes);
                            assert(spec_cluster_disk(bpb0, disk1, c) == victim_bytes);
                        } else {
                            if mid1.spec_cached(c) {
                                let k = mid1.spec_slot(c);
                                mid1.lemma_slot_is(k, c);
                                assert(k != 0);
                                assert(self.slots@[k - 1].cluster_id == c);
                                self.lemma_slot_is(k - 1, c);
                                assert(false);
                            }
                        }
                    }
                }
            }
        }
        let ghost mid = *self;
        let ghost middisk = dev.spec_sectors();
        let bpb_copy = self.bpb;
        proof {
            assert(dev.spec_sectors().len() >= self.bpb.total_sectors as int);
        }
        let slot = ClusterCache::new(cluster_id, dev, &bpb_copy);
        self.slots.push(slot);
        let idx = self.slots.len() - 1;
        proof {
            assert(forall|k: int| 0 <= k < mid.slots@.len() ==> self.slots@[k] == mid.slots@[k]);
            self.lemma_slot_is(idx as int, cluster_id as int);
            assert forall|c: int| spec_cluster_in_range(bpb0, c) implies self.spec_cluster_view(
                dev.spec_sectors(),
                c,
            ) == mid.spec_cluster_view(middisk, c) by {
                if c == cluster_id {
                    assert(!mid.spec_cached(c));
                } else {
                    if mid.spec_cached(c) {
                        let k = mid.spec_slot(c);
                        mid.lemma_slot_is(k, c);
                        self.lemma_slot_is(k, c);
                    } else {
                        assert(!self.spec_cached(c)) by {
                            if self.spec_cached(c) {
                                let k = self.spec_slot(c);
                                self.lemma_slot_is(k, c);
                                assert(k < idx ==> mid.slots@[k].cluster_id == c);
                            }
                        }
                    }
                }
            }
        }
        idx
    }

    /// Read `len` bytes at `offset` within cluster `cluster_id`, as the
    /// cache view has it.
    pub fn read_bytes<D: BlockDevice>(
        &mut self,
        dev: &mut D,
        cluster_id: usize,
        offset: usize,
        len: usize,
    ) -> (r: Vec<u8>)
        requires
            old(self).spec_inv(old(dev).spec_sectors()),
            old(self).spec_dev_ok(*old(dev)),
            spec_cluster_in_range(old(self).bpb, cluster_id as int),
            offset + len <= old(self).bpb.spec_cluster_size(),
        ensures
            final(self).spec_inv(final(dev).spec_sectors()),
            final(self).spec_dev_ok(*final(dev)),
            final(self).bpb == old(self).bpb,
            final(dev).spec_sectors().len() == old(dev).spec_sectors().len(),
            final(dev).spec_sector_size() == old(dev).spec_sector_size(),
            r@.len() == len,
            forall|k: int|
                0 <= k < len ==> r@[k] == old(self).spec_cluster_view(
                    old(dev).spec_sectors(),
                    cluster_id as int,
                )[offset + k],
            forall|c: int|
                spec_cluster_in_range(old(self).bpb, c) ==> final(self).spec_cluster_view(
                    final(dev).spec_sectors(),
                    c,
                ) == old(self).spec_cluster_view(old(dev).spec_sectors(), c),
            forall|s: int|
                0 <= s < old(self).bpb.spec_first_data_sector() ==> final(dev).spec_sectors()[s]
                    == old(dev).spec_sectors()[s],
    {
        let idx = self.fetch(dev, cluster_id);
        proof {
            self.lemma_slot_is(idx as int, cluster_id as int);
        }
        let slot = &self.slots[idx];
        slot.read(offset, len)
    }

    /// Overwrite `src.len()` bytes at `offset` within cluster `cluster_id`.
    /// Only that cluster's view changes, and only in those bytes.
    pub fn write_bytes<D: BlockDevice>(
        &mut self,
        dev: &mut D,
        cluster_id: usize,
        offset: usize,
        src: &Vec<u8>,
    )
        requires
            old(self).spec_inv(old(dev).spec_sectors()),
            old(self).spec_dev_ok(*old(dev)),
            spec_cluster_in_range(old(self).bpb, cluster_id as int),
            offset + src@.len() <= old(self).bpb.spec_cluster_size(),
        ensures
            final(self).spec_inv(final(dev).spec_sectors()),
            final(self).spec_dev_ok(*final(dev)),
            final(self).bpb == old(self).bpb,
            final(dev).spec_sectors().len() == old(dev).spec_sectors().len(),
            final(dev).spec_sector_size() == old(dev).spec_sector_size(),
            final(self).spec_cluster_view(final(dev).spec_sectors(), cluster_id as int).len()
                == old(self).bpb.spec_cluster_size(),
            forall|k: int|
                0 <= k < old(self).bpb.spec_cluster_size() ==> final(self).spec_cluster_view(
                    final(dev).spec_sectors(),
                    cluster_id as int,
                )[k] == if offset <= k < offset + src@.len() {
                    src@[k - offset]
                } else {
                    old(self).spec_cluster_view(old(dev).spec_sectors(), cluster_id as int)[k]
                },
            forall|c: int|
                spec_cluster_in_range(old(self).bpb, c) && c != cluster_id ==> final(self).spec_cluster_view(final(dev).spec_sectors(), c) == old(self).spec_cluster_view(
                    old(dev).spec_sectors(),
                    c,
                ),
            forall|s: int|
                0 <= s < old(self).bpb.spec_first_data_sector() ==> final(dev).spec_sectors()[s]
                    == old(dev).spec_sectors()[s],
    {
        let idx = self.fetch(dev, cluster_id);
        let ghost mid = *self;
        let ghost middisk = dev.spec_sectors();
        {
            let slot = &mut self.slots[idx];
            slot.modify(offset, src);
        }
        proof {
            self.lemma_slot_is(idx as int, cluster_id as int);
            mid.lemma_slot_is(idx as int, cluster_id as int);
            assert forall|c: int|
                spec_cluster_in_range(mid.bpb, c) && c != cluster_id implies self.spec_cluster_view(
                dev.spec_sectors(),
                c,
            ) == mid.spec_cluster_view(middisk, c) by {
                if mid.spec_cached(c) {
                    let k = mid.spec_slot(c);
                    mid.lemma_slot_is(k, c);
                    self.lemma_slot_is(k, c);
                    assert(k != idx);
                } else {
                    assert(!self.spec_cached(c)) by {
                        if self.spec_cached(c) {
                            let k = self.spec_slot(c);
                            self.lemma_slot_is(k, c);
                            assert(mid.slots@[k].cluster_id == c);
                        }
                    }
                }
            }
        }
    }

    /// Zero-fill a whole cluster.
    pub fn clear_cluster<D: BlockDevice>(&mut self, dev: &mut D, cluster_id: usize)
        requires
            old(self).spec_inv(old(dev).spec_sectors()),
            old(self).spec_dev_ok(*old(dev)),
            spec_cluster_in_range(old(self).bpb, cluster_id as int),
        ensures
            final(self).spec_inv(final(dev).spec_sectors()),
            final(self).spec_dev_ok(*final(dev)),
            final(self).bpb == old(self).bpb,
            final(dev).spec_sectors().len() == old(dev).spec_sectors().len(),
            final(dev).spec_sector_size() == old(dev).spec_sector_size(),
            final(self).spec_cluster_view(final(dev).spec_sectors(), cluster_id as int).len()
                == old(self).bpb.spec_cluster_size(),
            forall|k: int|
                0 <= k < old(self).bpb.spec_cluster_size() ==> final(self).spec_cluster_view(
                    final(dev).spec_sectors(),
                    cluster_id as int,
                )[k] == 0u8,
            forall|c: int|
                spec_cluster_in_range(old(self).bpb, c) && c != cluster_id ==> final(self).spec_cluster_view(final(dev).spec_sectors(), c) == old(self).spec_cluster_view(
                    old(dev).spec_sectors(),
                    c,
                ),
            forall|s: int|
                0 <= s < old(self).bpb.spec_first_data_sector() ==> final(dev).spec_sectors()[s]
                    == old(dev).spec_sectors()[s],
    {
        let csize = self.bpb.cluster_size();
        let mut zeros: Vec<u8> = Vec::new();
        let mut i: usize = 0;
        while i < csize
            invariant
                0 <= i <= csize,
                zeros@.len() == i,
                forall|k: int| 0 <= k < i ==> zeros@[k] == 0u8,
            decreases csize - i,
        {
            zeros.push(0u8);
            i = i + 1;
        }
        self.write_bytes(dev, cluster_id, 0, &zeros);
    }

    /// Write every dirty slot back.  Views are unchanged and afterwards the
    /// device itself holds the view of every in-range cluster.
    pub fn flush_all<D: BlockDevice>(&mut self, dev: &mut D)
        requires
            old(self).spec_inv(old(dev).spec_sectors()),
            old(self).spec_dev_ok(*old(dev)),
        ensures
            final(self).spec_inv(final(dev).spec_sectors()),
            final(self).spec_dev_ok(*final(dev)),
            final(self).bpb == old(self).bpb,
            final(dev).spec_sectors().len() == old(dev).spec_sectors().len(),
            final(dev).spec_sector_size() == old(dev).spec_sector_size(),
            forall|c: int|
                spec_cluster_in_range(old(self).bpb, c) ==> final(self).spec_cluster_view(
                    final(dev).spec_sectors(),
                    c,
                ) == old(self).spec_cluster_view(old(dev).spec_sectors(), c),
            forall|c: int|
                spec_cluster_in_range(old(self).bpb, c) ==> spec_cluster_disk(
                    old(self).bpb,
                    final(dev).spec_sectors(),
                    c,
                ) == old(self).spec_cluster_view(old(dev).spec_sectors(), c),
            forall|s: int|
                0 <= s < old(self).bpb.spec_first_data_sector() ==> final(dev).spec_sectors()[s]
                    == old(dev).spec_sectors()[s],
    {
        proof {
            old(dev).lemma_inv();
        }
        let ghost bpb0 = old(self).bpb;
        let n = self.slots.len();
        let mut i: usize = 0;
        while i < n
            invariant
                n == self.slots@.len(),
                0 <= i <= n,
                self.spec_inv(dev.spec_sectors()),
                self.spec_dev_ok(*dev),
                self.bpb == bpb0,
                dev.spec_sectors().len() == old(dev).spec_sectors().len(),
                dev.spec_sector_size() == old(dev).spec_sector_size(),
                forall|k: int|
                    0 <= k < n ==> (#[trigger] self.slots@[k]).cluster_id == old(self).slots@[k].cluster_id && self.slots@[k].cache@ == old(self).slots@[k].cache@,
                forall|k: int| 0 <= k < i ==> !(#[trigger] self.slots@[k]).modified,
                forall|c: int|
                    spec_cluster_in_range(bpb0, c) ==> self.spec_cluster_view(
                        dev.spec_sectors(),
                        c,
                    ) == old(self).spec_cluster_view(old(dev).spec_sectors(), c),
                forall|s: int|
                    0 <= s < bpb0.spec_first_data_sector() ==> dev.spec_sectors()[s] == old(dev).spec_sectors()[s],
            decreases n - i,
        {
            let ghost pre = *self;
            let ghost predisk = dev.spec_sectors();
            let cid = self.slots[i].cluster_id;
            let bpb_copy = self.bpb;
            {
                let slot = &mut self.slots[i];
                slot.sync(dev, &bpb_copy);
            }
            proof {
                self.lemma_slot_is(i as int, cid as int);
                pre.lemma_slot_is(i as int, cid as int);
                lemma_other_clusters_stable(bpb0, predisk, dev.spec_sectors(), cid as int);
                assert forall|c: int| spec_cluster_in_range(bpb0, c) implies self.spec_cluster_view(
                    dev.spec_sectors(),
                    c,
                ) == pre.spec_cluster_view(predisk, c) by {
                    if pre.spec_cached(c) {
                        let k = pre.spec_slot(c);
                        pre.lemma_slot_is(k, c);
                        self.lemma_slot_is(k, c);
                    } else {
                        assert(!self.spec_cached(c)) by {
                            if self.spec_cached(c) {
                                let k = self.spec_slot(c);
                                self.lemma_slot_is(k, c);
                                assert(pre.slots@[k].cluster_id == c);
                            }
                        }
                        assert(c != cid);
                    }
                }
                assert forall|s: int| 0 <= s < bpb0.spec_first_data_sector() implies
                dev.spec_sectors()[s] == predisk[s] by {
                    lemma_cluster_sector_in_range(bpb0, cid as int, 0);
                }
                // clean slots still match the device
                assert forall|k: int|
                    0 <= k < self.slots@.len() && !(#[trigger] self.slots@[k]).modified implies
                self.slots@[k].cache@ == spec_cluster_disk(
                    bpb0,
                    dev.spec_sectors(),
                    self.slots@[k].cluster_id as int,
                ) by {
                    if k != i {
                        assert(self.slots@[k].cluster_id != cid);
                    }
                }
            }
            i = i + 1;
        }
        proof {
            assert forall|c: int| spec_cluster_in_range(bpb0, c) implies spec_cluster_disk(
                bpb0,
                dev.spec_sectors(),
                c,
            ) == old(self).spec_cluster_view(old(dev).spec_sectors(), c) by {
                if self.spec_cached(c) {
                    let k = self.spec_slot(c);
                    self.lemma_slot_is(k, c);
                    assert(!self.slots@[k].modified);
                } else {
                    if old(self).spec_cached(c) {
                        let k = old(self).spec_slot(c);
                        old(self).lemma_slot_is(k, c);
                        assert(self.slots@[k].cluster_id == c);
                        self.lemma_slot_is(k, c);
                        assert(false);
                    }
                }
            }
        }
    }
}

} // verus!
