use fat32fs::{BlockDevice, FATEntry, FileAttributes, RamDisk, RunFileSystem, VFile};

fn put16(v: &mut Vec<u8>, off: usize, x: u16) {
    v[off] = (x % 256) as u8;
    v[off + 1] = (x / 256) as u8;
}

fn put32(v: &mut Vec<u8>, off: usize, x: u32) {
    v[off] = (x & 0xFF) as u8;
    v[off + 1] = ((x >> 8) & 0xFF) as u8;
    v[off + 2] = ((x >> 16) & 0xFF) as u8;
    v[off + 3] = ((x >> 24) & 0xFF) as u8;
}

/// A freshly formatted little volume: 512-byte sectors, one sector per
/// cluster, two FATs of 16 sectors, root directory on cluster 2.
fn fresh_volume() -> RunFileSystem<RamDisk> {
    let mut disk = RamDisk::new(512, 2048);
    let mut boot = vec![0u8; 512];
    put16(&mut boot, 11, 512);
    boot[13] = 1;
    put16(&mut boot, 14, 2);
    boot[16] = 2;
    put32(&mut boot, 32, 2048);
    put32(&mut boot, 36, 16);
    put32(&mut boot, 44, 2);
    put16(&mut boot, 48, 1);
    put16(&mut boot, 50, 0);
    put32(&mut boot, 67, 0xCAFE01);
    boot[82..90].copy_from_slice(b"FAT32   ");
    boot[510] = 0x55;
    boot[511] = 0xAA;
    disk.write_block(0, &boot);

    let mut fsinfo = vec![0u8; 512];
    put32(&mut fsinfo, 0, 0x41615252);
    put32(&mut fsinfo, 484, 0x61417272);
    put32(&mut fsinfo, 488, 0xFFFFFFFF);
    put32(&mut fsinfo, 492, 0xFFFFFFFF);
    put32(&mut fsinfo, 508, 0xAA550000);
    disk.write_block(1, &fsinfo);

    // first FAT sector of both copies: media marker, reserved id, root chain
    let mut fat0 = vec![0u8; 512];
    put32(&mut fat0, 0, 0x0FFFFFF8);
    put32(&mut fat0, 4, 0x0FFFFFFF);
    put32(&mut fat0, 8, 0x0FFFFFFF);
    disk.write_block(2, &fat0);
    disk.write_block(18, &fat0);

    RunFileSystem::new(disk).expect("the sample volume mounts")
}

fn root_handle() -> VFile {
    VFile::new(
        String::from("/"),
        0,
        0,
        Vec::new(),
        FileAttributes::directory(),
    )
}

#[test]
fn mount_reads_geometry() {
    let fs = fresh_volume();
    assert_eq!(fs.volume_id(), 0xCAFE01);
    assert_eq!(fs.bpb().total_clusters(), 2014);
    // the recomputed free count covers every cluster but the root's
    assert_eq!(fs.free_clusters(), Some(2013));
}

#[test]
fn fat_entries_decode() {
    let mut fs = fresh_volume();
    let e2 = fs.fat_manager.entry(&mut fs.device, 2);
    assert_eq!(e2, FATEntry::End);
    let e3 = fs.fat_manager.entry(&mut fs.device, 3);
    assert_eq!(e3, FATEntry::Free);
}

#[test]
fn alloc_cluster_links_and_zeroes() {
    let mut fs = fresh_volume();
    let id = fs.alloc_cluster(None).expect("a free cluster exists");
    assert_eq!(fs.fat_manager.entry(&mut fs.device, id as usize), FATEntry::End);
    let bytes = fs.data_manager.read_cluster(&mut fs.device, id as usize);
    assert_eq!(bytes.len(), 512);
    assert!(bytes.iter().all(|b| *b == 0));
    // link a second cluster behind the first
    let id2 = fs.alloc_cluster(Some(id)).expect("another free cluster exists");
    assert_eq!(
        fs.fat_manager.entry(&mut fs.device, id as usize),
        FATEntry::Next(id2)
    );
    assert_eq!(fs.fat_manager.entry(&mut fs.device, id2 as usize), FATEntry::End);
    assert_eq!(
        fs.fat_manager.count_clusters(&mut fs.device, id as usize),
        2
    );
}

#[test]
fn alloc_clusters_all_or_nothing() {
    let mut fs = fresh_volume();
    let first = fs.alloc_clusters(3, None).expect("three clusters fit");
    let chain = fs.fat_manager.all_clusters(&mut fs.device, first as usize);
    assert_eq!(chain.len(), 3);
    assert!(fs.alloc_clusters(0, None).is_none());
    assert!(fs.alloc_clusters(1000000, None).is_none());
}

#[test]
fn dealloc_frees_whole_chain() {
    let mut fs = fresh_volume();
    let first = fs.alloc_clusters(3, None).expect("three clusters fit");
    let chain = fs.fat_manager.all_clusters(&mut fs.device, first as usize);
    let freed = fs.dealloc_clusters(first as usize, None);
    assert_eq!(freed, 3);
    for c in chain {
        assert_eq!(fs.fat_manager.entry(&mut fs.device, c), FATEntry::Free);
    }
}

#[test]
fn search_free_cluster_skips_used() {
    let mut fs = fresh_volume();
    let found = fs
        .fat_manager
        .search_free_cluster(&mut fs.device, 2)
        .expect("free clusters exist");
    assert_eq!(fs.fat_manager.entry(&mut fs.device, found as usize), FATEntry::Free);
}

#[test]
fn root_write_then_read_roundtrip() {
    let mut fs = fresh_volume();
    let root = root_handle();
    assert!(root.is_root());
    let payload: Vec<u8> = (0u16..64).map(|x| (x % 251) as u8).collect();
    let written = root.write_at(&mut fs, 32, &payload);
    assert_eq!(written, 64);
    let mut buf = vec![0u8; 64];
    let read = root.read_at(&mut fs, 32, &mut buf);
    assert_eq!(read, 64);
    assert_eq!(buf, payload);
}

#[test]
fn write_past_one_cluster_grows_chain() {
    let mut fs = fresh_volume();
    let root = root_handle();
    // the root starts as a single 512-byte cluster
    assert_eq!(root.capacity(&mut fs), 512);
    let payload = vec![0xABu8; 1300];
    let written = root.write_at(&mut fs, 0, &payload);
    assert_eq!(written, 1300);
    assert_eq!(
        fs.fat_manager.count_clusters(&mut fs.device, 2),
        3
    );
    assert_eq!(root.capacity(&mut fs), 1536);
    let mut buf = vec![0u8; 1300];
    let read = root.read_at(&mut fs, 0, &mut buf);
    assert_eq!(read, 1300);
    assert!(buf.iter().all(|b| *b == 0xAB));
}

#[test]
fn find_free_dirents_appends_free_slots() {
    let mut fs = fresh_volume();
    let root = root_handle();
    // the run is appended at the end of the current content
    let off = root.find_free_dirents(&mut fs, 3).expect("room in the root");
    assert_eq!(off, 512);
    assert!(root.capacity(&mut fs) >= off + 3 * 32);
    // every slot of the returned run reads as free
    let mut buf = vec![0u8; 32];
    for j in 0..3 {
        let got = root.read_at(&mut fs, off + 32 * j, &mut buf);
        assert_eq!(got, 32);
        assert!(buf[0] == 0x00 || buf[0] == 0xE5);
    }
}

#[test]
fn sync_all_keeps_both_fats_identical() {
    let mut fs = fresh_volume();
    let _ = fs.alloc_clusters(4, None).expect("four clusters fit");
    fs.sync_all();
    // primary FAT sectors 2..18 must equal backup sectors 18..34
    for k in 0..16usize {
        let a = fs.device.read_block(2 + k);
        let b = fs.device.read_block(18 + k);
        assert_eq!(a, b);
    }
}

#[test]
fn adjust_capacity_never_shrinks() {
    let mut fs = fresh_volume();
    let root = root_handle();
    assert!(root.adjust_capacity(&mut fs, 2000).is_ok());
    let grown = root.capacity(&mut fs);
    assert!(grown >= 2000);
    assert!(root.adjust_capacity(&mut fs, 10).is_ok());
    assert_eq!(root.capacity(&mut fs), grown);
}
