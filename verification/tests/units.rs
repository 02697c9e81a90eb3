use fat32fs::{
    generate_short_name, BiosParameterBlock, BootSector, FSInfo, FSInfoSector, FileAttributes,
    LongDirectoryEntry, ShortDirectoryEntry,
};

fn sample_short_entry() -> ShortDirectoryEntry {
    ShortDirectoryEntry::new(
        *b"A       ",
        *b"TXT",
        FileAttributes::file(),
        5,
    )
}

#[test]
fn attributes_contain_and_union() {
    let d = FileAttributes::directory();
    let a = FileAttributes::archive();
    let both = d.union(a);
    assert!(both.contains(d));
    assert!(both.contains(a));
    assert!(!d.contains(a));
    assert_eq!(FileAttributes::long_name().bits(), 0x0F);
}

#[test]
fn checksum_of_blank_name_is_zero() {
    let e = ShortDirectoryEntry::new([0u8; 8], [0u8; 3], FileAttributes::file(), 0);
    assert_eq!(e.checksum(), 0);
}

#[test]
fn checksum_depends_on_byte_order() {
    let e1 = ShortDirectoryEntry::new(*b"AB      ", *b"   ", FileAttributes::file(), 0);
    let e2 = ShortDirectoryEntry::new(*b"BA      ", *b"   ", FileAttributes::file(), 0);
    assert_ne!(e1.checksum(), e2.checksum());
}

#[test]
fn short_entry_roundtrips_through_bytes() {
    let mut e = sample_short_entry();
    e.set_size(1234);
    let bytes = e.as_bytes();
    assert_eq!(bytes.len(), 32);
    let back = ShortDirectoryEntry::from_bytes(&bytes);
    assert_eq!(back.name(), e.name());
    assert_eq!(back.first_cluster(), 5);
    assert_eq!(back.size(), Some(1234));
    assert_eq!(back.attribute().bits(), e.attribute().bits());
}

#[test]
fn short_entry_flags() {
    let mut e = sample_short_entry();
    assert!(e.is_file());
    assert!(!e.is_dir());
    assert!(e.is_short());
    assert!(!e.is_free());
    e.set_deleted();
    assert!(e.is_deleted());
    assert!(e.is_free());
}

#[test]
fn short_entry_name_rendering() {
    let e = sample_short_entry();
    assert_eq!(e.name(), "A.TXT");
    let noext = ShortDirectoryEntry::new(*b"README  ", *b"   ", FileAttributes::file(), 0);
    assert_eq!(noext.name(), "README");
}

#[test]
fn long_entry_roundtrips_through_bytes() {
    let mut units = [0xFFFFu16; 13];
    units[0] = 'h' as u16;
    units[1] = 'i' as u16;
    units[2] = 0x0000;
    let e = LongDirectoryEntry::new(units, 0x41, 0x7C);
    let bytes = e.as_bytes();
    assert_eq!(bytes.len(), 32);
    let back = LongDirectoryEntry::from_bytes(&bytes);
    assert_eq!(back.order(), 0x41);
    assert_eq!(back.raw_order(), 0x01);
    assert!(back.is_last());
    assert!(back.is_long());
    assert_eq!(back.checksum(), 0x7C);
    assert_eq!(back.name_to_array(), units);
    assert_eq!(back.name_format(), "hi");
}

#[test]
fn generate_short_name_uppercases_and_splits() {
    let r = generate_short_name("hello-world.log");
    assert_eq!(&r[..], b"HELLO-WOLOG");
    let r2 = generate_short_name("A.TXT");
    assert_eq!(&r2[..], b"A       TXT");
    let r3 = generate_short_name("sp ace.t?t");
    assert_eq!(&r3[..], b"SPACE   T_T");
}

#[test]
fn fsinfo_hints_clamp_and_roundtrip() {
    let mut info = FSInfo::new(0xFFFFFFFF, 7);
    assert_eq!(info.free_clusters(), None);
    assert_eq!(info.next_free_cluster(), Some(7));
    info.validate_and_fix(5);
    assert_eq!(info.next_free_cluster(), None);
    let mut info2 = FSInfo::new(3, 4);
    info2.validate_and_fix(100);
    assert_eq!(info2.free_clusters(), Some(3));
    assert_eq!(info2.next_free_cluster(), Some(4));
    let sector = FSInfoSector::from_fsinfo(info2);
    assert!(sector.validate().is_ok());
    assert_eq!(sector.free_clusters_raw(), 3);
    assert_eq!(sector.next_free_cluster_raw(), 4);
    let bytes = sector.to_bytes(512);
    let parsed = FSInfoSector::parse(&bytes);
    assert!(parsed.validate().is_ok());
    assert_eq!(parsed.free_clusters_raw(), 3);
    assert_eq!(parsed.next_free_cluster_raw(), 4);
}

fn put16(v: &mut Vec<u8>, off: usize, x: u16) {
    v[off] = (x % 256) as u8;
    v[off + 1] = (x / 256) as u8;
}

fn put32(v: &mut Vec<u8>, off: usize, x: u32) {
    v[off] = (x & 0xFF) as u8;
    v[off + 1] = ((x >> 8) & 0xFF) as u8;
    v[off + 2] = ((x >> 16) & 0xFF) as u8;
    v[off + 3] = ((x >> 24) & 0xFF) as u8;
}

pub fn sample_boot_sector() -> Vec<u8> {
    let mut s = vec![0u8; 512];
    put16(&mut s, 11, 512); // bytes per sector
    s[13] = 1; // sectors per cluster
    put16(&mut s, 14, 2); // reserved sectors
    s[16] = 2; // two FATs
    put32(&mut s, 32, 2048); // total sectors
    put32(&mut s, 36, 16); // sectors per FAT
    put32(&mut s, 44, 2); // root cluster
    put16(&mut s, 48, 1); // FSInfo sector
    put16(&mut s, 50, 0); // backup boot sector
    put32(&mut s, 67, 0xCAFE01);
    s[82..90].copy_from_slice(b"FAT32   ");
    s[510] = 0x55;
    s[511] = 0xAA;
    s
}

#[test]
fn boot_sector_parses_and_validates() {
    let raw = sample_boot_sector();
    let boot = BootSector::parse(&raw);
    assert!(boot.validate().is_ok());
    let bpb: BiosParameterBlock = boot.bpb;
    assert_eq!(bpb.bytes_per_sector(), 512);
    assert_eq!(bpb.sectors_per_cluster(), 1);
    assert_eq!(bpb.reserved_sectors(), 2);
    assert_eq!(bpb.fats_sectors(), 16);
    assert_eq!(bpb.total_sectors(), 2048);
    assert_eq!(bpb.sectors_per_all_fats(), 32);
    assert_eq!(bpb.root_dir_sectors(), 0);
    assert_eq!(bpb.first_data_sector(), 34);
    assert_eq!(bpb.total_clusters(), 2014);
    assert_eq!(bpb.cluster_size(), 512);
    assert_eq!(bpb.first_fats_sector(), 2);
    assert_eq!(bpb.first_backup_fats_sector(), 18);
    assert_eq!(bpb.fsinfo_sector(), 1);
    assert_eq!(bpb.root_dir_cluster(), 2);
    assert_eq!(bpb.volumn_id(), 0xCAFE01);
}

#[test]
fn boot_sector_rejects_bad_label() {
    let mut raw = sample_boot_sector();
    raw[82] = b'X';
    let boot = BootSector::parse(&raw);
    assert!(boot.validate().is_err());
}
