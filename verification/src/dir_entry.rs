//! The 32-byte on-disk directory entry, in its short (8.3-name) and long
//! (UTF-16 filename) variants, together with the attribute bitfield and the
//! rotate-and-add checksum that binds a long-entry group to its short entry.

use vstd::prelude::*;

verus! {

/// Size in bytes of one directory entry slot.
pub const DIRENT_SZ: usize = 32;

/// First byte of a deleted entry.
pub const DIR_ENTRY_DELETED_FLAG: u8 = 0xE5;

/// Length of the base part of a short name.
pub const SHORT_FILE_NAME_LEN: usize = 8;

/// Length of the extension part of a short name.
pub const SHORT_FILE_EXT_LEN: usize = 3;

/// Fill byte for unused positions of a short name.
pub const SHORT_FILE_NAME_PADDING: u8 = 0x20;

/// Total length of a rendered 8.3 name buffer.
pub const SHORT_NAME_LEN: usize = 11;

/// UTF-16 code units stored by one long entry.
pub const LONG_NAME_LEN: usize = 13;

/// Order-byte bit that marks the physically first (logically last) long entry.
pub const LAST_LONG_ENTRY: u8 = 0x40;

/// The attribute byte at offset 11 of every directory entry.
#[derive(Clone, Copy, PartialEq, Eq, Structural, Debug)]
pub struct FileAttributes {
    pub bits: u8,
}

impl FileAttributes {
    /// True when every bit of `other` is set in `self`.
    pub open spec fn spec_contains(self, other: FileAttributes) -> bool {
        self.bits & other.bits == other.bits
    }

    pub fn from_bits(bits: u8) -> (r: Self)
        ensures
            r.bits == bits,
    {
        FileAttributes { bits }
    }

    pub fn bits(self) -> (r: u8)
        ensures
            r == self.bits,
    {
        self.bits
    }

    /// A regular file: no attribute bit set.
    pub fn file() -> (r: Self)
        ensures
            r.bits == 0x00,
    {
        FileAttributes { bits: 0x00 }
    }

    pub fn read_only() -> (r: Self)
        ensures
            r.bits == 0x01,
    {
        FileAttributes { bits: 0x01 }
    }

    pub fn hidden() -> (r: Self)
        ensures
            r.bits == 0x02,
    {
        FileAttributes { bits: 0x02 }
    }

    pub fn system() -> (r: Self)
        ensures
            r.bits == 0x04,
    {
        FileAttributes { bits: 0x04 }
    }

    pub fn volume_id() -> (r: Self)
        ensures
            r.bits == 0x08,
    {
        FileAttributes { bits: 0x08 }
    }

    pub fn directory() -> (r: Self)
        ensures
            r.bits == 0x10,
    {
        FileAttributes { bits: 0x10 }
    }

    pub fn archive() -> (r: Self)
        ensures
            r.bits == 0x20,
    {
        FileAttributes { bits: 0x20 }
    }

    /// READ_ONLY | HIDDEN | SYSTEM | VOLUME_ID: marks a long entry.
    pub fn long_name() -> (r: Self)
        ensures
            r.bits == 0x0F,
    {
        FileAttributes { bits: 0x0F }
    }

    pub fn contains(self, other: Self) -> (r: bool)
        ensures
            r == self.spec_contains(other),
    {
        self.bits & other.bits == other.bits
    }

    pub fn union(self, other: Self) -> (r: Self)
        ensures
            r.bits == (self.bits | other.bits),
    {
        FileAttributes { bits: self.bits | other.bits }
    }

    /// True when the DIRECTORY bit is set.
    pub open spec fn spec_is_directory(self) -> bool {
        self.bits & 0x10 == 0x10
    }
}

/// One step of the 8-bit rotate-right-and-add checksum.
pub open spec fn checksum_step(sum: u8, b: u8) -> u8 {
    (((sum as int / 2) + (sum as int % 2) * 128 + b as int) % 256) as u8
}

/// The checksum of a byte sequence: fold `checksum_step` from the left,
/// starting at zero.
pub open spec fn spec_checksum_of(bytes: Seq<u8>) -> u8
    decreases bytes.len(),
{
    if bytes.len() == 0 {
        0u8
    } else {
        checksum_step(spec_checksum_of(bytes.drop_last()), bytes.last())
    }
}

/// Low byte of a 16-bit little-endian value.
pub open spec fn lo16(x: u16) -> u8 {
    (x as int % 256) as u8
}

/// High byte of a 16-bit little-endian value.
pub open spec fn hi16(x: u16) -> u8 {
    (x as int / 256) as u8
}

/// Byte `k` (0 = least significant) of a 32-bit little-endian value.
pub open spec fn le32_byte(x: u32, k: int) -> u8 {
    if k == 0 {
        (x as int % 256) as u8
    } else if k == 1 {
        ((x as int / 256) % 256) as u8
    } else if k == 2 {
        ((x as int / 65536) % 256) as u8
    } else {
        (x as int / 16777216) as u8
    }
}

/// The 16-bit value stored little-endian at `off` in `s`.
pub open spec fn le16_at(s: Seq<u8>, off: int) -> u16 {
    (s[off] as int + s[off + 1] as int * 256) as u16
}

/// The 32-bit value stored little-endian at `off` in `s`.
pub open spec fn le32_at(s: Seq<u8>, off: int) -> u32 {
    (s[off] as int + s[off + 1] as int * 256 + s[off + 2] as int * 65536 + s[off + 3] as int
        * 16777216) as u32
}

/// The four little-endian bytes of a 32-bit value recombine to the value.
pub proof fn lemma_le32_reassemble(x: u32)
    ensures
        le32_byte(x, 0) as int + le32_byte(x, 1) as int * 256 + le32_byte(x, 2) as int * 65536
            + le32_byte(x, 3) as int * 16777216 == x as int,
{
}

/// Length of the prefix of `s` before the first padding byte (0x20).
pub open spec fn cut_len(s: Seq<u8>) -> int
    decreases s.len(),
{
    if s.len() == 0 {
        0
    } else if s[0] == 0x20 {
        0
    } else {
        1 + cut_len(s.drop_first())
    }
}

/// `cut_len(s)` is the unique index whose prefix is free of padding and
/// which either hits padding or the end of `s`.
pub proof fn lemma_cut_len_is(s: Seq<u8>, i: int)
    requires
        0 <= i <= s.len(),
        forall|j: int| 0 <= j < i ==> s[j] != 0x20,
        i < s.len() ==> s[i] == 0x20,
    ensures
        cut_len(s) == i,
    decreases s.len(),
{
    if s.len() != 0 && s[0] != 0x20 {
        lemma_cut_len_is(s.drop_first(), i - 1);
    }
}

/// A short (8.3-name) directory entry: 32 bytes on disk.
#[derive(Clone, Copy, Debug)]
pub struct ShortDirectoryEntry {
    pub name: [u8; 8],
    pub extension: [u8; 3],
    pub attribute: FileAttributes,
    pub os_reserved: u8,
    pub creation_tenths: u8,
    pub creation_time: u16,
    pub creation_date: u16,
    pub last_acc_date: u16,
    pub cluster_high: u16,
    pub modification_time: u16,
    pub modification_date: u16,
    pub cluster_low: u16,
    pub size: u32,
}

impl ShortDirectoryEntry {
    /// A blank entry: all bytes zero but the name buffers, which hold padding
    /// only where stated by the caller.  Used as the base for `new`.
    pub fn empty() -> (r: Self)
        ensures
            r == (ShortDirectoryEntry {
                name: r.name,
                extension: r.extension,
                attribute: FileAttributes { bits: 0 },
                os_reserved: 0u8,
                creation_tenths: 0u8,
                creation_time: 0u16,
                creation_date: 0u16,
                last_acc_date: 0u16,
                cluster_high: 0u16,
                modification_time: 0u16,
                modification_date: 0u16,
                cluster_low: 0u16,
                size: 0u32,
            }),
            r.name@ == Seq::<u8>::new(8, |i: int| 0u8),
            r.extension@ == Seq::<u8>::new(3, |i: int| 0u8),
    {
        let r = ShortDirectoryEntry {
            name: [0u8, 0u8, 0u8, 0u8, 0u8, 0u8, 0u8, 0u8],
            extension: [0u8, 0u8, 0u8],
            attribute: FileAttributes { bits: 0 },
            os_reserved: 0u8,
            creation_tenths: 0u8,
            creation_time: 0u16,
            creation_date: 0u16,
            last_acc_date: 0u16,
            cluster_high: 0u16,
            modification_time: 0u16,
            modification_date: 0u16,
            cluster_low: 0u16,
            size: 0u32,
        };
        proof {
            assert(r.name@ =~= Seq::<u8>::new(8, |i: int| 0u8));
            assert(r.extension@ =~= Seq::<u8>::new(3, |i: int| 0u8));
        }
        r
    }

    /// Build an entry from its name buffers, attribute and first cluster;
    /// every timestamp and the size start at zero.
    pub fn new(name: [u8; 8], extension: [u8; 3], attribute: FileAttributes, first_cluster: u32)
        -> (r: Self)
        ensures
            r.name@ == name@,
            r.extension@ == extension@,
            r.attribute == attribute,
            r.spec_first_cluster() == first_cluster,
            r.size == 0,
            r.creation_time == 0 && r.creation_date == 0,
            r.modification_time == 0 && r.modification_date == 0,
            r.last_acc_date == 0,
            r.os_reserved == 0,
            r.creation_tenths == 0,
    {
        let r = ShortDirectoryEntry {
            name,
            extension,
            attribute,
            os_reserved: 0u8,
            creation_tenths: 0u8,
            creation_time: 0u16,
            creation_date: 0u16,
            last_acc_date: 0u16,
            cluster_high: (first_cluster / 65536) as u16,
            modification_time: 0u16,
            modification_date: 0u16,
            cluster_low: (first_cluster % 65536) as u16,
            size: 0u32,
        };
        r
    }

    pub fn attribute(&self) -> (r: FileAttributes)
        ensures
            r == self.attribute,
    {
        self.attribute
    }

    /// True when the DIRECTORY attribute bit is set.
    pub open spec fn spec_is_dir(self) -> bool {
        self.attribute.bits & 0x10 == 0x10
    }

    pub fn is_dir(&self) -> (r: bool)
        ensures
            r == self.spec_is_dir(),
    {
        self.attribute.contains(FileAttributes::directory())
    }

    /// True when the VOLUME_ID attribute bit is set.
    pub open spec fn spec_is_volume(self) -> bool {
        self.attribute.bits & 0x08 == 0x08
    }

    pub fn is_volume(&self) -> (r: bool)
        ensures
            r == self.spec_is_volume(),
    {
        self.attribute.contains(FileAttributes::volume_id())
    }

    /// True when the first name byte carries the deletion mark 0xE5.
    pub open spec fn spec_is_deleted(self) -> bool {
        self.name@[0] == 0xE5
    }

    pub fn is_deleted(&self) -> (r: bool)
        ensures
            r == self.spec_is_deleted(),
    {
        self.name[0] == 0xE5
    }

    /// Mark the entry deleted: first name byte becomes 0xE5.
    pub fn set_deleted(&mut self)
        ensures
            final(self).name@ == old(self).name@.update(0, 0xE5u8),
            *final(self) == (ShortDirectoryEntry { name: final(self).name, ..*old(self) }),
    {
        self.name[0] = 0xE5;
    }

    /// True when the first name byte is 0x00: the slot was never used.
    pub open spec fn spec_is_empty(self) -> bool {
        self.name@[0] == 0x00
    }

    pub fn is_empty(&self) -> (r: bool)
        ensures
            r == self.spec_is_empty(),
    {
        self.name[0] == 0x00
    }

    /// A slot available for reuse: deleted or never used.
    pub open spec fn spec_is_free(self) -> bool {
        self.spec_is_deleted() || self.spec_is_empty()
    }

    pub fn is_free(&self) -> (r: bool)
        ensures
            r == self.spec_is_free(),
    {
        self.is_deleted() || self.is_empty()
    }

    /// Neither a directory nor a volume label.
    pub open spec fn spec_is_file(self) -> bool {
        !self.spec_is_dir() && !self.spec_is_volume()
    }

    pub fn is_file(&self) -> (r: bool)
        ensures
            r == self.spec_is_file(),
    {
        !self.is_dir() && !self.is_volume()
    }

    /// True when the attribute byte does not carry all four LONG_NAME bits.
    pub open spec fn spec_is_short(self) -> bool {
        self.attribute.bits & 0x0F != 0x0F
    }

    pub fn is_short(&self) -> (r: bool)
        ensures
            r == self.spec_is_short(),
    {
        !self.attribute.contains(FileAttributes::long_name())
    }

    /// The first cluster id, reassembled from its high and low halves.
    pub open spec fn spec_first_cluster(self) -> u32 {
        (self.cluster_high as int * 65536 + self.cluster_low as int) as u32
    }

    pub fn first_cluster(&self) -> (r: u32)
        ensures
            r == self.spec_first_cluster(),
    {
        (self.cluster_high as u32) * 65536 + (self.cluster_low as u32)
    }

    pub fn set_first_cluster(&mut self, cluster: u32)
        ensures
            final(self).spec_first_cluster() == cluster,
            *final(self) == (ShortDirectoryEntry {
                cluster_high: final(self).cluster_high,
                cluster_low: final(self).cluster_low,
                ..*old(self)
            }),
    {
        self.cluster_high = (cluster / 65536) as u16;
        self.cluster_low = (cluster % 65536) as u16;
    }

    /// The size field, exposed only for regular files.
    pub fn size(&self) -> (r: Option<u32>)
        ensures
            r == if self.spec_is_file() {
                Some(self.size)
            } else {
                None::<u32>
            },
    {
        if self.is_file() {
            Some(self.size)
        } else {
            None
        }
    }

    pub fn set_size(&mut self, size: u32)
        ensures
            *final(self) == (ShortDirectoryEntry { size, ..*old(self) }),
    {
        self.size = size;
    }

    /// Seconds since the 1980-01-01 anchor of a decoded timestamp, using the
    /// on-disk convention of 365-day years and 30-day months.
    pub open spec fn spec_long_sec(year: int, month: int, day: int, hour: int, min: int, sec: int)
        -> int {
        (((year - 1980) * 365 + month * 30 + day) * 24 + hour) * 3600 + min * 60 + sec
    }

    /// Decode a date/time pair: returns (year, month, day, hour, minute,
    /// second, seconds-since-anchor).
    fn decode_time(date: u16, time: u16) -> (r: (u32, u32, u32, u32, u32, u32, u64))
        ensures
            r.0 == date as int / 512 + 1980,
            r.1 == (date as int / 32) % 16,
            r.2 == date as int % 32,
            r.3 == time as int / 2048,
            r.4 == (time as int / 32) % 64,
            r.5 == (time as int % 32) * 2,
            r.6 == Self::spec_long_sec(
                r.0 as int,
                r.1 as int,
                r.2 as int,
                r.3 as int,
                r.4 as int,
                r.5 as int,
            ),
    {
        let year: u32 = (date / 512) as u32 + 1980;
        let month: u32 = ((date / 32) % 16) as u32;
        let day: u32 = (date % 32) as u32;
        let hour: u32 = (time / 2048) as u32;
        let min: u32 = ((time / 32) % 64) as u32;
        let sec: u32 = ((time % 32) * 2) as u32;
        let long_sec: u64 = ((((year as u64 - 1980) * 365 + month as u64 * 30 + day as u64) * 24
            + hour as u64) * 3600) + min as u64 * 60 + sec as u64;
        (year, month, day, hour, min, sec, long_sec)
    }

    /// Creation timestamp as (year, month, day, hour, minute, second,
    /// seconds-since-anchor).
    pub fn get_creation_time(&self) -> (r: (u32, u32, u32, u32, u32, u32, u64))
        ensures
            r.0 == self.creation_date as int / 512 + 1980,
            r.1 == (self.creation_date as int / 32) % 16,
            r.2 == self.creation_date as int % 32,
            r.3 == self.creation_time as int / 2048,
            r.4 == (self.creation_time as int / 32) % 64,
            r.5 == (self.creation_time as int % 32) * 2,
            r.6 == Self::spec_long_sec(
                r.0 as int,
                r.1 as int,
                r.2 as int,
                r.3 as int,
                r.4 as int,
                r.5 as int,
            ),
    {
        Self::decode_time(self.creation_date, self.creation_time)
    }

    /// Modification timestamp, in the same shape as `get_creation_time`.
    pub fn modification_time(&self) -> (r: (u32, u32, u32, u32, u32, u32, u64))
        ensures
            r.0 == self.modification_date as int / 512 + 1980,
            r.1 == (self.modification_date as int / 32) % 16,
            r.2 == self.modification_date as int % 32,
            r.3 == self.modification_time as int / 2048,
            r.4 == (self.modification_time as int / 32) % 64,
            r.5 == (self.modification_time as int % 32) * 2,
            r.6 == Self::spec_long_sec(
                r.0 as int,
                r.1 as int,
                r.2 as int,
                r.3 as int,
                r.4 as int,
                r.5 as int,
            ),
    {
        Self::decode_time(self.modification_date, self.modification_time)
    }

    /// Last-access timestamp; the on-disk format stores only a date, so the
    /// time-of-day components are zero.
    pub fn accessed_time(&self) -> (r: (u32, u32, u32, u32, u32, u32, u64))
        ensures
            r.0 == self.last_acc_date as int / 512 + 1980,
            r.1 == (self.last_acc_date as int / 32) % 16,
            r.2 == self.last_acc_date as int % 32,
            r.3 == 0 && r.4 == 0 && r.5 == 0,
            r.6 == Self::spec_long_sec(r.0 as int, r.1 as int, r.2 as int, 0, 0, 0),
    {
        Self::decode_time(self.last_acc_date, 0)
    }

    /// The 11 bytes the checksum is computed over: name then extension.
    pub open spec fn spec_name_ext(self) -> Seq<u8> {
        self.name@ + self.extension@
    }

    /// The checksum of this entry's 11-byte name buffer.
    pub open spec fn spec_checksum(self) -> u8 {
        spec_checksum_of(self.spec_name_ext())
    }

    /// Compute the rotate-right-and-add checksum over name and extension.
    pub fn checksum(&self) -> (sum: u8)
        ensures
            sum == self.spec_checksum(),
    {
        let mut sum: u8 = 0;
        let mut i: usize = 0;
        while i < 11
            invariant
                0 <= i <= 11,
                sum == spec_checksum_of(self.spec_name_ext().take(i as int)),
            decreases 11 - i,
        {
            let b: u8 = if i < 8 {
                self.name[i]
            } else {
                self.extension[i - 8]
            };
            proof {
                assert(self.spec_name_ext().take(i + 1).drop_last() =~= self.spec_name_ext().take(
                    i as int,
                ));
                assert(self.spec_name_ext().take(i + 1).last() == b);
            }
            let t: u16 = (sum / 2) as u16 + ((sum % 2) as u16) * 128 + b as u16;
            sum = (t % 256) as u8;
            i = i + 1;
        }
        proof {
            assert(self.spec_name_ext().take(11) =~= self.spec_name_ext());
        }
        sum
    }

    /// The rendered name: the unpadded base, then, if the extension is
    /// nonempty, a dot and the unpadded extension.
    pub open spec fn spec_name(self) -> Seq<char> {
        let base = self.name@.take(cut_len(self.name@)).map(|i: int, b: u8| b as char);
        let el = cut_len(self.extension@);
        if el > 0 {
            base + seq!['.'] + self.extension@.take(el).map(|i: int, b: u8| b as char)
        } else {
            base
        }
    }

    /// Render the 8.3 name as a string, stripping the space padding.
    pub fn name(&self) -> (r: String)
        ensures
            r@ == self.spec_name(),
    {
        let mut s = String::new();
        let mut i: usize = 0;
        let ghost base = self.name@.take(cut_len(self.name@)).map(|k: int, b: u8| b as char);
        while i < 8
            invariant
                0 <= i <= 8,
                forall|j: int| 0 <= j < i ==> self.name@[j] != 0x20,
                s@ == self.name@.take(i as int).map(|k: int, b: u8| b as char),
            ensures
                0 <= i <= 8,
                forall|j: int| 0 <= j < i ==> self.name@[j] != 0x20,
                i < 8 ==> self.name@[i as int] == 0x20,
                s@ == self.name@.take(i as int).map(|k: int, b: u8| b as char),
            decreases 8 - i,
        {
            if self.name[i] == 0x20 {
                break ;
            }
            let c: char = self.name[i] as char;
            s.push(c);
            proof {
                assert(self.name@.take(i + 1).map(|k: int, b: u8| b as char) =~= self.name@.take(
                    i as int,
                ).map(|k: int, b: u8| b as char).push(c));
            }
            i = i + 1;
        }
        proof {
            if i < 8 && self.name@[i as int] == 0x20 {
                lemma_cut_len_is(self.name@, i as int);
            } else {
                lemma_cut_len_is(self.name@, 8);
            }
            assert(s@ == base);
        }
        let mut j: usize = 0;
        while j < 3
            invariant
                0 <= j <= 3,
                forall|k: int| 0 <= k < j ==> self.extension@[k] != 0x20,
                j == 0 ==> s@ == base,
                j > 0 ==> s@ == base + seq!['.'] + self.extension@.take(j as int).map(
                    |k: int, b: u8| b as char,
                ),
            ensures
                0 <= j <= 3,
                forall|k: int| 0 <= k < j ==> self.extension@[k] != 0x20,
                j < 3 ==> self.extension@[j as int] == 0x20,
                j == 0 ==> s@ == base,
                j > 0 ==> s@ == base + seq!['.'] + self.extension@.take(j as int).map(
                    |k: int, b: u8| b as char,
                ),
            decreases 3 - j,
        {
            if self.extension[j] == 0x20 {
                break ;
            }
            if j == 0 {
                s.push('.');
                proof {
                    assert(s@ =~= base + seq!['.'] + self.extension@.take(0).map(
                        |k: int, b: u8| b as char,
                    ));
                }
            }
            let c: char = self.extension[j] as char;
            s.push(c);
            proof {
                assert(self.extension@.take(j + 1).map(|k: int, b: u8| b as char)
                    =~= self.extension@.take(j as int).map(|k: int, b: u8| b as char).push(c));
                assert(s@ =~= base + seq!['.'] + self.extension@.take(j + 1).map(
                    |k: int, b: u8| b as char,
                ));
            }
            j = j + 1;
        }
        proof {
            if j < 3 && self.extension@[j as int] == 0x20 {
                lemma_cut_len_is(self.extension@, j as int);
            } else {
                lemma_cut_len_is(self.extension@, 3);
            }
            if cut_len(self.extension@) > 0 {
                assert(s@ == self.spec_name());
            } else {
                assert(s@ == self.spec_name());
            }
        }
        s
    }

    /// Byte `i` of the serialized 32-byte entry.
    pub open spec fn spec_byte(self, i: int) -> u8 {
        if 0 <= i < 8 {
            self.name@[i]
        } else if i < 11 {
            self.extension@[i - 8]
        } else if i == 11 {
            self.attribute.bits
        } else if i == 12 {
            self.os_reserved
        } else if i == 13 {
            self.creation_tenths
        } else if i == 14 {
            lo16(self.creation_time)
        } else if i == 15 {
            hi16(self.creation_time)
        } else if i == 16 {
            lo16(self.creation_date)
        } else if i == 17 {
            hi16(self.creation_date)
        } else if i == 18 {
            lo16(self.last_acc_date)
        } else if i == 19 {
            hi16(self.last_acc_date)
        } else if i == 20 {
            lo16(self.cluster_high)
        } else if i == 21 {
            hi16(self.cluster_high)
        } else if i == 22 {
            lo16(self.modification_time)
        } else if i == 23 {
            hi16(self.modification_time)
        } else if i == 24 {
            lo16(self.modification_date)
        } else if i == 25 {
            hi16(self.modification_date)
        } else if i == 26 {
            lo16(self.cluster_low)
        } else if i == 27 {
            hi16(self.cluster_low)
        } else if 28 <= i < 32 {
            le32_byte(self.size, i - 28)
        } else {
            0
        }
    }

    /// The serialized 32-byte on-disk form.
    pub open spec fn spec_bytes(self) -> Seq<u8> {
        Seq::new(32, |i: int| self.spec_byte(i))
    }

    /// Serialize the entry into its 32-byte on-disk form.
    pub fn as_bytes(&self) -> (r: Vec<u8>)
        ensures
            r@ == self.spec_bytes(),
    {
        let mut v: Vec<u8> = Vec::new();
        let mut i: usize = 0;
        while i < 8
            invariant
                0 <= i <= 8,
                v@.len() == i,
                forall|j: int| 0 <= j < i ==> v@[j] == self.spec_byte(j),
            decreases 8 - i,
        {
            v.push(self.name[i]);
            i = i + 1;
        }
        let mut j: usize = 0;
        while j < 3
            invariant
                0 <= j <= 3,
                v@.len() == 8 + j,
                forall|k: int| 0 <= k < 8 + j ==> v@[k] == self.spec_byte(k),
            decreases 3 - j,
        {
            v.push(self.extension[j]);
            j = j + 1;
        }
        v.push(self.attribute.bits);
        v.push(self.os_reserved);
        v.push(self.creation_tenths);
        v.push((self.creation_time % 256) as u8);
        v.push((self.creation_time / 256) as u8);
        v.push((self.creation_date % 256) as u8);
        v.push((self.creation_date / 256) as u8);
        v.push((self.last_acc_date % 256) as u8);
        v.push((self.last_acc_date / 256) as u8);
        v.push((self.cluster_high % 256) as u8);
        v.push((self.cluster_high / 256) as u8);
        v.push((self.modification_time % 256) as u8);
        v.push((self.modification_time / 256) as u8);
        v.push((self.modification_date % 256) as u8);
        v.push((self.modification_date / 256) as u8);
        v.push((self.cluster_low % 256) as u8);
        v.push((self.cluster_low / 256) as u8);
        v.push((self.size % 256) as u8);
        v.push(((self.size / 256) % 256) as u8);
        v.push(((self.size / 65536) % 256) as u8);
        v.push((self.size / 16777216) as u8);
        proof {
            assert(v@ =~= self.spec_bytes());
        }
        v
    }

    /// The entry described by 32 serialized bytes.
    pub open spec fn spec_from_bytes(s: Seq<u8>) -> ShortDirectoryEntry {
        ShortDirectoryEntry {
            name: [s[0], s[1], s[2], s[3], s[4], s[5], s[6], s[7]],
            extension: [s[8], s[9], s[10]],
            attribute: FileAttributes { bits: s[11] },
            os_reserved: s[12],
            creation_tenths: s[13],
            creation_time: le16_at(s, 14),
            creation_date: le16_at(s, 16),
            last_acc_date: le16_at(s, 18),
            cluster_high: le16_at(s, 20),
            modification_time: le16_at(s, 22),
            modification_date: le16_at(s, 24),
            cluster_low: le16_at(s, 26),
            size: le32_at(s, 28),
        }
    }

    /// Parse a 32-byte slot back into an entry.
    pub fn from_bytes(bytes: &Vec<u8>) -> (r: Self)
        requires
            bytes@.len() == 32,
        ensures
            r == Self::spec_from_bytes(bytes@),
    {
        ShortDirectoryEntry {
            name: [
                bytes[0],
                bytes[1],
                bytes[2],
                bytes[3],
                bytes[4],
                bytes[5],
                bytes[6],
                bytes[7],
            ],
            extension: [bytes[8], bytes[9], bytes[10]],
            attribute: FileAttributes { bits: bytes[11] },
            os_reserved: bytes[12],
            creation_tenths: bytes[13],
            creation_time: bytes[14] as u16 + bytes[15] as u16 * 256,
            creation_date: bytes[16] as u16 + bytes[17] as u16 * 256,
            last_acc_date: bytes[18] as u16 + bytes[19] as u16 * 256,
            cluster_high: bytes[20] as u16 + bytes[21] as u16 * 256,
            modification_time: bytes[22] as u16 + bytes[23] as u16 * 256,
            modification_date: bytes[24] as u16 + bytes[25] as u16 * 256,
            cluster_low: bytes[26] as u16 + bytes[27] as u16 * 256,
            size: bytes[28] as u32 + bytes[29] as u32 * 256 + bytes[30] as u32 * 65536 + bytes[31]
                as u32 * 16777216,
        }
    }
}

/// Length of the prefix of UTF-16 units before the first terminator (0x0000).
pub open spec fn unit_cut_len(s: Seq<u16>) -> int
    decreases s.len(),
{
    if s.len() == 0 {
        0
    } else if s[0] == 0u16 {
        0
    } else {
        1 + unit_cut_len(s.drop_first())
    }
}

/// `unit_cut_len(s)` is the unique index whose prefix is free of terminators
/// and which either hits a terminator or the end of `s`.
pub proof fn lemma_unit_cut_len_is(s: Seq<u16>, i: int)
    requires
        0 <= i <= s.len(),
        forall|j: int| 0 <= j < i ==> s[j] != 0u16,
        i < s.len() ==> s[i] == 0u16,
    ensures
        unit_cut_len(s) == i,
    decreases s.len(),
{
    if s.len() != 0 && s[0] != 0u16 {
        lemma_unit_cut_len_is(s.drop_first(), i - 1);
    }
}

/// Decode a sequence of UTF-16 code units character by character, skipping
/// units that are not Unicode scalar values (unpaired surrogates).
pub open spec fn spec_decoded(us: Seq<u16>) -> Seq<char>
    decreases us.len(),
{
    if us.len() == 0 {
        Seq::<char>::empty()
    } else {
        let pre = spec_decoded(us.drop_last());
        if crate::strings::is_unicode_scalar(us.last() as u32) {
            pre.push(crate::strings::char_of(us.last() as u32))
        } else {
            pre
        }
    }
}

/// A long-filename directory entry: 32 bytes on disk carrying 13 UTF-16
/// code units of the name.
#[derive(Clone, Copy, Debug)]
pub struct LongDirectoryEntry {
    pub order: u8,
    pub name1: [u16; 5],
    pub attribute: FileAttributes,
    pub entry_type: u8,
    pub checksum: u8,
    pub name2: [u16; 6],
    pub zero: [u8; 2],
    pub name3: [u16; 2],
}

impl LongDirectoryEntry {
    /// The 13 stored code units, in logical order.
    pub open spec fn spec_name_units(self) -> Seq<u16> {
        self.name1@ + self.name2@ + self.name3@
    }

    /// Build a long entry from 13 code units, an order byte and the paired
    /// short entry's checksum; the attribute is the LONG_NAME marker.
    pub fn new(name: [u16; 13], order: u8, checksum: u8) -> (r: Self)
        ensures
            r.spec_name_units() == name@,
            r.order == order,
            r.checksum == checksum,
            r.attribute.bits == 0x0F,
            r.entry_type == 0,
            r.zero@ == seq![0u8, 0u8],
    {
        let mut e = LongDirectoryEntry {
            order,
            name1: [0u16, 0u16, 0u16, 0u16, 0u16],
            attribute: FileAttributes { bits: 0x0F },
            entry_type: 0u8,
            checksum,
            name2: [0u16, 0u16, 0u16, 0u16, 0u16, 0u16],
            zero: [0u8, 0u8],
            name3: [0u16, 0u16],
        };
        e.name_from_slice(&name);
        proof {
            assert(e.zero@ =~= seq![0u8, 0u8]);
        }
        e
    }

    /// Load the 13 code units from a buffer in logical order.
    pub fn name_from_slice(&mut self, long_entry_name: &[u16; 13])
        ensures
            final(self).spec_name_units() == long_entry_name@,
            *final(self) == (LongDirectoryEntry {
                name1: final(self).name1,
                name2: final(self).name2,
                name3: final(self).name3,
                ..*old(self)
            }),
    {
        self.name1 = [
            long_entry_name[0],
            long_entry_name[1],
            long_entry_name[2],
            long_entry_name[3],
            long_entry_name[4],
        ];
        self.name2 = [
            long_entry_name[5],
            long_entry_name[6],
            long_entry_name[7],
            long_entry_name[8],
            long_entry_name[9],
            long_entry_name[10],
        ];
        self.name3 = [long_entry_name[11], long_entry_name[12]];
        proof {
            assert(self.spec_name_units() =~= long_entry_name@);
        }
    }

    /// Return the 13 code units as one array in logical order.
    pub fn name_to_array(&self) -> (r: [u16; 13])
        ensures
            r@ == self.spec_name_units(),
    {
        let r = [
            self.name1[0],
            self.name1[1],
            self.name1[2],
            self.name1[3],
            self.name1[4],
            self.name2[0],
            self.name2[1],
            self.name2[2],
            self.name2[3],
            self.name2[4],
            self.name2[5],
            self.name3[0],
            self.name3[1],
        ];
        proof {
            assert(r@ =~= self.spec_name_units());
        }
        r
    }

    /// The characters this entry stores: its units up to the terminator,
    /// decoded.
    pub open spec fn spec_name_format(self) -> Seq<char> {
        let us = self.spec_name_units();
        spec_decoded(us.take(unit_cut_len(us)))
    }

    /// Decode the stored name fragment into a string, stopping at the
    /// 0x0000 terminator and skipping unpaired surrogates.
    pub fn name_format(&self) -> (r: String)
        ensures
            r@ == self.spec_name_format(),
    {
        let units = self.name_to_array();
        let ghost us = self.spec_name_units();
        let mut s = String::new();
        let mut i: usize = 0;
        while i < 13
            invariant
                0 <= i <= 13,
                units@ == us,
                forall|j: int| 0 <= j < i ==> us[j] != 0u16,
                s@ == spec_decoded(us.take(i as int)),
            ensures
                0 <= i <= 13,
                units@ == us,
                forall|j: int| 0 <= j < i ==> us[j] != 0u16,
                i < 13 ==> us[i as int] == 0u16,
                s@ == spec_decoded(us.take(i as int)),
            decreases 13 - i,
        {
            let u = units[i];
            if u == 0 {
                break ;
            }
            proof {
                assert(us.take(i + 1).drop_last() =~= us.take(i as int));
                assert(us.take(i + 1).last() == u);
            }
            match char::from_u32(u as u32) {
                Some(c) => {
                    proof {
                        crate::strings::lemma_char_of(u as u32, c);
                    }
                    s.push(c);
                },
                None => {},
            }
            i = i + 1;
        }
        proof {
            if i < 13 {
                lemma_unit_cut_len_is(us, i as int);
            } else {
                lemma_unit_cut_len_is(us, 13);
            }
        }
        s
    }

    pub fn order(&self) -> (r: u8)
        ensures
            r == self.order,
    {
        self.order
    }

    /// The order byte with the last-entry bit cleared.
    pub fn raw_order(&self) -> (r: u8)
        ensures
            r == self.order ^ 0x40u8,
    {
        self.order ^ 0x40
    }

    pub fn attribute(&self) -> (r: FileAttributes)
        ensures
            r == self.attribute,
    {
        self.attribute
    }

    /// True when the order byte is 0x00: the slot was never used.
    pub open spec fn spec_is_empty(self) -> bool {
        self.order == 0x00
    }

    pub fn is_empty(&self) -> (r: bool)
        ensures
            r == self.spec_is_empty(),
    {
        self.order == 0x00
    }

    /// True when the order byte carries the deletion mark 0xE5.
    pub open spec fn spec_is_deleted(self) -> bool {
        self.order == 0xE5
    }

    pub fn is_deleted(&self) -> (r: bool)
        ensures
            r == self.spec_is_deleted(),
    {
        self.order == 0xE5
    }

    /// A slot available for reuse: deleted or never used.
    pub open spec fn spec_is_free(self) -> bool {
        self.spec_is_empty() || self.spec_is_deleted()
    }

    pub fn is_free(&self) -> (r: bool)
        ensures
            r == self.spec_is_free(),
    {
        self.is_empty() || self.is_deleted()
    }

    /// True when the attribute carries all four LONG_NAME bits.
    pub open spec fn spec_is_long(self) -> bool {
        self.attribute.bits & 0x0F == 0x0F
    }

    pub fn is_long(&self) -> (r: bool)
        ensures
            r == self.spec_is_long(),
    {
        self.attribute.contains(FileAttributes::long_name())
    }

    /// Mark the entry deleted: the order byte becomes 0xE5.
    pub fn set_deleted(&mut self)
        ensures
            *final(self) == (LongDirectoryEntry { order: 0xE5u8, ..*old(self) }),
    {
        self.order = 0xE5;
    }

    /// True when the last-entry bit (0x40) is set in the order byte.
    pub open spec fn spec_is_last(self) -> bool {
        self.order & 0x40 != 0
    }

    pub fn is_last(&self) -> (r: bool)
        ensures
            r == self.spec_is_last(),
    {
        (self.order & 0x40) != 0
    }

    pub fn checksum(&self) -> (r: u8)
        ensures
            r == self.checksum,
    {
        self.checksum
    }

    /// Byte `i` of the serialized 32-byte entry.
    pub open spec fn spec_byte(self, i: int) -> u8 {
        if i == 0 {
            self.order
        } else if i == 1 {
            lo16(self.name1@[0])
        } else if i == 2 {
            hi16(self.name1@[0])
        } else if i == 3 {
            lo16(self.name1@[1])
        } else if i == 4 {
            hi16(self.name1@[1])
        } else if i == 5 {
            lo16(self.name1@[2])
        } else if i == 6 {
            hi16(self.name1@[2])
        } else if i == 7 {
            lo16(self.name1@[3])
        } else if i == 8 {
            hi16(self.name1@[3])
        } else if i == 9 {
            lo16(self.name1@[4])
        } else if i == 10 {
            hi16(self.name1@[4])
        } else if i == 11 {
            self.attribute.bits
        } else if i == 12 {
            self.entry_type
        } else if i == 13 {
            self.checksum
        } else if i == 14 {
            lo16(self.name2@[0])
        } else if i == 15 {
            hi16(self.name2@[0])
        } else if i == 16 {
            lo16(self.name2@[1])
        } else if i == 17 {
            hi16(self.name2@[1])
        } else if i == 18 {
            lo16(self.name2@[2])
        } else if i == 19 {
            hi16(self.name2@[2])
        } else if i == 20 {
            lo16(self.name2@[3])
        } else if i == 21 {
            hi16(self.name2@[3])
        } else if i == 22 {
            lo16(self.name2@[4])
        } else if i == 23 {
            hi16(self.name2@[4])
        } else if i == 24 {
            lo16(self.name2@[5])
        } else if i == 25 {
            hi16(self.name2@[5])
        } else if i == 26 {
            self.zero@[0]
        } else if i == 27 {
            self.zero@[1]
        } else if i == 28 {
            lo16(self.name3@[0])
        } else if i == 29 {
            hi16(self.name3@[0])
        } else if i == 30 {
            lo16(self.name3@[1])
        } else if i == 31 {
            hi16(self.name3@[1])
        } else {
            0
        }
    }

    /// The serialized 32-byte on-disk form.
    pub open spec fn spec_bytes(self) -> Seq<u8> {
        Seq::new(32, |i: int| self.spec_byte(i))
    }

    /// Serialize the entry into its 32-byte on-disk form.
    pub fn as_bytes(&self) -> (r: Vec<u8>)
        ensures
            r@ == self.spec_bytes(),
    {
        let mut v: Vec<u8> = Vec::new();
        v.push(self.order);
        v.push((self.name1[0] % 256) as u8);
        v.push((self.name1[0] / 256) as u8);
        v.push((self.name1[1] % 256) as u8);
        v.push((self.name1[1] / 256) as u8);
        v.push((self.name1[2] % 256) as u8);
        v.push((self.name1[2] / 256) as u8);
        v.push((self.name1[3] % 256) as u8);
        v.push((self.name1[3] / 256) as u8);
        v.push((self.name1[4] % 256) as u8);
        v.push((self.name1[4] / 256) as u8);
        v.push(self.attribute.bits);
        v.push(self.entry_type);
        v.push(self.checksum);
        v.push((self.name2[0] % 256) as u8);
        v.push((self.name2[0] / 256) as u8);
        v.push((self.name2[1] % 256) as u8);
        v.push((self.name2[1] / 256) as u8);
        v.push((self.name2[2] % 256) as u8);
        v.push((self.name2[2] / 256) as u8);
        v.push((self.name2[3] % 256) as u8);
        v.push((self.name2[3] / 256) as u8);
        v.push((self.name2[4] % 256) as u8);
        v.push((self.name2[4] / 256) as u8);
        v.push((self.name2[5] % 256) as u8);
        v.push((self.name2[5] / 256) as u8);
        v.push(self.zero[0]);
        v.push(self.zero[1]);
        v.push((self.name3[0] % 256) as u8);
        v.push((self.name3[0] / 256) as u8);
        v.push((self.name3[1] % 256) as u8);
        v.push((self.name3[1] / 256) as u8);
        proof {
            assert(v@ =~= self.spec_bytes());
        }
        v
    }

    /// The entry described by 32 serialized bytes.
    pub open spec fn spec_from_bytes(s: Seq<u8>) -> LongDirectoryEntry {
        LongDirectoryEntry {
            order: s[0],
            name1: [le16_at(s, 1), le16_at(s, 3), le16_at(s, 5), le16_at(s, 7), le16_at(s, 9)],
            attribute: FileAttributes { bits: s[11] },
            entry_type: s[12],
            checksum: s[13],
            name2: [
                le16_at(s, 14),
                le16_at(s, 16),
                le16_at(s, 18),
                le16_at(s, 20),
                le16_at(s, 22),
                le16_at(s, 24),
            ],
            zero: [s[26], s[27]],
            name3: [le16_at(s, 28), le16_at(s, 30)],
        }
    }

    /// Parse a 32-byte slot back into a long entry.
    pub fn from_bytes(bytes: &Vec<u8>) -> (r: Self)
        requires
            bytes@.len() == 32,
        ensures
            r == Self::spec_from_bytes(bytes@),
    {
        LongDirectoryEntry {
            order: bytes[0],
            name1: [
                bytes[1] as u16 + bytes[2] as u16 * 256,
                bytes[3] as u16 + bytes[4] as u16 * 256,
                bytes[5] as u16 + bytes[6] as u16 * 256,
                bytes[7] as u16 + bytes[8] as u16 * 256,
                bytes[9] as u16 + bytes[10] as u16 * 256,
            ],
            attribute: FileAttributes { bits: bytes[11] },
            entry_type: bytes[12],
            checksum: bytes[13],
            name2: [
                bytes[14] as u16 + bytes[15] as u16 * 256,
                bytes[16] as u16 + bytes[17] as u16 * 256,
                bytes[18] as u16 + bytes[19] as u16 * 256,
                bytes[20] as u16 + bytes[21] as u16 * 256,
                bytes[22] as u16 + bytes[23] as u16 * 256,
                bytes[24] as u16 + bytes[25] as u16 * 256,
            ],
            zero: [bytes[26], bytes[27]],
            name3: [bytes[28] as u16 + bytes[29] as u16 * 256, bytes[30] as u16 + bytes[31] as u16
                * 256],
        }
    }
}

/// Parsing the serialized form of a long entry yields the entry back.
pub proof fn lemma_long_entry_roundtrip(e: LongDirectoryEntry)
    ensures
        LongDirectoryEntry::spec_from_bytes(e.spec_bytes()) == e,
{
    let s = e.spec_bytes();
    let r = LongDirectoryEntry::spec_from_bytes(s);
    assert(r.name1@ =~= e.name1@);
    assert(r.name2@ =~= e.name2@);
    assert(r.name3@ =~= e.name3@);
    assert(r.zero@ =~= e.zero@);
    assert(r.name1 == e.name1);
    assert(r.name2 == e.name2);
    assert(r.name3 == e.name3);
    assert(r.zero == e.zero);
}

/// Parsing the serialized form of a short entry yields the entry back.
#[verifier::rlimit(100)]
pub proof fn lemma_short_entry_roundtrip(e: ShortDirectoryEntry)
    ensures
        ShortDirectoryEntry::spec_from_bytes(e.spec_bytes()) == e,
{
    let s = e.spec_bytes();
    let r = ShortDirectoryEntry::spec_from_bytes(s);
    assert(r.name@ =~= e.name@);
    assert(r.extension@ =~= e.extension@);
    assert(r.name == e.name);
    assert(r.extension == e.extension);
    assert(r.creation_time == e.creation_time);
    assert(r.creation_date == e.creation_date);
    assert(r.last_acc_date == e.last_acc_date);
    assert(r.cluster_high == e.cluster_high);
    assert(r.modification_time == e.modification_time);
    assert(r.modification_date == e.modification_date);
    assert(r.cluster_low == e.cluster_low);
    lemma_le32_reassemble(e.size);
    assert(r.size == e.size);
}


/// The short-name checksum is a pure function of the eleven name bytes:
/// equal inputs give equal sums, so only the identity rearrangement is
/// guaranteed to preserve it.
pub proof fn lemma_checksum_deterministic(a: Seq<u8>, b: Seq<u8>)
    requires
        a == b,
    ensures
        spec_checksum_of(a) == spec_checksum_of(b),
{
}

} // verus!
