//! The virtual file layer: filenames split into long-entry chunks, 8.3
//! short-name synthesis, and path-addressable file handles over a mounted
//! volume.

use vstd::prelude::*;
use crate::block_device::BlockDevice;
use crate::cluster_cache::spec_cluster_in_range;
use crate::dir_entry::{
    unit_cut_len, FileAttributes, LongDirectoryEntry, ShortDirectoryEntry, DIRENT_SZ,
};
use crate::error::FSError;
use crate::fat::{spec_fat_index_ok, FATEntry, FATManager};
use crate::runfs::RunFileSystem;
use crate::strings::char_of;
use vstd::arithmetic::div_mod::{
    lemma_fundamental_div_mod, lemma_fundamental_div_mod_converse, lemma_mod_bound,
};

verus! {

/// The UTF-16 encoding of one character: one code unit for the basic
/// plane, a surrogate pair above it.
pub open spec fn spec_utf16_char(c: char) -> Seq<u16> {
    if (c as int) < 0x10000 {
        seq![(c as int) as u16]
    } else {
        seq![
            (0xD800 + (c as int - 0x10000) / 0x400) as u16,
            (0xDC00 + (c as int - 0x10000) % 0x400) as u16,
        ]
    }
}

/// The UTF-16 encoding of a character sequence.
pub open spec fn spec_utf16(s: Seq<char>) -> Seq<u16>
    decreases s.len(),
{
    if s.len() == 0 {
        Seq::<u16>::empty()
    } else {
        spec_utf16(s.drop_last()) + spec_utf16_char(s.last())
    }
}

/// Chunk `i` of the split name: thirteen code units, padded after the
/// data with one 0x0000 terminator and then 0xFFFF fill.
pub open spec fn spec_name_chunk(u: Seq<u16>, i: int) -> Seq<u16> {
    Seq::new(
        13,
        |k: int|
            if i * 13 + k < u.len() {
                u[i * 13 + k]
            } else if i * 13 + k == u.len() {
                0u16
            } else {
                0xFFFFu16
            },
    )
}

/// How many 13-unit chunks the split produces: the exact quotient when
/// the length divides evenly, one more otherwise.
pub open spec fn spec_chunk_count(len: int) -> int {
    if len % 13 == 0 {
        len / 13
    } else {
        len / 13 + 1
    }
}

/// Encode a filename as UTF-16 code units.
fn encode_utf16(name: &str) -> (r: Vec<u16>)
    ensures
        r@ == spec_utf16(name@),
{
    let len = name.unicode_len();
    let mut r: Vec<u16> = Vec::new();
    let mut i: usize = 0;
    while i < len
        invariant
            0 <= i <= len,
            len == name@.len(),
            r@ == spec_utf16(name@.take(i as int)),
        decreases len - i,
    {
        let c = name.get_char(i);
        proof {
            assert(name@.take(i + 1).drop_last() =~= name@.take(i as int));
            assert(name@.take(i + 1).last() == c);
        }
        let code: u32 = c as u32;
        if code < 0x10000 {
            r.push(code as u16);
            proof {
                assert(r@ =~= spec_utf16(name@.take(i + 1)));
            }
        } else {
            r.push((0xD800 + (code - 0x10000) / 0x400) as u16);
            r.push((0xDC00 + (code - 0x10000) % 0x400) as u16);
            proof {
                lemma_mod_bound((code - 0x10000) as int, 0x400);
                assert((code - 0x10000) / 0x400 < 0x400) by {
                    assert(code <= 0x10FFFF);
                }
                assert(r@ =~= spec_utf16(name@.take(i + 1)));
            }
        }
        i = i + 1;
    }
    proof {
        assert(name@.take(len as int) =~= name@);
    }
    r
}

/// Split a filename into 13-code-unit long-entry chunks; a partial final
/// chunk is terminated with 0x0000 and padded with 0xFFFF.
pub fn long_name_split(name: &str) -> (r: Vec<[u16; 13]>)
    requires
        spec_utf16(name@).len() <= 260,
    ensures
        r@.len() == spec_chunk_count(spec_utf16(name@).len() as int),
        forall|i: int|
            0 <= i < r@.len() ==> (#[trigger] r@[i])@ == spec_name_chunk(spec_utf16(name@), i),
{
    let units = encode_utf16(name);
    let ghost u = spec_utf16(name@);
    let n = units.len();
    let full: usize = n / 13;
    let rem: usize = n % 13;
    proof {
        lemma_fundamental_div_mod(n as int, 13);
    }
    let count: usize = if rem == 0 {
        full
    } else {
        full + 1
    };
    let mut r: Vec<[u16; 13]> = Vec::new();
    let mut i: usize = 0;
    while i < count
        invariant
            0 <= i <= count,
            n == u.len(),
            n <= 260,
            units@ == u,
            full == n as int / 13,
            rem == n as int % 13,
            count == spec_chunk_count(n as int),
            count * 13 < 300,
            r@.len() == i,
            forall|j: int| 0 <= j < i ==> (#[trigger] r@[j])@ == spec_name_chunk(u, j),
        decreases count - i,
    {
        let mut chunk: [u16; 13] = [
            0u16,
            0u16,
            0u16,
            0u16,
            0u16,
            0u16,
            0u16,
            0u16,
            0u16,
            0u16,
            0u16,
            0u16,
            0u16,
        ];
        let mut k: usize = 0;
        while k < 13
            invariant
                0 <= k <= 13,
                0 <= i < count,
                count * 13 < 300,
                n == u.len(),
                units@ == u,
                forall|m: int| 0 <= m < k ==> #[trigger] chunk@[m] == spec_name_chunk(u, i as int)[m],
            decreases 13 - k,
        {
            let pos: usize = i * 13 + k;
            let v: u16 = if pos < n {
                units[pos]
            } else if pos == n {
                0u16
            } else {
                0xFFFFu16
            };
            chunk[k] = v;
            k = k + 1;
        }
        proof {
            assert(chunk@ =~= spec_name_chunk(u, i as int));
        }
        r.push(chunk);
        i = i + 1;
    }
    r
}

/// The 8.3 character class: kept as is, uppercased, dropped, or replaced
/// by an underscore.
pub open spec fn spec_short_char(c: char) -> Option<u8> {
    let x = c as int;
    if c == ' ' || c == '.' {
        None
    } else if 'A' as int <= x <= 'Z' as int || '0' as int <= x <= '9' as int {
        Some(x as u8)
    } else if 'a' as int <= x <= 'z' as int {
        Some((x - 0x20) as u8)
    } else if c == '!' || c == '#' || c == '$' || c == '%' || c == '&' || c == '\'' || c == '('
        || c == ')' || c == '-' || c == '@' || c == '^' || c == '_' || c == '`' || c == '{'
        || c == '}' || c == '~' {
        Some(x as u8)
    } else {
        Some(0x5Fu8)
    }
}

/// The bytes an 8.3 name part keeps from a source string, before
/// truncation: dots and spaces dropped, the rest mapped by
/// `spec_short_char`.
pub open spec fn spec_short_part(s: Seq<char>) -> Seq<u8>
    decreases s.len(),
{
    if s.len() == 0 {
        Seq::<u8>::empty()
    } else {
        let pre = spec_short_part(s.drop_last());
        match spec_short_char(s.last()) {
            Some(b) => pre.push(b),
            None => pre,
        }
    }
}

/// Copy the 8.3 rendering of `src` into `dst[start..start+room]`; at most
/// `room` bytes are written.  Returns how many bytes were written.
fn copy_short_name_part(dst: &mut [u8; 11], start: usize, room: usize, src: &str) -> (written:
    usize)
    requires
        start + room <= 11,
    ensures
        written <= room,
        written == vstd::math::min(spec_short_part(src@).len() as int, room as int),
        forall|k: int|
            0 <= k < written ==> final(dst)@[start + k] == spec_short_part(src@)[k],
        forall|k: int|
            0 <= k < 11 && !(start <= k < start + written) ==> final(dst)@[k] == old(dst)@[k],
{
    let n = src.unicode_len();
    let mut dst_pos: usize = 0;
    let mut i: usize = 0;
    while i < n
        invariant
            0 <= i <= n,
            n == src@.len(),
            start + room <= 11,
            dst_pos <= room,
            dst_pos == vstd::math::min(spec_short_part(src@.take(i as int)).len() as int, room as int),
            dst_pos < room ==> dst_pos == spec_short_part(src@.take(i as int)).len(),
            forall|k: int|
                0 <= k < dst_pos ==> dst@[start + k] == spec_short_part(src@)[k] || dst@[start + k]
                    == spec_short_part(src@.take(i as int))[k],
            forall|k: int|
                0 <= k < dst_pos ==> dst@[start + k] == spec_short_part(src@.take(i as int))[k],
            forall|k: int|
                0 <= k < 11 && !(start <= k < start + dst_pos) ==> dst@[k] == old(dst)@[k],
        ensures
            0 <= i <= n,
            dst_pos <= room,
            dst_pos == vstd::math::min(spec_short_part(src@.take(i as int)).len() as int, room as int),
            i < n ==> dst_pos == room,
            forall|k: int|
                0 <= k < dst_pos ==> dst@[start + k] == spec_short_part(src@.take(i as int))[k],
            forall|k: int|
                0 <= k < 11 && !(start <= k < start + dst_pos) ==> dst@[k] == old(dst)@[k],
        decreases n - i,
    {
        if dst_pos == room {
            break ;
        }
        let c = src.get_char(i);
        proof {
            assert(src@.take(i + 1).drop_last() =~= src@.take(i as int));
            assert(src@.take(i + 1).last() == c);
        }
        let code: u32 = c as u32;
        let keep: Option<u8> = if c == ' ' || c == '.' {
            None
        } else if (code >= 0x41 && code <= 0x5A) || (code >= 0x30 && code <= 0x39) {
            Some(code as u8)
        } else if code >= 0x61 && code <= 0x7A {
            Some((code - 0x20) as u8)
        } else if c == '!' || c == '#' || c == '$' || c == '%' || c == '&' || c == '\'' || c == '('
            || c == ')' || c == '-' || c == '@' || c == '^' || c == '_' || c == '`' || c == '{'
            || c == '}' || c == '~' {
            Some(code as u8)
        } else {
            Some(0x5Fu8)
        };
        proof {
            assert('A' as int == 0x41 && 'Z' as int == 0x5A && '0' as int == 0x30 && '9' as int
                == 0x39 && 'a' as int == 0x61 && 'z' as int == 0x7A);
            assert(keep == spec_short_char(c));
        }
        if let Some(b) = keep {
            dst[dst_pos + start] = b;
            dst_pos = dst_pos + 1;
        }
        i = i + 1;
    }
    proof {
        if i == n {
            assert(src@.take(n as int) =~= src@);
        } else {
            assert(dst_pos == room);
            crate::vfs::lemma_short_part_prefix(src@, i as int);
        }
    }
    dst_pos
}

/// A prefix of the source keeps a prefix of the rendered bytes.
pub proof fn lemma_short_part_prefix(s: Seq<char>, i: int)
    requires
        0 <= i <= s.len(),
    ensures
        spec_short_part(s.take(i)).len() <= spec_short_part(s).len(),
        forall|k: int|
            0 <= k < spec_short_part(s.take(i)).len() ==> #[trigger] spec_short_part(s.take(i))[k]
                == spec_short_part(s)[k],
    decreases s.len() - i,
{
    if i < s.len() {
        assert(s.take(i + 1).drop_last() =~= s.take(i));
        lemma_short_part_prefix(s, i + 1);
        let a = spec_short_part(s.take(i));
        let b = spec_short_part(s.take(i + 1));
        assert(a.len() <= b.len() && forall|k: int| 0 <= k < a.len() ==> a[k] == b[k]);
        assert forall|k: int| 0 <= k < a.len() implies #[trigger] a[k] == spec_short_part(s)[k]
        by {
            assert(a[k] == b[k]);
            assert(b[k] == spec_short_part(s)[k]);
        }
    } else {
        assert(s.take(i) =~= s);
    }
}

/// Index of the dot separating base name and extension: the last dot
/// after the first character, if any.
pub open spec fn spec_dot_index(s: Seq<char>) -> Option<int> {
    if exists|i: int| 1 <= i < s.len() && s[i] == '.' {
        Some(choose|i: int| (1 <= i < s.len() && s[i] == '.' && forall|j: int| i < j < s.len() ==> s[j] != '.'))
    } else {
        None
    }
}

/// The 11-byte 8.3 buffer generated from a filename: base name rendered
/// into the first eight bytes, extension into the last three, space
/// padding elsewhere.
pub open spec fn spec_short_name(s: Seq<char>) -> Seq<u8> {
    let (base, ext) = match spec_dot_index(s) {
        Some(d) => (s.take(d), s.skip(d + 1)),
        None => (s, Seq::<char>::empty()),
    };
    let bb = spec_short_part(base);
    let eb = spec_short_part(ext);
    Seq::new(
        11,
        |k: int|
            if k < 8 {
                if k < bb.len() {
                    bb[k]
                } else {
                    0x20u8
                }
            } else {
                if k - 8 < eb.len() {
                    eb[k - 8]
                } else {
                    0x20u8
                }
            },
    )
}

/// Find the dot separating base name and extension.
fn find_dot(name: &str) -> (r: Option<usize>)
    ensures
        r is Some <==> spec_dot_index(name@) is Some,
        r matches Some(d) ==> Some(d as int) == spec_dot_index(name@) && 1 <= d < name@.len(),
    decreases name@.len(),
{
    let n = name.unicode_len();
    if n == 0 {
        proof {
            assert(spec_dot_index(name@) is None);
        }
        return None;
    }
    let mut i: usize = n - 1;
    loop
        invariant
            n == name@.len(),
            n >= 1,
            0 <= i < n,
            forall|j: int| i < j < n ==> name@[j] != '.',
        decreases i,
    {
        if i == 0 {
            proof {
                if exists|k: int| 1 <= k < name@.len() && name@[k] == '.' {
                    let k = choose|k: int| 1 <= k < name@.len() && name@[k] == '.';
                    assert(false);
                }
            }
            return None;
        }
        let c = name.get_char(i);
        if c == '.' {
            proof {
                let w = i as int;
                assert(1 <= w < name@.len() && name@[w] == '.' && forall|j: int|
                    w < j < name@.len() ==> name@[j] != '.');
                let p = choose|p: int| (1 <= p < name@.len() && name@[p] == '.' && forall|j: int|
                    p < j < name@.len() ==> name@[j] != '.');
                if p != w {
                    if p < w {
                        assert(name@[w] != '.');
                    } else {
                        assert(name@[p] != '.');
                    }
                }
            }
            return Some(i);
        }
        i = i - 1;
    }
}

/// Render an arbitrary filename into the 11-byte 8.3 buffer.
pub fn generate_short_name(name: &str) -> (r: [u8; 11])
    ensures
        r@ == spec_short_name(name@),
{
    let mut short_name: [u8; 11] = [
        0x20u8,
        0x20u8,
        0x20u8,
        0x20u8,
        0x20u8,
        0x20u8,
        0x20u8,
        0x20u8,
        0x20u8,
        0x20u8,
        0x20u8,
    ];
    let dot = find_dot(name);
    let n = name.unicode_len();
    match dot {
        Some(d) => {
            let base = name.substring_char(0, d);
            let ext = name.substring_char(d + 1, n);
            let w1 = copy_short_name_part(&mut short_name, 0, 8, base);
            let w2 = copy_short_name_part(&mut short_name, 8, 3, ext);
            proof {
                assert(base@ == name@.take(d as int));
                assert(ext@ == name@.subrange(d + 1, n as int));
                assert(ext@ =~= name@.skip(d + 1));
                assert(short_name@ =~= spec_short_name(name@));
            }
        },
        None => {
            let w1 = copy_short_name_part(&mut short_name, 0, 8, name);
            proof {
                assert(short_name@ =~= spec_short_name(name@));
            }
        },
    }
    short_name
}


/// Byte `m` of the content stored along the chain that starts at `first`:
/// the `m / cluster_size`-th chain cluster, at offset `m % cluster_size`.
pub open spec fn spec_content_byte<D: BlockDevice>(
    fs: RunFileSystem<D>,
    first: int,
    m: int,
) -> u8 {
    fs.spec_cluster_view(
        fs.spec_chain(first)[m / fs.bpb.spec_cluster_size()],
    )[m % fs.bpb.spec_cluster_size()]
}

/// The byte capacity a read or write of this entry may address: the size
/// field for a file, the whole chain for a directory.
pub open spec fn spec_size_bound<D: BlockDevice>(
    e: ShortDirectoryEntry,
    fs: RunFileSystem<D>,
) -> int {
    if e.spec_is_dir() {
        fs.bpb.spec_cluster_size() * fs.spec_chain(e.spec_first_cluster() as int).len()
    } else {
        e.size as int
    }
}

/// The entry's size field does not exceed its chain's capacity; always
/// true of a directory, whose size is its capacity.
pub open spec fn spec_size_fits<D: BlockDevice>(
    e: ShortDirectoryEntry,
    fs: RunFileSystem<D>,
) -> bool {
    spec_size_bound(e, fs) <= fs.bpb.spec_cluster_size() * fs.spec_chain(
        e.spec_first_cluster() as int,
    ).len()
}

impl ShortDirectoryEntry {
    /// The chain cluster holding byte `offset` of this entry's content,
    /// and the offset inside that cluster.
    pub fn pos<D: BlockDevice>(&self, fs: &mut RunFileSystem<D>, offset: usize) -> (r: (
        Option<usize>,
        usize,
    ))
        requires
            old(fs).spec_inv(),
            old(fs).spec_chain_wf(self.spec_first_cluster() as int),
        ensures
            final(fs).spec_frame(*old(fs)),
            r.1 == offset as int % old(fs).bpb.spec_cluster_size(),
            r.0 == if offset as int / old(fs).bpb.spec_cluster_size() < old(fs).spec_chain(
                self.spec_first_cluster() as int,
            ).len() {
                Some(
                    (old(fs).spec_chain(self.spec_first_cluster() as int)[offset as int / old(
                        fs,
                    ).bpb.spec_cluster_size()] as usize),
                )
            } else {
                None::<usize>
            },
    {
        let bytes_per_cluster = fs.bpb.cluster_size();
        let cluster_index = offset / bytes_per_cluster;
        let off_in = offset % bytes_per_cluster;
        let first = self.first_cluster();
        let current_cluster = fs.fat_manager.search_cluster(
            &mut fs.device,
            first as usize,
            cluster_index,
        );
        proof {
            let ghost pre = *old(fs);
            fs.lemma_data_stable(pre);
        }
        (current_cluster, off_in)
    }

    /// Read into `buf` starting at content byte `offset`, clamped to the
    /// entry's size bound.  Returns how many bytes were read; the rest of
    /// `buf` is untouched.
    pub fn read_at<D: BlockDevice>(
        &self,
        fs: &mut RunFileSystem<D>,
        offset: usize,
        buf: &mut Vec<u8>,
    ) -> (r: usize)
        requires
            old(fs).spec_inv(),
            old(fs).spec_chain_wf(self.spec_first_cluster() as int),
            spec_size_fits(*self, *old(fs)),
        ensures
            final(fs).spec_frame(*old(fs)),
            final(buf)@.len() == old(buf)@.len(),
            r == if (offset as int) < spec_size_bound(*self, *old(fs)) {
                vstd::math::min(
                    offset as int + old(buf)@.len(),
                    spec_size_bound(*self, *old(fs)),
                ) - offset
            } else {
                0
            },
            forall|i: int|
                0 <= i < r ==> final(buf)@[i] == spec_content_byte(
                    *old(fs),
                    self.spec_first_cluster() as int,
                    offset + i,
                ),
            forall|i: int| r <= i < old(buf)@.len() ==> final(buf)@[i] == old(buf)@[i],
    {
        let ghost pre = *old(fs);
        let ghost first = self.spec_first_cluster() as int;
        let ghost ch = pre.spec_chain(first);
        let cs: u64 = fs.bpb.cluster_size() as u64;
        let num_clusters = fs.fat_manager.count_clusters(
            &mut fs.device,
            self.first_cluster() as usize,
        );
        proof {
            fs.lemma_frame_after_fat_op(pre);
        }
        proof {
            pre.fat_manager.lemma_chain_structure(
                pre.device.spec_sectors(),
                first,
                (pre.bpb.spec_total_clusters() + 1) as nat,
            );
            vstd::arithmetic::mul::lemma_mul_upper_bound(
                cs as int,
                32768,
                num_clusters as int,
                0x0FFFFFF5,
            );
            crate::fat32::lemma_volume_bytes_bound(pre.bpb);
            assert(cs * num_clusters as int <= cs * (pre.bpb.spec_total_clusters() + 1)) by (nonlinear_arith)
                requires
                    num_clusters as int <= pre.bpb.spec_total_clusters() + 1,
                    cs >= 1,
            ;
        }
        let bound: u64 = if self.is_dir() {
            cs * num_clusters as u64
        } else {
            self.size as u64
        };
        proof {
            assert(bound == spec_size_bound(*self, pre));
            assert(bound <= usize::MAX as int);
        }
        let blen: u64 = buf.len() as u64;
        if offset as u64 >= bound {
            return 0;
        }
        let end: u64 = if blen <= bound - offset as u64 {
            offset as u64 + blen
        } else {
            bound
        };
        let r: usize = (end - offset as u64) as usize;
        let mut i: usize = 0;
        while i < r
            invariant
                fs.spec_frame(pre),
                pre.spec_inv(),
                pre.spec_chain_wf(first),
                spec_size_fits(*self, pre),
                first == self.spec_first_cluster() as int,
                ch == pre.spec_chain(first),
                cs == pre.bpb.spec_cluster_size(),
                0 <= i <= r,
                offset + r <= spec_size_bound(*self, pre),
                spec_size_bound(*self, pre) <= cs * ch.len(),
                spec_size_bound(*self, pre) <= usize::MAX as int,
                r <= buf@.len(),
                buf@.len() == old(buf)@.len(),
                forall|k: int|
                    0 <= k < i ==> buf@[k] == spec_content_byte(pre, first, offset + k),
                forall|k: int| i <= k < buf@.len() ==> buf@[k] == old(buf)@[k],
            decreases r - i,
        {
            let ghost stp = *fs;
            let m: usize = offset + i;
            proof {
                lemma_fundamental_div_mod(m as int, cs as int);
                lemma_mod_bound(m as int, cs as int);
                assert((m as int / cs as int) < ch.len()) by (nonlinear_arith)
                    requires
                        cs > 0,
                        (m as int) < cs * ch.len(),
                        ((m as int) / (cs as int)) * (cs as int) + (m as int) % (cs as int) == m as int,
                        0 <= (m as int) % (cs as int),
                        ((m as int) % (cs as int)) < cs,
                ;
                assert forall|cc: int| spec_fat_index_ok(pre.bpb, cc) implies
                #[trigger] fs.fat_manager.spec_entry_low(fs.device.spec_sectors(), cc)
                    == pre.fat_manager.spec_entry_low(pre.device.spec_sectors(), cc) by {
                    assert(fs.spec_fat_entry_low(cc) == pre.spec_fat_entry_low(cc));
                }
                FATManager::lemma_chain_wf_congruence(
                    fs.fat_manager,
                    fs.device.spec_sectors(),
                    pre.fat_manager,
                    pre.device.spec_sectors(),
                    first,
                );
            }
            let ci: usize = m / cs as usize;
            let cluster = match fs.fat_manager.search_cluster(
                &mut fs.device,
                self.first_cluster() as usize,
                ci,
            ) {
                Some(c) => c,
                None => {
                    proof {
                        assert(false);
                    }
                    0
                },
            };
            proof {
                fs.lemma_frame_after_fat_op(stp);
                fs.lemma_frame_compose(stp, pre);
                assert(cluster as int == ch[m as int / cs as int]);
                assert(spec_cluster_in_range(pre.bpb, cluster as int));
            }
            let ghost st2 = *fs;
            let byte_vec = fs.data_manager.read_cluster_at(
                &mut fs.device,
                cluster,
                m % cs as usize,
                1,
            );
            proof {
                fs.lemma_frame_after_data_op(st2);
                fs.lemma_frame_compose(st2, pre);
                assert(st2.spec_cluster_view(cluster as int) == pre.spec_cluster_view(
                    cluster as int,
                ));
                assert(byte_vec@[0] == spec_content_byte(pre, first, m as int));
            }
            buf.set(i, byte_vec[0]);
            i = i + 1;
        }
        r
    }
}


impl ShortDirectoryEntry {
    /// Write `buf` starting at content byte `offset`, clamped to the
    /// chain's capacity.  Returns how many bytes were written; the FAT and
    /// every cluster outside the chain are untouched, and content outside
    /// the written range is preserved.
    pub fn write_at<D: BlockDevice>(
        &self,
        fs: &mut RunFileSystem<D>,
        offset: usize,
        buf: &Vec<u8>,
    ) -> (r: usize)
        requires
            old(fs).spec_inv(),
            old(fs).spec_chain_wf(self.spec_first_cluster() as int),
        ensures
            final(fs).spec_inv(),
            final(fs).bpb == old(fs).bpb,
            final(fs).data_manager.root_dirent == old(fs).data_manager.root_dirent,
            final(fs).fat_manager.fsinfo == old(fs).fat_manager.fsinfo,
            forall|c: int|
                spec_fat_index_ok(old(fs).bpb, c) ==> #[trigger] final(fs).spec_fat_entry_low(c)
                    == old(fs).spec_fat_entry_low(c),
            final(fs).spec_chain(self.spec_first_cluster() as int) == old(fs).spec_chain(
                self.spec_first_cluster() as int,
            ),
            final(fs).spec_chain_wf(self.spec_first_cluster() as int),
            forall|c: int|
                spec_cluster_in_range(old(fs).bpb, c) && !old(fs).spec_chain(
                    self.spec_first_cluster() as int,
                ).contains(c) ==> #[trigger] final(fs).spec_cluster_view(c) == old(
                    fs,
                ).spec_cluster_view(c),
            r == ({
                let cap = old(fs).bpb.spec_cluster_size() * old(fs).spec_chain(
                    self.spec_first_cluster() as int,
                ).len();
                if (offset as int) < cap {
                    vstd::math::min(offset as int + buf@.len(), cap) - offset
                } else {
                    0
                }
            }),
            forall|i: int|
                0 <= i < r ==> spec_content_byte(
                    *final(fs),
                    self.spec_first_cluster() as int,
                    offset + i,
                ) == buf@[i],
            forall|m: int|
                0 <= m < old(fs).bpb.spec_cluster_size() * old(fs).spec_chain(
                    self.spec_first_cluster() as int,
                ).len() && !(offset <= m < offset + r) ==> spec_content_byte(
                    *final(fs),
                    self.spec_first_cluster() as int,
                    m,
                ) == spec_content_byte(*old(fs), self.spec_first_cluster() as int, m),
    {
        let ghost pre = *old(fs);
        let ghost first = self.spec_first_cluster() as int;
        let ghost ch = pre.spec_chain(first);
        let cs: u64 = fs.bpb.cluster_size() as u64;
        let num_clusters = fs.fat_manager.count_clusters(
            &mut fs.device,
            self.first_cluster() as usize,
        );
        proof {
            fs.lemma_frame_after_fat_op(pre);
            pre.fat_manager.lemma_chain_structure(
                pre.device.spec_sectors(),
                first,
                (pre.bpb.spec_total_clusters() + 1) as nat,
            );
            pre.fat_manager.lemma_chain_distinct(pre.device.spec_sectors(), first);
            crate::fat32::lemma_volume_bytes_bound(pre.bpb);
            assert(cs >= 512) by (nonlinear_arith)
                requires
                    cs == pre.bpb.bytes_per_sector as int * pre.bpb.sectors_per_cluster as int,
                    pre.bpb.bytes_per_sector >= 512,
                    pre.bpb.sectors_per_cluster >= 1,
            ;
            assert(cs * num_clusters as int <= cs * (pre.bpb.spec_total_clusters() + 1))
                by (nonlinear_arith)
                requires
                    num_clusters as int <= pre.bpb.spec_total_clusters() + 1,
                    cs >= 1,
            ;
            assert forall|cc: int| spec_fat_index_ok(pre.bpb, cc) implies
            #[trigger] fs.fat_manager.spec_entry_low(fs.device.spec_sectors(), cc)
                == pre.fat_manager.spec_entry_low(pre.device.spec_sectors(), cc) by {
                assert(fs.spec_fat_entry_low(cc) == pre.spec_fat_entry_low(cc));
            }
            FATManager::lemma_chain_wf_congruence(
                fs.fat_manager,
                fs.device.spec_sectors(),
                pre.fat_manager,
                pre.device.spec_sectors(),
                first,
            );
        }
        let cap: u64 = cs * num_clusters as u64;
        let blen: u64 = buf.len() as u64;
        if offset as u64 >= cap {
            proof {
                assert forall|m: int| 0 <= m < cs * ch.len() implies spec_content_byte(
                    *fs,
                    first,
                    m,
                ) == spec_content_byte(pre, first, m) by {
                    lemma_fundamental_div_mod(m, cs as int);
                    lemma_mod_bound(m, cs as int);
                    assert((m / cs as int) < ch.len()) by (nonlinear_arith)
                        requires
                            cs > 0,
                            m < cs * ch.len(),
                            (m / (cs as int)) * (cs as int) + m % (cs as int) == m,
                            0 <= m % (cs as int),
                            (m % (cs as int)) < cs,
                    ;
                    assert(fs.spec_cluster_view(ch[m / cs as int]) == pre.spec_cluster_view(
                        ch[m / cs as int],
                    ));
                }
            }
            return 0;
        }
        let end: u64 = if blen <= cap - offset as u64 {
            offset as u64 + blen
        } else {
            cap
        };
        let r: usize = (end - offset as u64) as usize;
        let mut i: usize = 0;
        while i < r
            invariant
                fs.spec_inv(),
                fs.bpb == pre.bpb,
                fs.data_manager.root_dirent == pre.data_manager.root_dirent,
                fs.fat_manager.fsinfo == pre.fat_manager.fsinfo,
                pre.spec_inv(),
                pre.spec_chain_wf(first),
                first == self.spec_first_cluster() as int,
                ch == pre.spec_chain(first),
                cs == pre.bpb.spec_cluster_size(),
                0 <= i <= r,
                r <= buf@.len(),
                offset + r <= cs * ch.len(),
                cs * ch.len() <= usize::MAX as int,
                forall|a: int, b: int| 0 <= a < b < ch.len() ==> ch[a] != ch[b],
                forall|a: int| 0 <= a < ch.len() ==> 2 <= #[trigger] ch[a] < pre.bpb.spec_total_clusters() + 2,
                forall|j: int|
                    0 <= j < ch.len() - 1 ==> pre.fat_manager.spec_links_to(
                        pre.device.spec_sectors(),
                        #[trigger] ch[j],
                        ch[j + 1],
                    ),
                forall|c: int|
                    spec_fat_index_ok(pre.bpb, c) ==> #[trigger] fs.spec_fat_entry_low(c)
                        == pre.spec_fat_entry_low(c),
                forall|c: int|
                    spec_cluster_in_range(pre.bpb, c) && !ch.contains(c)
                        ==> #[trigger] fs.spec_cluster_view(c) == pre.spec_cluster_view(c),
                forall|idx: int|
                    0 <= idx < ch.len() ==> (#[trigger] fs.spec_cluster_view(ch[idx])).len() == cs,
                forall|idx: int, k: int|
                    0 <= idx < ch.len() && 0 <= k < cs ==> #[trigger] fs.spec_cluster_view(
                        ch[idx],
                    )[k] == (if offset <= idx * cs + k < offset + i {
                        buf@[idx * cs + k - offset]
                    } else {
                        pre.spec_cluster_view(ch[idx])[k]
                    }),
            decreases r - i,
        {
            let ghost stp = *fs;
            let m: usize = offset + i;
            proof {
                lemma_fundamental_div_mod(m as int, cs as int);
                lemma_mod_bound(m as int, cs as int);
                assert((m as int / cs as int) < ch.len()) by (nonlinear_arith)
                    requires
                        cs > 0,
                        (m as int) < cs * ch.len(),
                        ((m as int) / (cs as int)) * (cs as int) + (m as int) % (cs as int) == m as int,
                        0 <= (m as int) % (cs as int),
                        ((m as int) % (cs as int)) < cs,
                ;
                assert forall|cc: int| spec_fat_index_ok(pre.bpb, cc) implies
                #[trigger] fs.fat_manager.spec_entry_low(fs.device.spec_sectors(), cc)
                    == pre.fat_manager.spec_entry_low(pre.device.spec_sectors(), cc) by {
                    assert(fs.spec_fat_entry_low(cc) == pre.spec_fat_entry_low(cc));
                }
                FATManager::lemma_chain_wf_congruence(
                    fs.fat_manager,
                    fs.device.spec_sectors(),
                    pre.fat_manager,
                    pre.device.spec_sectors(),
                    first,
                );
            }
            let ci: usize = m / cs as usize;
            let cluster = match fs.fat_manager.search_cluster(
                &mut fs.device,
                self.first_cluster() as usize,
                ci,
            ) {
                Some(c) => c,
                None => {
                    proof {
                        assert(false);
                    }
                    0
                },
            };
            proof {
                fs.lemma_frame_after_fat_op(stp);
                assert(cluster as int == ch[m as int / cs as int]);
                assert(spec_cluster_in_range(pre.bpb, cluster as int));
            }
            let ghost st2 = *fs;
            let mut one: Vec<u8> = Vec::new();
            one.push(buf[i]);
            let ki: usize = m % cs as usize;
            fs.data_manager.write_cluster_at(&mut fs.device, cluster, ki, &one);
            proof {
                fs.lemma_fat_stable(st2);
                assert forall|cc: int| spec_fat_index_ok(pre.bpb, cc) implies
                #[trigger] fs.spec_fat_entry_low(cc) == pre.spec_fat_entry_low(cc) by {
                    assert(st2.spec_fat_entry_low(cc) == pre.spec_fat_entry_low(cc));
                }
                assert forall|c: int|
                    spec_cluster_in_range(pre.bpb, c) && !ch.contains(c) implies
                #[trigger] fs.spec_cluster_view(c) == pre.spec_cluster_view(c) by {
                    assert(c != cluster as int) by {
                        assert(ch.contains(ch[m as int / cs as int]));
                    }
                    assert(fs.spec_cluster_view(c) == st2.spec_cluster_view(c));
                    assert(st2.spec_cluster_view(c) == pre.spec_cluster_view(c));
                }
                let ghost cidx = m as int / cs as int;
                assert forall|idx: int, k: int|
                    0 <= idx < ch.len() && 0 <= k < cs implies #[trigger] fs.spec_cluster_view(
                    ch[idx],
                )[k] == (if offset <= idx * cs + k < offset + i + 1 {
                    buf@[idx * cs + k - offset]
                } else {
                    pre.spec_cluster_view(ch[idx])[k]
                }) by {
                    if ch[idx] == cluster as int {
                        assert(idx == cidx);
                        if k == m as int % cs as int {
                            assert(idx * cs + k == m as int);
                            assert(fs.spec_cluster_view(ch[idx])[k] == buf@[i as int]);
                        } else {
                            assert(fs.spec_cluster_view(ch[idx])[k] == st2.spec_cluster_view(
                                ch[idx],
                            )[k]);
                            assert(idx * cs + k != m as int) by (nonlinear_arith)
                                requires
                                    idx == (m as int) / (cs as int),
                                    k != (m as int) % (cs as int),
                                    ((m as int) / (cs as int)) * (cs as int) + (m as int) % (
                                    cs as int) == m as int,
                                    0 <= k < cs,
                                    0 <= (m as int) % (cs as int) < cs,
                            ;
                        }
                    } else {
                        assert(fs.spec_cluster_view(ch[idx]) == st2.spec_cluster_view(ch[idx]));
                        assert(idx != cidx);
                        assert(idx * cs + k != m as int) by (nonlinear_arith)
                            requires
                                idx != (m as int) / (cs as int),
                                ((m as int) / (cs as int)) * (cs as int) + (m as int) % (cs as int)
                                    == m as int,
                                0 <= k < cs,
                                0 <= (m as int) % (cs as int) < cs,
                                cs > 0,
                        ;
                    }
                }
            }
            i = i + 1;
        }
        proof {
            assert forall|cc: int| spec_fat_index_ok(pre.bpb, cc) implies
            #[trigger] fs.fat_manager.spec_entry_low(fs.device.spec_sectors(), cc)
                == pre.fat_manager.spec_entry_low(pre.device.spec_sectors(), cc) by {
                assert(fs.spec_fat_entry_low(cc) == pre.spec_fat_entry_low(cc));
            }
            FATManager::lemma_chain_wf_congruence(
                fs.fat_manager,
                fs.device.spec_sectors(),
                pre.fat_manager,
                pre.device.spec_sectors(),
                first,
            );
            assert forall|q: int| 0 <= q < r implies spec_content_byte(*fs, first, offset + q)
                == buf@[q] by {
                let m = offset + q;
                lemma_fundamental_div_mod(m, cs as int);
                lemma_mod_bound(m, cs as int);
                assert((m / cs as int) < ch.len()) by (nonlinear_arith)
                    requires
                        cs > 0,
                        m < cs * ch.len(),
                        (m / (cs as int)) * (cs as int) + m % (cs as int) == m,
                        0 <= m % (cs as int),
                        (m % (cs as int)) < cs,
                ;
                let idx = m / cs as int;
                let k = m % cs as int;
                assert(fs.spec_chain(first)[idx] == ch[idx]);
                assert(fs.spec_cluster_view(ch[idx])[k] == buf@[idx * (cs as int) + k - offset]);
                assert(idx * (cs as int) + k == m);
            }
            assert forall|m: int|
                0 <= m < cs * ch.len() && !(offset <= m < offset + r) implies spec_content_byte(
                *fs,
                first,
                m,
            ) == spec_content_byte(pre, first, m) by {
                lemma_fundamental_div_mod(m, cs as int);
                lemma_mod_bound(m, cs as int);
                assert((m / cs as int) < ch.len()) by (nonlinear_arith)
                    requires
                        cs > 0,
                        m < cs * ch.len(),
                        (m / (cs as int)) * (cs as int) + m % (cs as int) == m,
                        0 <= m % (cs as int),
                        (m % (cs as int)) < cs,
                ;
                let idx = m / cs as int;
                let k = m % cs as int;
                assert(fs.spec_chain(first)[idx] == ch[idx]);
                assert(fs.spec_cluster_view(ch[idx])[k] == pre.spec_cluster_view(ch[idx])[k]);
                assert(idx * (cs as int) + k == m);
            }
        }
        r
    }
}


/// A handle to a file or directory: the location of its short entry (or
/// the synthesized root), the locations of its long entries, and its
/// cached attribute byte.
pub struct VFile {
    pub name: String,
    pub short_cluster: usize,
    pub short_offset: usize,
    pub long_pos_vec: Vec<(usize, usize)>,
    pub attribute: FileAttributes,
}

impl VFile {
    /// The root handle carries the name "/" and no on-disk short entry.
    pub open spec fn spec_is_root(self) -> bool {
        self.name@ == seq!['/']
    }

    /// The handle's short-entry location addresses a real directory slot.
    pub open spec fn spec_valid_pos<D: BlockDevice>(self, fs: RunFileSystem<D>) -> bool {
        !self.spec_is_root() ==> spec_cluster_in_range(fs.bpb, self.short_cluster as int)
            && self.short_offset + 32 <= fs.bpb.spec_cluster_size()
    }

    /// The short entry this handle denotes: the synthesized root entry, or
    /// the stored 32 bytes at its location.
    pub open spec fn spec_entry_of<D: BlockDevice>(self, fs: RunFileSystem<D>)
        -> ShortDirectoryEntry {
        if self.spec_is_root() {
            fs.data_manager.root_dirent
        } else {
            ShortDirectoryEntry::spec_from_bytes(
                fs.data_manager.spec_dirent_bytes(
                    fs.device.spec_sectors(),
                    self.short_cluster as int,
                    self.short_offset as int,
                ),
            )
        }
    }

    /// First cluster of the denoted object's data: the BPB's root cluster
    /// for the root, else the stored entry's first-cluster field.
    pub open spec fn spec_first_of<D: BlockDevice>(self, fs: RunFileSystem<D>) -> u32 {
        if self.spec_is_root() {
            fs.bpb.root_dir_cluster
        } else {
            self.spec_entry_of(fs).spec_first_cluster()
        }
    }

    /// Everything file I/O through this handle needs: a valid location and
    /// a well-formed chain whose capacity covers the size field.
    pub open spec fn spec_io_ok<D: BlockDevice>(self, fs: RunFileSystem<D>) -> bool {
        &&& self.spec_valid_pos(fs)
        &&& fs.spec_chain_wf(self.spec_first_of(fs) as int)
        &&& spec_size_fits(self.spec_io_entry(fs), fs)
    }

    /// The entry used for I/O: the denoted entry, with the root's first
    /// cluster substituted for the root handle.
    pub open spec fn spec_io_entry<D: BlockDevice>(self, fs: RunFileSystem<D>)
        -> ShortDirectoryEntry {
        self.spec_entry_of(fs)
    }

    pub fn new(
        name: String,
        short_cluster: usize,
        short_offset: usize,
        long_pos_vec: Vec<(usize, usize)>,
        attribute: FileAttributes,
    ) -> (r: Self)
        ensures
            r.name == name,
            r.short_cluster == short_cluster,
            r.short_offset == short_offset,
            r.long_pos_vec == long_pos_vec,
            r.attribute == attribute,
    {
        VFile { name, short_cluster, short_offset, long_pos_vec, attribute }
    }

    /// True when this is the root handle.
    pub fn is_root(&self) -> (r: bool)
        ensures
            r == self.spec_is_root(),
    {
        let s: &str = self.name.as_str();
        if s.unicode_len() != 1 {
            proof {
                assert(self.name@.len() != 1);
            }
            return false;
        }
        let c = s.get_char(0);
        proof {
            if c == '/' {
                assert(self.name@ =~= seq!['/']);
            } else {
                assert(self.name@ != seq!['/']) by {
                    if self.name@ == seq!['/'] {
                        assert(self.name@[0] == '/');
                    }
                }
            }
        }
        c == '/'
    }

    pub fn name(&self) -> (r: &str)
        ensures
            r@ == self.name@,
    {
        self.name.as_str()
    }

    /// The stored long-entry locations, first physical entry first.
    pub fn long_pos(&self) -> (r: Vec<(usize, usize)>)
        ensures
            r@ == self.long_pos_vec@,
    {
        let n = self.long_pos_vec.len();
        let mut r: Vec<(usize, usize)> = Vec::new();
        let mut i: usize = 0;
        while i < n
            invariant
                0 <= i <= n,
                n == self.long_pos_vec@.len(),
                r@.len() == i,
                forall|k: int| 0 <= k < i ==> r@[k] == self.long_pos_vec@[k],
            decreases n - i,
        {
            r.push(self.long_pos_vec[i]);
            i = i + 1;
        }
        proof {
            assert(r@ =~= self.long_pos_vec@);
        }
        r
    }

    /// The short entry's location.
    pub fn short_pos(&self) -> (r: (usize, usize))
        ensures
            r.0 == self.short_cluster,
            r.1 == self.short_offset,
    {
        (self.short_cluster, self.short_offset)
    }

    pub fn attribute(&self) -> (r: FileAttributes)
        ensures
            r == self.attribute,
    {
        self.attribute
    }

    /// True when the cached attribute carries the DIRECTORY bit.
    pub fn is_dir(&self) -> (r: bool)
        ensures
            r == self.attribute.spec_is_directory(),
    {
        self.attribute.contains(FileAttributes::directory())
    }

    /// A non-directory handle.
    pub fn is_file(&self) -> (r: bool)
        ensures
            r == !self.attribute.spec_is_directory(),
    {
        !self.is_dir()
    }

    /// Read the short entry this handle denotes.
    fn current_entry<D: BlockDevice>(&self, fs: &mut RunFileSystem<D>) -> (r: ShortDirectoryEntry)
        requires
            old(fs).spec_inv(),
            self.spec_valid_pos(*old(fs)),
        ensures
            final(fs).spec_frame(*old(fs)),
            r == self.spec_entry_of(*old(fs)),
    {
        if self.is_root() {
            proof {
                fs.lemma_frame_refl();
            }
            fs.root_dirent()
        } else {
            let ghost pre = *fs;
            let e = fs.data_manager.read_short_dirent(
                &mut fs.device,
                self.short_cluster,
                self.short_offset,
            );
            proof {
                fs.lemma_frame_after_data_op(pre);
            }
            e
        }
    }

    /// First cluster of the denoted object's data.
    pub fn first_data_cluster<D: BlockDevice>(&self, fs: &mut RunFileSystem<D>) -> (r: u32)
        requires
            old(fs).spec_inv(),
            self.spec_valid_pos(*old(fs)),
        ensures
            final(fs).spec_frame(*old(fs)),
            r == self.spec_first_of(*old(fs)),
    {
        if self.is_root() {
            proof {
                fs.lemma_frame_refl();
            }
            fs.bpb().root_dir_cluster()
        } else {
            let e = self.current_entry(fs);
            e.first_cluster()
        }
    }

    /// Total bytes of the allocated cluster chain.
    pub fn capacity<D: BlockDevice>(&self, fs: &mut RunFileSystem<D>) -> (r: usize)
        requires
            old(fs).spec_inv(),
            self.spec_valid_pos(*old(fs)),
            old(fs).spec_chain_wf(self.spec_first_of(*old(fs)) as int),
        ensures
            final(fs).spec_frame(*old(fs)),
            r == old(fs).bpb.spec_cluster_size() * old(fs).spec_chain(
                self.spec_first_of(*old(fs)) as int,
            ).len(),
    {
        let ghost pre = *fs;
        let first = self.first_data_cluster(fs);
        let ghost mid = *fs;
        proof {
            mid.lemma_low_bridge(pre);
            FATManager::lemma_chain_wf_congruence(
                mid.fat_manager,
                mid.device.spec_sectors(),
                pre.fat_manager,
                pre.device.spec_sectors(),
                self.spec_first_of(pre) as int,
            );
        }
        let ghost st2 = *fs;
        let n = fs.fat_manager.count_clusters(&mut fs.device, first as usize);
        proof {
            fs.lemma_frame_after_fat_op(st2);
            fs.lemma_frame_compose(st2, pre);
            pre.fat_manager.lemma_chain_structure(
                pre.device.spec_sectors(),
                self.spec_first_of(pre) as int,
                (pre.bpb.spec_total_clusters() + 1) as nat,
            );
            crate::fat32::lemma_volume_bytes_bound(pre.bpb);
            assert(pre.bpb.spec_cluster_size() >= 512) by (nonlinear_arith)
                requires
                    pre.bpb.spec_cluster_size() == pre.bpb.bytes_per_sector as int
                        * pre.bpb.sectors_per_cluster as int,
                    pre.bpb.bytes_per_sector >= 512,
                    pre.bpb.sectors_per_cluster >= 1,
            ;
            assert(pre.bpb.spec_cluster_size() * n as int <= pre.bpb.spec_cluster_size() * (
            pre.bpb.spec_total_clusters() + 1)) by (nonlinear_arith)
                requires
                    n as int <= pre.bpb.spec_total_clusters() + 1,
                    pre.bpb.spec_cluster_size() >= 1,
            ;
        }
        let cs = fs.bpb.cluster_size();
        cs * n
    }
}


impl VFile {
    /// Read into `buf` at content byte `offset`, clamped to the size field
    /// for files and the chain capacity for directories.  Returns how many
    /// bytes were read.
    pub fn read_at<D: BlockDevice>(
        &self,
        fs: &mut RunFileSystem<D>,
        offset: usize,
        buf: &mut Vec<u8>,
    ) -> (r: usize)
        requires
            old(fs).spec_inv(),
            self.spec_io_ok(*old(fs)),
        ensures
            final(fs).spec_frame(*old(fs)),
            final(buf)@.len() == old(buf)@.len(),
            r == if (offset as int) < spec_size_bound(self.spec_io_entry(*old(fs)), *old(fs)) {
                vstd::math::min(
                    offset as int + old(buf)@.len(),
                    spec_size_bound(self.spec_io_entry(*old(fs)), *old(fs)),
                ) - offset
            } else {
                0
            },
            forall|i: int|
                0 <= i < r ==> final(buf)@[i] == spec_content_byte(
                    *old(fs),
                    self.spec_first_of(*old(fs)) as int,
                    offset + i,
                ),
            forall|i: int| r <= i < old(buf)@.len() ==> final(buf)@[i] == old(buf)@[i],
    {
        let ghost pre = *fs;
        let entry = self.current_entry(fs);
        proof {
            assert(entry.spec_first_cluster() == self.spec_first_of(pre));
        }
        let ghost mid = *fs;
        proof {
            mid.lemma_low_bridge(pre);
            FATManager::lemma_chain_wf_congruence(
                mid.fat_manager,
                mid.device.spec_sectors(),
                pre.fat_manager,
                pre.device.spec_sectors(),
                self.spec_first_of(pre) as int,
            );
        }
        let r = entry.read_at(fs, offset, buf);
        proof {
            fs.lemma_frame_compose(mid, pre);
            assert forall|i: int| 0 <= i < r implies buf@[i] == spec_content_byte(
                pre,
                self.spec_first_of(pre) as int,
                offset + i,
            ) by {
                lemma_content_stable(mid, pre, self.spec_first_of(pre) as int, offset + i);
            }
        }
        r
    }
}


/// Content bytes survive an operation that kept the chain and every
/// cluster view.
pub proof fn lemma_content_stable<D: BlockDevice>(
    a: RunFileSystem<D>,
    b: RunFileSystem<D>,
    first: int,
    m: int,
)
    requires
        b.spec_inv(),
        b.spec_chain_wf(first),
        a.bpb == b.bpb,
        a.spec_chain(first) == b.spec_chain(first),
        forall|c: int|
            spec_cluster_in_range(b.bpb, c) ==> #[trigger] a.spec_cluster_view(c)
                == b.spec_cluster_view(c),
        0 <= m < b.bpb.spec_cluster_size() * b.spec_chain(first).len(),
    ensures
        spec_content_byte(a, first, m) == spec_content_byte(b, first, m),
{
    let cs = b.bpb.spec_cluster_size();
    let ch = b.spec_chain(first);
    lemma_fundamental_div_mod(m, cs);
    lemma_mod_bound(m, cs);
    assert((m / cs) < ch.len()) by (nonlinear_arith)
        requires
            cs > 0,
            m < cs * ch.len(),
            (m / cs) * cs + m % cs == m,
            0 <= m % cs,
            (m % cs) < cs,
    ;
    assert(a.spec_cluster_view(ch[m / cs]) == b.spec_cluster_view(ch[m / cs]));
}


impl VFile {
    #[verifier::rlimit(100)]
    /// Grow the cluster chain until it covers `new_capacity` bytes;
    /// shrinking is deliberately a successful no-op.  On success the old
    /// chain is a prefix of the new one and all existing content is
    /// preserved; `NoSpace` reports that too few clusters were free.
    pub fn adjust_capacity<D: BlockDevice>(
        &self,
        fs: &mut RunFileSystem<D>,
        new_capacity: usize,
    ) -> (r: Result<(), FSError>)
        requires
            old(fs).spec_inv(),
            self.spec_valid_pos(*old(fs)),
            old(fs).spec_chain_wf(self.spec_first_of(*old(fs)) as int),
            new_capacity + 32768 <= usize::MAX,
        ensures
            final(fs).spec_inv(),
            final(fs).bpb == old(fs).bpb,
            final(fs).data_manager.root_dirent == old(fs).data_manager.root_dirent,
            r matches Err(e) ==> e == FSError::NoSpace,
            r is Err ==> final(fs).spec_frame(*old(fs)) && new_capacity > old(fs).bpb.spec_cluster_size() * old(fs).spec_chain(
                self.spec_first_of(*old(fs)) as int,
            ).len() && old(fs).fat_manager.spec_count_free(old(fs).device.spec_sectors()) < (
            new_capacity - old(fs).bpb.spec_cluster_size() * old(fs).spec_chain(
                self.spec_first_of(*old(fs)) as int,
            ).len() + old(fs).bpb.spec_cluster_size() - 1) / old(fs).bpb.spec_cluster_size(),
            r is Ok ==> {
                let first = self.spec_first_of(*old(fs)) as int;
                let oldch = old(fs).spec_chain(first);
                let newch = final(fs).spec_chain(first);
                let cs = old(fs).bpb.spec_cluster_size();
                &&& final(fs).spec_chain_wf(first)
                &&& newch.len() >= oldch.len()
                &&& cs * newch.len() >= new_capacity
                &&& forall|i: int| 0 <= i < oldch.len() ==> #[trigger] newch[i] == oldch[i]
                &&& forall|i: int|
                    oldch.len() <= i < newch.len() ==> old(fs).spec_fat_entry_low(
                        #[trigger] newch[i],
                    ) == 0
                &&& forall|i: int, k: int|
                    oldch.len() <= i < newch.len() && 0 <= k < cs
                        ==> #[trigger] final(fs).spec_cluster_view(newch[i])[k] == 0u8
                &&& forall|m: int|
                    0 <= m < cs * oldch.len() ==> spec_content_byte(*final(fs), first, m)
                        == spec_content_byte(*old(fs), first, m)
                &&& forall|c: int|
                    spec_cluster_in_range(old(fs).bpb, c) && !newch.contains(c)
                        ==> #[trigger] final(fs).spec_cluster_view(c) == old(
                        fs,
                    ).spec_cluster_view(c)
                &&& self.spec_valid_pos(*final(fs))
            },
    {
        let ghost pre = *fs;
        let ghost first = self.spec_first_of(pre) as int;
        let ghost oldch = pre.spec_chain(first);
        let cs = fs.bpb.cluster_size();
        let cap = self.capacity(fs);
        let ghost st1 = *fs;
        proof {
            st1.lemma_low_bridge(pre);
            FATManager::lemma_chain_wf_congruence(
                st1.fat_manager,
                st1.device.spec_sectors(),
                pre.fat_manager,
                pre.device.spec_sectors(),
                first,
            );
            pre.fat_manager.lemma_chain_structure(
                pre.device.spec_sectors(),
                first,
                (pre.bpb.spec_total_clusters() + 1) as nat,
            );
            pre.fat_manager.lemma_chain_distinct(pre.device.spec_sectors(), first);
        }
        if new_capacity <= cap {
            proof {
                assert forall|m: int| 0 <= m < pre.bpb.spec_cluster_size() * oldch.len() implies
                spec_content_byte(*fs, first, m) == spec_content_byte(pre, first, m) by {
                    lemma_content_stable(st1, pre, first, m);
                }
            }
            return Ok(());
        }
        let need: usize = (new_capacity - cap + cs - 1) / cs;
        let first_cluster = self.first_data_cluster(fs);
        let ghost st2 = *fs;
        proof {
            fs.lemma_frame_compose(st1, pre);
            lemma_entry_of_stable(*self, st1, pre);
            assert(first_cluster == self.spec_first_of(pre));
            st2.lemma_low_bridge(pre);
            FATManager::lemma_chain_wf_congruence(
                st2.fat_manager,
                st2.device.spec_sectors(),
                pre.fat_manager,
                pre.device.spec_sectors(),
                first,
            );
        }
        let current_last_cluster = fs.fat_manager.final_cluster(
            &mut fs.device,
            first_cluster as usize,
        );
        let ghost st3 = *fs;
        proof {
            fs.lemma_frame_after_fat_op(st2);
            fs.lemma_frame_compose(st2, pre);
            assert(current_last_cluster as int == oldch.last());
            st3.lemma_low_bridge(pre);
            FATManager::lemma_chain_wf_congruence(
                st3.fat_manager,
                st3.device.spec_sectors(),
                pre.fat_manager,
                pre.device.spec_sectors(),
                first,
            );
            assert(st3.spec_fat_entry(oldch.last()) == FATEntry::End) by {
                assert(st3.spec_fat_entry_low(oldch.last()) == pre.spec_fat_entry_low(
                    oldch.last(),
                ));
            }
        }
        let alloc = fs.alloc_clusters(need, Some(current_last_cluster as u32));
        let ghost st4 = *fs;
        match alloc {
            None => {
                proof {
                    fs.lemma_frame_compose(st3, pre);
                    FATManager::lemma_count_free_congruence(
                        st3.fat_manager,
                        st3.device.spec_sectors(),
                        pre.fat_manager,
                        pre.device.spec_sectors(),
                        pre.bpb.spec_total_clusters() + 2,
                    );
                    st3.lemma_low_bridge(pre);
                    assert(need >= 1) by {
                        lemma_fundamental_div_mod((new_capacity - cap + cs - 1) as int, cs as int);
                        lemma_mod_bound((new_capacity - cap + cs - 1) as int, cs as int);
                        assert((new_capacity - cap + cs - 1) / (cs as int) >= 1)
                            by (nonlinear_arith)
                            requires
                                cs >= 1,
                                new_capacity > cap,
                                new_capacity - cap + cs - 1 == (cs as int) * ((new_capacity - cap
                                    + cs - 1) / (cs as int)) + (new_capacity - cap + cs - 1) % (
                                cs as int),
                                0 <= (new_capacity - cap + cs - 1) % (cs as int) < cs,
                        ;
                    }
                }
                Err(FSError::NoSpace)
            },
            Some(f2) => {
                proof {
                    lemma_capacity_grown(
                        pre,
                        st3,
                        st4,
                        first,
                        oldch,
                        f2,
                        need,
                        cap as int,
                        cs as int,
                        new_capacity as int,
                    );
                    assert forall|i: int, k: int|
                        oldch.len() <= i < st4.spec_chain(first).len() && 0 <= k < cs implies
                    #[trigger] st4.spec_cluster_view(st4.spec_chain(first)[i])[k] == 0u8 by {
                        assert(st4.spec_chain(first)[i] == st4.spec_chain(f2 as int)[i
                            - oldch.len()]);
                        assert(st4.spec_cluster_view(
                            st4.spec_chain(f2 as int)[i - oldch.len()],
                        )[k] == 0u8);
                    }
                }
                Ok(())
            },
        }
    }
}


/// The denoted entry survives an operation that kept the cluster views
/// and the synthesized root entry.
pub proof fn lemma_entry_of_stable<D: BlockDevice>(
    v: VFile,
    a: RunFileSystem<D>,
    b: RunFileSystem<D>,
)
    requires
        a.bpb == b.bpb,
        a.data_manager.root_dirent == b.data_manager.root_dirent,
        v.spec_valid_pos(b),
        forall|c: int|
            spec_cluster_in_range(b.bpb, c) ==> #[trigger] a.spec_cluster_view(c)
                == b.spec_cluster_view(c),
    ensures
        v.spec_entry_of(a) == v.spec_entry_of(b),
        v.spec_first_of(a) == v.spec_first_of(b),
        v.spec_valid_pos(a),
{
    if !v.spec_is_root() {
        assert(a.spec_cluster_view(v.short_cluster as int) == b.spec_cluster_view(
            v.short_cluster as int,
        ));
        assert(a.data_manager.spec_dirent_bytes(
            a.device.spec_sectors(),
            v.short_cluster as int,
            v.short_offset as int,
        ) =~= b.data_manager.spec_dirent_bytes(
            b.device.spec_sectors(),
            v.short_cluster as int,
            v.short_offset as int,
        ));
    }
}


/// After linking a fresh run of clusters behind a chain's last element,
/// the chain is the old one followed by the fresh run: capacity grew as
/// requested and all previous content survived.
#[verifier::rlimit(100)]
proof fn lemma_capacity_grown<D: BlockDevice>(
    pre: RunFileSystem<D>,
    st3: RunFileSystem<D>,
    st4: RunFileSystem<D>,
    first: int,
    oldch: Seq<int>,
    f2: u32,
    need: usize,
    cap: int,
    cs: int,
    new_capacity: int,
)
    requires
        pre.spec_inv(),
        st4.spec_inv(),
        st3.bpb == pre.bpb,
        st4.bpb == pre.bpb,
        pre.spec_chain_wf(first),
        oldch == pre.spec_chain(first),
        forall|c: int|
            spec_fat_index_ok(pre.bpb, c) ==> #[trigger] st3.spec_fat_entry_low(c)
                == pre.spec_fat_entry_low(c),
        forall|c: int|
            spec_cluster_in_range(pre.bpb, c) ==> #[trigger] st3.spec_cluster_view(c)
                == pre.spec_cluster_view(c),
        2 <= f2 < pre.bpb.spec_total_clusters() + 2,
        st4.spec_chain_wf(f2 as int),
        st4.spec_chain(f2 as int).len() == need,
        forall|i: int|
            0 <= i < need ==> st3.spec_fat_entry_low(
                #[trigger] st4.spec_chain(f2 as int)[i],
            ) == 0,
        st4.spec_fat_entry(oldch.last()) == FATEntry::Next(f2),
        forall|c: int|
            spec_fat_index_ok(pre.bpb, c) && !st4.spec_chain(f2 as int).contains(c) && c
                != oldch.last() ==> #[trigger] st4.spec_fat_entry_low(c)
                == st3.spec_fat_entry_low(c),
        forall|c: int|
            spec_cluster_in_range(pre.bpb, c) && !st4.spec_chain(f2 as int).contains(c)
                ==> #[trigger] st4.spec_cluster_view(c) == st3.spec_cluster_view(c),
        cap == cs * oldch.len(),
        cs == pre.bpb.spec_cluster_size(),
        cs >= 1,
        new_capacity > cap,
        need == (new_capacity - cap + cs - 1) / cs,
    ensures
        st4.spec_chain_wf(first),
        st4.spec_chain(first).len() >= oldch.len(),
        cs * st4.spec_chain(first).len() >= new_capacity,
        forall|i: int| 0 <= i < oldch.len() ==> #[trigger] st4.spec_chain(first)[i] == oldch[i],
        forall|i: int|
            oldch.len() <= i < st4.spec_chain(first).len() ==> pre.spec_fat_entry_low(
                #[trigger] st4.spec_chain(first)[i],
            ) == 0,
        st4.spec_chain(first).len() == oldch.len() + st4.spec_chain(f2 as int).len(),
        forall|i: int|
            oldch.len() <= i < st4.spec_chain(first).len() ==> #[trigger] st4.spec_chain(first)[i]
                == st4.spec_chain(f2 as int)[i - oldch.len()],
        forall|m: int|
            0 <= m < cs * oldch.len() ==> spec_content_byte(st4, first, m) == spec_content_byte(
                pre,
                first,
                m,
            ),
        forall|c: int|
            spec_cluster_in_range(pre.bpb, c) && !st4.spec_chain(first).contains(c)
                ==> #[trigger] st4.spec_cluster_view(c) == pre.spec_cluster_view(c),
{
    let disk4 = st4.device.spec_sectors();
    let freshch = st4.spec_chain(f2 as int);
    let last = oldch.last();
    pre.fat_manager.lemma_chain_structure(
        pre.device.spec_sectors(),
        first,
        (pre.bpb.spec_total_clusters() + 1) as nat,
    );
    pre.fat_manager.lemma_chain_distinct(pre.device.spec_sectors(), first);
    st4.fat_manager.lemma_chain_structure(
        disk4,
        f2 as int,
        (st4.bpb.spec_total_clusters() + 1) as nat,
    );
    st4.fat_manager.lemma_chain_distinct(disk4, f2 as int);
    // old links survive: the old chain held no free cluster, so none of it
    // was handed out again, and only the last element was rewritten
    assert forall|j: int| 0 <= j < oldch.len() - 1 implies st4.fat_manager.spec_links_to(
        disk4,
        #[trigger] oldch[j],
        oldch[j + 1],
    ) by {
        assert(pre.fat_manager.spec_links_to(pre.device.spec_sectors(), oldch[j], oldch[j + 1]));
        assert(!freshch.contains(oldch[j])) by {
            if freshch.contains(oldch[j]) {
                let q = choose|q: int| 0 <= q < freshch.len() && freshch[q] == oldch[j];
                assert(st3.spec_fat_entry_low(freshch[q]) == 0);
                assert(st3.spec_fat_entry_low(oldch[j]) == pre.spec_fat_entry_low(oldch[j]));
            }
        }
        assert(oldch[j] != last);
        assert(st4.spec_fat_entry_low(oldch[j]) == st3.spec_fat_entry_low(oldch[j]));
        assert(st3.spec_fat_entry_low(oldch[j]) == pre.spec_fat_entry_low(oldch[j]));
    }
    assert(st4.fat_manager.spec_links_to(disk4, last, f2 as int));
    assert(freshch[0] == f2 as int);
    // fresh clusters were free before, the old chain was not: no repeats
    assert forall|a: int, b: int| 0 <= a < b < oldch.len() + freshch.len() implies (oldch
        + freshch)[a] != (oldch + freshch)[b] by {
        if a < oldch.len() && b >= oldch.len() {
            assert((oldch + freshch)[a] == oldch[a]);
            assert((oldch + freshch)[b] == freshch[b - oldch.len()]);
            if oldch[a] == freshch[b - oldch.len()] {
                assert(st3.spec_fat_entry_low(freshch[b - oldch.len()]) == 0);
                assert(st3.spec_fat_entry_low(oldch[a]) == pre.spec_fat_entry_low(oldch[a]));
                assert(pre.fat_manager.spec_entry(pre.device.spec_sectors(), oldch[a]) is Next
                    || pre.fat_manager.spec_entry(pre.device.spec_sectors(), oldch[a])
                    == FATEntry::End);
            }
        } else if a >= oldch.len() {
            assert((oldch + freshch)[a] == freshch[a - oldch.len()]);
            assert((oldch + freshch)[b] == freshch[b - oldch.len()]);
        } else {
            assert((oldch + freshch)[a] == oldch[a]);
            assert((oldch + freshch)[b] == oldch[b]);
        }
    }
    st4.fat_manager.lemma_chain_append(disk4, oldch, freshch);
    assert(st4.spec_chain(first) == oldch + freshch);
    lemma_fundamental_div_mod(new_capacity - cap + cs - 1, cs);
    lemma_mod_bound(new_capacity - cap + cs - 1, cs);
    assert(cs * (oldch.len() + freshch.len()) >= new_capacity) by (nonlinear_arith)
        requires
            freshch.len() == need,
            need == (new_capacity - cap + cs - 1) / cs,
            cap == cs * oldch.len(),
            cs >= 1,
            new_capacity > cap,
            ((new_capacity - cap + cs - 1) / cs) * cs + (new_capacity - cap + cs - 1) % cs
                == new_capacity - cap + cs - 1,
            0 <= (new_capacity - cap + cs - 1) % cs < cs,
    ;
    // previous content survives
    assert forall|m: int| 0 <= m < cs * oldch.len() implies spec_content_byte(st4, first, m)
        == spec_content_byte(pre, first, m) by {
        lemma_fundamental_div_mod(m, cs);
        lemma_mod_bound(m, cs);
        assert((m / cs) < oldch.len()) by (nonlinear_arith)
            requires
                cs > 0,
                m < cs * oldch.len(),
                (m / cs) * cs + m % cs == m,
                0 <= m % cs,
                (m % cs) < cs,
        ;
        assert((oldch + freshch)[m / cs] == oldch[m / cs]);
        assert(!freshch.contains(oldch[m / cs])) by {
            if freshch.contains(oldch[m / cs]) {
                let q = choose|q: int| 0 <= q < freshch.len() && freshch[q] == oldch[m / cs];
                assert(st3.spec_fat_entry_low(freshch[q]) == 0);
                assert(st3.spec_fat_entry_low(oldch[m / cs]) == pre.spec_fat_entry_low(
                    oldch[m / cs],
                ));
            }
        }
        assert(st4.spec_cluster_view(oldch[m / cs]) == st3.spec_cluster_view(oldch[m / cs]));
        assert(st3.spec_cluster_view(oldch[m / cs]) == pre.spec_cluster_view(oldch[m / cs]));
    }
    // views outside the grown chain survive
    assert forall|c: int|
        spec_cluster_in_range(pre.bpb, c) && !st4.spec_chain(first).contains(c) implies
    #[trigger] st4.spec_cluster_view(c) == pre.spec_cluster_view(c) by {
        assert(!freshch.contains(c)) by {
            if freshch.contains(c) {
                let q = choose|q: int| 0 <= q < freshch.len() && freshch[q] == c;
                assert(st4.spec_chain(first)[oldch.len() + q] == c);
                assert(st4.spec_chain(first).contains(c));
            }
        }
        assert(st4.spec_cluster_view(c) == st3.spec_cluster_view(c));
    }
    assert forall|i: int| 0 <= i < oldch.len() implies #[trigger] st4.spec_chain(first)[i]
        == oldch[i] by {
        assert((oldch + freshch)[i] == oldch[i]);
    }
    assert forall|i: int| oldch.len() <= i < st4.spec_chain(first).len() implies
    pre.spec_fat_entry_low(#[trigger] st4.spec_chain(first)[i]) == 0 by {
        assert((oldch + freshch)[i] == freshch[i - oldch.len()]);
        assert(st3.spec_fat_entry_low(freshch[i - oldch.len()]) == 0);
    }
    assert forall|i: int| oldch.len() <= i < st4.spec_chain(first).len() implies
    #[trigger] st4.spec_chain(first)[i] == st4.spec_chain(f2 as int)[i - oldch.len()] by {
        assert((oldch + freshch)[i] == freshch[i - oldch.len()]);
    }
}


/// The handle's short-entry slot lies outside the denoted object's own
/// data chain, as it always does on a consistent volume: the slot sits in
/// the parent directory's data.
pub open spec fn spec_pos_disjoint<D: BlockDevice>(v: VFile, fs: RunFileSystem<D>) -> bool {
    !v.spec_is_root() ==> fs.spec_fat_entry_low(v.short_cluster as int) != 0 && !fs.spec_chain(
        v.spec_first_of(fs) as int,
    ).contains(v.short_cluster as int)
}

/// Enough room for a write of `len` bytes at `offset`: the chain already
/// covers it, or enough free clusters exist to grow it.
pub open spec fn spec_write_fits<D: BlockDevice>(
    v: VFile,
    fs: RunFileSystem<D>,
    offset: int,
    len: int,
) -> bool {
    let cs = fs.bpb.spec_cluster_size();
    offset + len <= cs * fs.spec_chain(v.spec_first_of(fs) as int).len()
        || fs.fat_manager.spec_count_free(fs.device.spec_sectors()) >= (offset + len + cs - 1)
        / cs
}

impl VFile {
    /// Write `buf` at content byte `offset`: the chain is first grown to
    /// cover the write, and for a regular file the short entry's size
    /// field is then set to the number of bytes written.  When too few
    /// clusters are free the write is clamped to the existing capacity, a
    /// normal short write.
    #[verifier::rlimit(100)]
    pub fn write_at<D: BlockDevice>(
        &self,
        fs: &mut RunFileSystem<D>,
        offset: usize,
        buf: &Vec<u8>,
    ) -> (r: usize)
        requires
            old(fs).spec_inv(),
            self.spec_valid_pos(*old(fs)),
            old(fs).spec_chain_wf(self.spec_first_of(*old(fs)) as int),
            spec_pos_disjoint(*self, *old(fs)),
            offset + buf@.len() + 32768 <= usize::MAX,
        ensures
            final(fs).spec_inv(),
            final(fs).bpb == old(fs).bpb,
            r <= buf@.len(),
            final(fs).spec_chain_wf(self.spec_first_of(*final(fs)) as int),
            self.spec_first_of(*final(fs)) == self.spec_first_of(*old(fs)),
            self.spec_valid_pos(*final(fs)),
            final(fs).spec_chain(self.spec_first_of(*old(fs)) as int).len() >= old(fs).spec_chain(
                self.spec_first_of(*old(fs)) as int,
            ).len(),
            forall|i: int|
                0 <= i < old(fs).spec_chain(self.spec_first_of(*old(fs)) as int).len()
                    ==> #[trigger] final(fs).spec_chain(self.spec_first_of(*old(fs)) as int)[i]
                    == old(fs).spec_chain(self.spec_first_of(*old(fs)) as int)[i],
            r == ({
                let cap = old(fs).bpb.spec_cluster_size() * final(fs).spec_chain(
                    self.spec_first_of(*old(fs)) as int,
                ).len();
                if (offset as int) < cap {
                    vstd::math::min(offset as int + buf@.len(), cap) - offset
                } else {
                    0
                }
            }),
            forall|i: int|
                0 <= i < r ==> spec_content_byte(
                    *final(fs),
                    self.spec_first_of(*old(fs)) as int,
                    offset + i,
                ) == buf@[i],
            spec_write_fits(*self, *old(fs), offset as int, buf@.len() as int) ==> r
                == buf@.len() && old(fs).bpb.spec_cluster_size() * final(fs).spec_chain(
                self.spec_first_of(*old(fs)) as int,
            ).len() >= offset + buf@.len(),
            !self.spec_is_root() && !self.attribute.spec_is_directory() ==> self.spec_entry_of(
                *final(fs),
            ).size == r as u32,
    {
        let ghost pre = *fs;
        let ghost first = self.spec_first_of(pre) as int;
        let ghost oldch = pre.spec_chain(first);
        let ghost cs = pre.bpb.spec_cluster_size();
        proof {
            assert(cs >= 512) by (nonlinear_arith)
                requires
                    cs == pre.bpb.bytes_per_sector as int * pre.bpb.sectors_per_cluster as int,
                    pre.bpb.bytes_per_sector >= 512,
                    pre.bpb.sectors_per_cluster >= 1,
            ;
        }
        let new_size = offset + buf.len();
        let adjusted = self.adjust_capacity(fs, new_size);
        let ghost st1 = *fs;
        let ghost grown = adjusted is Ok;
        proof {
            if adjusted is Err {
                if spec_write_fits(*self, pre, offset as int, buf@.len() as int) {
                    vstd::arithmetic::div_mod::lemma_div_is_ordered(
                        new_size - cs * oldch.len() + cs - 1,
                        new_size as int + cs - 1,
                        cs,
                    );
                }
                st1.lemma_low_bridge(pre);
                FATManager::lemma_chain_wf_congruence(
                    st1.fat_manager,
                    st1.device.spec_sectors(),
                    pre.fat_manager,
                    pre.device.spec_sectors(),
                    first,
                );
                lemma_entry_of_stable(*self, st1, pre);
            } else {
                lemma_entry_of_stable_chain(*self, st1, pre, st1.spec_chain(first));
            }
        }
        let ghost newch = st1.spec_chain(first);
        proof {
            assert(newch.len() >= oldch.len());
            assert(forall|i: int| 0 <= i < oldch.len() ==> #[trigger] newch[i] == oldch[i]);
            assert(!self.spec_is_root() ==> !newch.contains(self.short_cluster as int)) by {
                if !self.spec_is_root() && newch.contains(self.short_cluster as int) {
                    let q = choose|q: int|
                        0 <= q < newch.len() && newch[q] == self.short_cluster as int;
                    if q < oldch.len() {
                        assert(oldch[q] == self.short_cluster as int);
                        assert(oldch.contains(self.short_cluster as int));
                    } else {
                        assert(pre.spec_fat_entry_low(newch[q]) == 0);
                    }
                }
            }
        }
        let entry = self.current_entry(fs);
        let ghost st2 = *fs;
        proof {
            st2.lemma_low_bridge(st1);
            FATManager::lemma_chain_wf_congruence(
                st2.fat_manager,
                st2.device.spec_sectors(),
                st1.fat_manager,
                st1.device.spec_sectors(),
                first,
            );
            assert(entry.spec_first_cluster() == self.spec_first_of(pre));
        }
        let r = entry.write_at(fs, offset, buf);
        let ghost st3 = *fs;
        proof {
            assert(st3.spec_chain(first) == newch);
            if grown {
                assert(cs * newch.len() >= new_size);
                if buf@.len() > 0 {
                    assert((offset as int) < cs * newch.len());
                    assert(r == buf@.len());
                } else {
                    assert(r == 0);
                }
            }
            if !self.spec_is_root() {
                assert(st3.spec_cluster_view(self.short_cluster as int)
                    == st2.spec_cluster_view(self.short_cluster as int));
                assert(st2.spec_cluster_view(self.short_cluster as int)
                    == st1.spec_cluster_view(self.short_cluster as int));
                assert(st1.spec_cluster_view(self.short_cluster as int)
                    == pre.spec_cluster_view(self.short_cluster as int));
                assert(st3.data_manager.spec_dirent_bytes(
                    st3.device.spec_sectors(),
                    self.short_cluster as int,
                    self.short_offset as int,
                ) =~= pre.data_manager.spec_dirent_bytes(
                    pre.device.spec_sectors(),
                    self.short_cluster as int,
                    self.short_offset as int,
                ));
            }
            assert(self.spec_entry_of(st3) == self.spec_entry_of(pre));
            assert(self.spec_first_of(st3) == self.spec_first_of(pre));
        }
        if self.is_file() && !self.is_root() {
            let mut e2 = self.current_entry(fs);
            let ghost st4 = *fs;
            proof {
                st4.lemma_low_bridge(st3);
                FATManager::lemma_chain_wf_congruence(
                    st4.fat_manager,
                    st4.device.spec_sectors(),
                    st3.fat_manager,
                    st3.device.spec_sectors(),
                    first,
                );
            }
            e2.set_size(r as u32);
            let ghost st5 = *fs;
            fs.data_manager.write_short_dirent(
                &mut fs.device,
                self.short_cluster,
                self.short_offset,
                &e2,
            );
            proof {
                fs.lemma_fat_stable(st5);
                assert forall|cc: int| spec_fat_index_ok(st5.bpb, cc) implies
                #[trigger] fs.fat_manager.spec_entry_low(fs.device.spec_sectors(), cc)
                    == st5.fat_manager.spec_entry_low(st5.device.spec_sectors(), cc) by {
                    assert(fs.fat_manager.spec_entry_raw(fs.device.spec_sectors(), cc)
                        == st5.fat_manager.spec_entry_raw(st5.device.spec_sectors(), cc));
                    reveal(FATManager::spec_entry_raw);
                }
                assert(st5.spec_chain_wf(first) && st5.spec_chain(first) == newch);
                FATManager::lemma_chain_wf_congruence(
                    fs.fat_manager,
                    fs.device.spec_sectors(),
                    st5.fat_manager,
                    st5.device.spec_sectors(),
                    first,
                );
                assert(fs.spec_chain(first) == newch);
                crate::dir_entry::lemma_short_entry_roundtrip(e2);
                assert(self.spec_entry_of(*fs) == e2);
                assert forall|i: int| 0 <= i < r implies spec_content_byte(
                    *fs,
                    first,
                    offset + i,
                ) == buf@[i] by {
                    let m = offset + i;
                    lemma_fundamental_div_mod(m, cs);
                    lemma_mod_bound(m, cs);
                    assert((m / cs) < newch.len()) by (nonlinear_arith)
                        requires
                            cs > 0,
                            m < cs * newch.len(),
                            (m / cs) * cs + m % cs == m,
                            0 <= m % cs,
                            (m % cs) < cs,
                    ;
                    assert(newch.contains(newch[m / cs]));
                    assert(newch[m / cs] != self.short_cluster as int);
                    assert(fs.spec_cluster_view(newch[m / cs]) == st5.spec_cluster_view(
                        newch[m / cs],
                    ));
                    assert(st5.spec_cluster_view(newch[m / cs]) == st4.spec_cluster_view(
                        newch[m / cs],
                    ));
                    assert(spec_content_byte(st3, first, m) == buf@[i]);
                }
            }
        }
        r
    }
}


/// Like `lemma_entry_of_stable`, for an operation that changed only the
/// clusters of a chain the slot lies outside of.
pub proof fn lemma_entry_of_stable_chain<D: BlockDevice>(
    v: VFile,
    a: RunFileSystem<D>,
    b: RunFileSystem<D>,
    ch: Seq<int>,
)
    requires
        a.bpb == b.bpb,
        a.data_manager.root_dirent == b.data_manager.root_dirent,
        v.spec_valid_pos(b),
        spec_pos_disjoint(v, b),
        ch == a.spec_chain(v.spec_first_of(b) as int),
        forall|i: int| 0 <= i < b.spec_chain(v.spec_first_of(b) as int).len() ==> #[trigger] ch[i]
            == b.spec_chain(v.spec_first_of(b) as int)[i],
        ch.len() >= b.spec_chain(v.spec_first_of(b) as int).len(),
        forall|i: int|
            b.spec_chain(v.spec_first_of(b) as int).len() <= i < ch.len()
                ==> b.spec_fat_entry_low(#[trigger] ch[i]) == 0,
        forall|c: int|
            spec_cluster_in_range(b.bpb, c) && !ch.contains(c) ==> #[trigger] a.spec_cluster_view(
                c,
            ) == b.spec_cluster_view(c),
        !v.spec_is_root() ==> spec_cluster_in_range(b.bpb, v.short_cluster as int),
    ensures
        v.spec_entry_of(a) == v.spec_entry_of(b),
        v.spec_first_of(a) == v.spec_first_of(b),
        v.spec_valid_pos(a),
        !ch.contains(v.short_cluster as int) || v.spec_is_root(),
{
    if !v.spec_is_root() {
        assert(!ch.contains(v.short_cluster as int)) by {
            if ch.contains(v.short_cluster as int) {
                let q = choose|q: int| 0 <= q < ch.len() && ch[q] == v.short_cluster as int;
                if q < b.spec_chain(v.spec_first_of(b) as int).len() {
                    assert(b.spec_chain(v.spec_first_of(b) as int)[q] == v.short_cluster as int);
                    assert(b.spec_chain(v.spec_first_of(b) as int).contains(
                        v.short_cluster as int,
                    ));
                } else {
                    assert(b.spec_fat_entry_low(ch[q]) == 0);
                }
            }
        }
        assert(a.spec_cluster_view(v.short_cluster as int) == b.spec_cluster_view(
            v.short_cluster as int,
        ));
        assert(a.data_manager.spec_dirent_bytes(
            a.device.spec_sectors(),
            v.short_cluster as int,
            v.short_offset as int,
        ) =~= b.data_manager.spec_dirent_bytes(
            b.device.spec_sectors(),
            v.short_cluster as int,
            v.short_offset as int,
        ));
    }
}


/// A handle can do file I/O after an observably unchanged operation.
pub proof fn lemma_io_ok_stable<D: BlockDevice>(v: VFile, a: RunFileSystem<D>, b: RunFileSystem<D>)
    requires
        a.spec_frame(b),
        b.spec_inv(),
        v.spec_io_ok(b),
    ensures
        v.spec_io_ok(a),
        v.spec_entry_of(a) == v.spec_entry_of(b),
        v.spec_first_of(a) == v.spec_first_of(b),
        a.spec_chain(v.spec_first_of(b) as int) == b.spec_chain(v.spec_first_of(b) as int),
        spec_size_bound(v.spec_io_entry(a), a) == spec_size_bound(v.spec_io_entry(b), b),
{
    lemma_entry_of_stable(v, a, b);
    a.lemma_low_bridge(b);
    FATManager::lemma_chain_wf_congruence(
        a.fat_manager,
        a.device.spec_sectors(),
        b.fat_manager,
        b.device.spec_sectors(),
        v.spec_first_of(b) as int,
    );
}

/// Compare two long-entry name chunks.
fn chunks_equal(a: &[u16; 13], b: &[u16; 13]) -> (r: bool)
    ensures
        r == (a@ == b@),
{
    let mut i: usize = 0;
    while i < 13
        invariant
            0 <= i <= 13,
            forall|k: int| 0 <= k < i ==> a@[k] == b@[k],
        decreases 13 - i,
    {
        if a[i] != b[i] {
            proof {
                assert(a@ != b@);
            }
            return false;
        }
        i = i + 1;
    }
    proof {
        assert(a@ =~= b@);
    }
    true
}

impl VFile {
    /// Read the 32-byte directory slot at `offset` of this directory.
    /// Returns the raw bytes, or `None` past the end of the content.
    fn read_dirent_slot<D: BlockDevice>(
        &self,
        fs: &mut RunFileSystem<D>,
        offset: usize,
    ) -> (r: Option<Vec<u8>>)
        requires
            old(fs).spec_inv(),
            self.spec_io_ok(*old(fs)),
            offset + 32 <= usize::MAX,
        ensures
            final(fs).spec_frame(*old(fs)),
            r matches Some(b) ==> b@.len() == 32 && forall|k: int|
                0 <= k < 32 ==> #[trigger] b@[k] == spec_content_byte(
                    *old(fs),
                    self.spec_first_of(*old(fs)) as int,
                    offset + k,
                ),
            r is Some <==> offset + 32 <= spec_size_bound(
                self.spec_io_entry(*old(fs)),
                *old(fs),
            ),
    {
        let mut buf: Vec<u8> = Vec::new();
        let mut i: usize = 0;
        while i < 32
            invariant
                buf@.len() == i,
                0 <= i <= 32,
            decreases 32 - i,
        {
            buf.push(0u8);
            i = i + 1;
        }
        let got = self.read_at(fs, offset, &mut buf);
        if got == 32 {
            Some(buf)
        } else {
            None
        }
    }

    /// Scan this directory for `num` consecutive free 32-byte slots,
    /// growing the directory when its content ends first.  Returns the
    /// offset of the first slot of the run; every slot of the run is free
    /// (first byte 0x00 or 0xE5) and lies within the grown content.
    #[verifier::rlimit(100)]
    pub fn find_free_dirents<D: BlockDevice>(&self, fs: &mut RunFileSystem<D>, num: usize) -> (r:
        Option<usize>)
        requires
            old(fs).spec_inv(),
            self.spec_io_ok(*old(fs)),
            self.attribute.spec_is_directory(),
            self.spec_entry_of(*old(fs)).spec_is_dir(),
            spec_pos_disjoint(*self, *old(fs)),
            num * 32 + 65536 <= usize::MAX,
        ensures
            final(fs).spec_inv(),
            final(fs).bpb == old(fs).bpb,
            self.spec_first_of(*final(fs)) == self.spec_first_of(*old(fs)),
            self.spec_valid_pos(*final(fs)),
            final(fs).spec_chain_wf(self.spec_first_of(*old(fs)) as int),
            r matches Some(off) ==> {
                &&& off as int % 32 == 0
                &&& off + num * 32 <= old(fs).bpb.spec_cluster_size() * final(fs).spec_chain(
                    self.spec_first_of(*old(fs)) as int,
                ).len()
                &&& forall|j: int|
                    0 <= j < num ==> (#[trigger] spec_content_byte(
                        *final(fs),
                        self.spec_first_of(*old(fs)) as int,
                        off + 32 * j,
                    ) == 0x00u8 || spec_content_byte(
                        *final(fs),
                        self.spec_first_of(*old(fs)) as int,
                        off + 32 * j,
                    ) == 0xE5u8)
            },
            num == 0 ==> r is None,
            num >= 1 && old(fs).fat_manager.spec_count_free(old(fs).device.spec_sectors()) >= num
                && old(fs).bpb.spec_cluster_size() * old(fs).spec_chain(
                self.spec_first_of(*old(fs)) as int,
            ).len() + num * 32 + 32768 <= usize::MAX ==> r is Some,
    {
        let ghost pre = *fs;
        let ghost first = self.spec_first_of(pre) as int;
        let ghost cs = pre.bpb.spec_cluster_size();
        proof {
            let bps = pre.bpb.bytes_per_sector as int;
            let spc = pre.bpb.sectors_per_cluster as int;
            assert(bps == 32 * (bps / 32));
            assert(cs >= 512) by (nonlinear_arith)
                requires
                    cs == bps * spc,
                    bps >= 512,
                    spc >= 1,
            ;
            assert(cs == ((bps / 32) * spc) * 32) by (nonlinear_arith)
                requires
                    cs == bps * spc,
                    bps == 32 * (bps / 32),
            ;
            vstd::arithmetic::div_mod::lemma_mod_multiples_basic((bps / 32) * spc, 32);
            assert(cs % 32 == 0);
        }
        if num == 0 {
            proof {
                fs.lemma_frame_refl();
                lemma_io_ok_stable(*self, *fs, pre);
            }
            return None;
        }
        let cap = self.capacity(fs);
        proof {
            lemma_io_ok_stable(*self, *fs, pre);
            assert(cap == spec_size_bound(self.spec_io_entry(pre), pre));
            crate::fat32::lemma_volume_bytes_bound(pre.bpb);
            pre.fat_manager.lemma_chain_structure(
                pre.device.spec_sectors(),
                first,
                (pre.bpb.spec_total_clusters() + 1) as nat,
            );
            assert(cap <= cs * (pre.bpb.spec_total_clusters() + 1)) by (nonlinear_arith)
                requires
                    cap == cs * pre.spec_chain(first).len(),
                    pre.spec_chain(first).len() <= pre.bpb.spec_total_clusters() + 1,
                    cs >= 1,
            ;
            assert(cs == 32 * (cs / 32));
            assert(cap == ((cs / 32) * pre.spec_chain(first).len()) * 32) by (nonlinear_arith)
                requires
                    cap == cs * pre.spec_chain(first).len(),
                    cs == 32 * (cs / 32),
            ;
            vstd::arithmetic::div_mod::lemma_mod_multiples_basic(
                (cs / 32) * pre.spec_chain(first).len(),
                32,
            );
            assert(cap % 32 == 0);
        }
        // append a fresh run of `num` zero-filled slots at the end of the
        // content; fresh clusters read as zero, so every slot is free
        let ghost stg = *fs;
        proof {
            lemma_io_ok_stable(*self, stg, *old(fs));
            stg.lemma_low_bridge(*old(fs));
            FATManager::lemma_count_free_congruence(
                stg.fat_manager,
                stg.device.spec_sectors(),
                old(fs).fat_manager,
                old(fs).device.spec_sectors(),
                old(fs).bpb.spec_total_clusters() + 2,
            );
        }
        self.grow_tail(fs, num, cap, 0, cap)
    }

    /// Grow the directory so that the trailing free run starting at
    /// `run_start` reaches `num` slots, continuing into fresh zero-filled
    /// clusters.
    #[verifier::rlimit(100)]
    fn grow_tail<D: BlockDevice>(
        &self,
        fs: &mut RunFileSystem<D>,
        num: usize,
        run_start: usize,
        run_len: usize,
        cap: usize,
    ) -> (r: Option<usize>)
        requires
            old(fs).spec_inv(),
            self.spec_io_ok(*old(fs)),
            self.spec_entry_of(*old(fs)).spec_is_dir(),
            spec_pos_disjoint(*self, *old(fs)),
            num >= 1,
            num * 32 + 65536 <= usize::MAX,
            cap + 65536 <= usize::MAX,
            cap == old(fs).bpb.spec_cluster_size() * old(fs).spec_chain(
                self.spec_first_of(*old(fs)) as int,
            ).len(),
            run_len < num,
            run_start % 32 == 0,
            run_start + run_len * 32 == cap,
            forall|j: int|
                0 <= j < run_len ==> (#[trigger] spec_content_byte(
                    *old(fs),
                    self.spec_first_of(*old(fs)) as int,
                    run_start + 32 * j,
                ) == 0x00u8 || spec_content_byte(
                    *old(fs),
                    self.spec_first_of(*old(fs)) as int,
                    run_start + 32 * j,
                ) == 0xE5u8),
        ensures
            final(fs).spec_inv(),
            final(fs).bpb == old(fs).bpb,
            self.spec_first_of(*final(fs)) == self.spec_first_of(*old(fs)),
            self.spec_valid_pos(*final(fs)),
            final(fs).spec_chain_wf(self.spec_first_of(*old(fs)) as int),
            r matches Some(off) ==> {
                &&& off as int % 32 == 0
                &&& off + num * 32 <= old(fs).bpb.spec_cluster_size() * final(fs).spec_chain(
                    self.spec_first_of(*old(fs)) as int,
                ).len()
                &&& forall|j: int|
                    0 <= j < num ==> (#[trigger] spec_content_byte(
                        *final(fs),
                        self.spec_first_of(*old(fs)) as int,
                        off + 32 * j,
                    ) == 0x00u8 || spec_content_byte(
                        *final(fs),
                        self.spec_first_of(*old(fs)) as int,
                        off + 32 * j,
                    ) == 0xE5u8)
            },
            old(fs).fat_manager.spec_count_free(old(fs).device.spec_sectors()) >= num && cap
                + num * 32 + 32768 <= usize::MAX ==> r is Some,
    {
        let ghost first = self.spec_first_of(*old(fs)) as int;
        let ghost cs = old(fs).bpb.spec_cluster_size();
        if num as u64 > (usize::MAX as u64 - 32768 - cap as u64) / 32 {
            proof {
                fs.lemma_frame_refl();
                lemma_io_ok_stable(*self, *fs, *old(fs));
            }
            return None;
        }
        let need_bytes = (num - run_len) * 32;
        match self.adjust_capacity(fs, cap + need_bytes) {
            Ok(_) => {
                proof {
                    lemma_entry_of_stable_chain(*self, *fs, *old(fs), fs.spec_chain(first));
                    let newch = fs.spec_chain(first);
                    let oldlen = old(fs).spec_chain(first).len() as int;
                    assert(cs * newch.len() >= cap + need_bytes);
                    assert forall|j: int| 0 <= j < num implies (#[trigger] spec_content_byte(
                        *fs,
                        first,
                        run_start as int + 32 * j,
                    ) == 0x00u8 || spec_content_byte(*fs, first, run_start as int + 32 * j)
                        == 0xE5u8) by {
                        let m = run_start as int + 32 * j;
                        if j < run_len {
                            assert(m < cs * oldlen);
                        } else {
                            assert(cap <= m < cs * newch.len());
                            lemma_fundamental_div_mod(m, cs);
                            lemma_mod_bound(m, cs);
                            assert(oldlen <= m / cs < newch.len()) by (nonlinear_arith)
                                requires
                                    cs > 0,
                                    cs * oldlen <= m,
                                    m < cs * newch.len(),
                                    m == cs * (m / cs) + m % cs,
                                    0 <= m % cs < cs,
                            ;
                            assert(fs.spec_cluster_view(newch[m / cs])[m % cs] == 0u8);
                        }
                    }
                }
                Some(run_start)
            },
            Err(_) => {
                proof {
                    // a failed growth means too few free clusters existed
                    if old(fs).fat_manager.spec_count_free(old(fs).device.spec_sectors()) >= num {
                        let x = cap + need_bytes - cs * old(fs).spec_chain(first).len() + cs - 1;
                        lemma_fundamental_div_mod(x, cs);
                        lemma_mod_bound(x, cs);
                        assert(x / cs <= num) by (nonlinear_arith)
                            requires
                                cs >= 512,
                                x <= num * 32 + cs - 1,
                                num >= 1,
                                x == cs * (x / cs) + x % cs,
                                0 <= x % cs < cs,
                        ;
                        assert(false);
                    }
                    lemma_io_ok_stable(*self, *fs, *old(fs));
                }
                None
            },
        }
    }

    /// Search this directory for `name` by its long entries: a matching
    /// group of chunks followed by a short entry with the group's
    /// checksum.
    #[verifier::rlimit(100)]
    fn find_long_name<D: BlockDevice>(&self, fs: &mut RunFileSystem<D>, name: &str) -> (r: Option<
        VFile,
    >)
        requires
            old(fs).spec_inv(),
            self.spec_io_ok(*old(fs)),
            self.spec_entry_of(*old(fs)).spec_is_dir(),
            spec_utf16(name@).len() <= 260,
            spec_utf16(name@).len() > 0,
        ensures
            final(fs).spec_frame(*old(fs)),
            r matches Some(v) ==> v.spec_valid_pos(*final(fs)),
    {
        let ghost pre = *fs;
        proof {
            fs.lemma_frame_refl();
            crate::fat32::lemma_volume_bytes_bound(pre.bpb);
            pre.fat_manager.lemma_chain_structure(
                pre.device.spec_sectors(),
                self.spec_first_of(pre) as int,
                (pre.bpb.spec_total_clusters() + 1) as nat,
            );
            assert(pre.bpb.spec_cluster_size() * pre.spec_chain(
                self.spec_first_of(pre) as int,
            ).len() <= pre.bpb.spec_cluster_size() * (pre.bpb.spec_total_clusters() + 1))
                by (nonlinear_arith)
                requires
                    pre.spec_chain(self.spec_first_of(pre) as int).len()
                        <= pre.bpb.spec_total_clusters() + 1,
                    pre.bpb.spec_cluster_size() >= 1,
            ;
        }
        let name_vec = long_name_split(name);
        let entry_num = name_vec.len();
        let cs = fs.bpb.cluster_size();
        let ghost bound = spec_size_bound(self.spec_io_entry(pre), pre);
        let mut dir_offset: usize = 0;
        loop
            invariant
                fs.spec_frame(*old(fs)),
                old(fs).spec_inv(),
                self.spec_io_ok(*old(fs)),
                entry_num == name_vec@.len(),
                1 <= entry_num <= 21,
                dir_offset % 32 == 0,
                bound == spec_size_bound(self.spec_io_entry(*old(fs)), *old(fs)),
                bound + 4096 <= usize::MAX,
                dir_offset <= bound + 32,
            decreases bound + 32 - dir_offset,
        {
            let ghost stp = *fs;
            proof {
                lemma_io_ok_stable(*self, stp, *old(fs));
            }
            let (done, result, past_end) = self.scan_step(fs, &name_vec, dir_offset, name);
            proof {
                fs.lemma_frame_compose(stp, *old(fs));
            }
            if done {
                return result;
            }
            if past_end {
                return None;
            }
            dir_offset = dir_offset + 32;
        }
    }

    /// One step of the long-name scan at `dir_offset`: read the slot and,
    /// when it opens a candidate group, match it.  `done` ends the search
    /// with `result`; `past_end` reports the directory content ran out.
    #[verifier::rlimit(100)]
    fn scan_step<D: BlockDevice>(
        &self,
        fs: &mut RunFileSystem<D>,
        name_vec: &Vec<[u16; 13]>,
        dir_offset: usize,
        name: &str,
    ) -> (r: (bool, Option<VFile>, bool))
        requires
            old(fs).spec_inv(),
            self.spec_io_ok(*old(fs)),
            1 <= name_vec@.len() <= 21,
            dir_offset % 32 == 0,
            dir_offset + 2048 <= usize::MAX,
        ensures
            final(fs).spec_frame(*old(fs)),
            r.1 matches Some(v) ==> v.spec_valid_pos(*final(fs)),
            !r.0 && !r.2 ==> dir_offset + 32 <= spec_size_bound(
                self.spec_io_entry(*old(fs)),
                *old(fs),
            ),
    {
        let ghost pre = *fs;
        proof {
            fs.lemma_frame_refl();
        }
        let entry_num = name_vec.len();
        let slot = self.read_dirent_slot(fs, dir_offset);
        let bytes = match slot {
            None => {
                return (false, None, true);
            },
            Some(b) => b,
        };
        let long_entry = LongDirectoryEntry::from_bytes(&bytes);
        if !long_entry.is_free() && long_entry.is_long() && long_entry.is_last() {
            let raw_order = long_entry.raw_order();
            if raw_order as usize == entry_num {
                let long_checksum = long_entry.checksum();
                let ghost stg = *fs;
                proof {
                    lemma_io_ok_stable(*self, stg, pre);
                }
                let (stop, attr_opt) = self.check_group(
                    fs,
                    &name_vec,
                    dir_offset,
                    long_checksum,
                    &long_entry,
                );
                proof {
                    fs.lemma_frame_compose(stg, pre);
                }
                if stop {
                    match attr_opt {
                        Some(attr) => {
                            let short_offset_abs = dir_offset + entry_num * 32;
                            let ghost stl = *fs;
                            proof {
                                lemma_io_ok_stable(*self, stl, pre);
                            }
                            let r = self.locate(fs, dir_offset, entry_num, short_offset_abs, name,
                                attr);
                            proof {
                                fs.lemma_frame_compose(stl, pre);
                            }
                            return (true, r, false);
                        },
                        None => {
                            return (true, None, false);
                        },
                    }
                }
            }
        }
        (false, None, false)
    }

    /// Build the handle for a match found at `dir_offset`: resolve each
    /// entry's cluster and in-cluster offset through the chain.
    #[verifier::rlimit(100)]
    fn locate<D: BlockDevice>(
        &self,
        fs: &mut RunFileSystem<D>,
        dir_offset: usize,
        entry_num: usize,
        short_offset_abs: usize,
        name: &str,
        attribute: FileAttributes,
    ) -> (r: Option<VFile>)
        requires
            old(fs).spec_inv(),
            self.spec_io_ok(*old(fs)),
            dir_offset % 32 == 0,
            entry_num <= 21,
            short_offset_abs == dir_offset + entry_num * 32,
            short_offset_abs + 32 < usize::MAX,
        ensures
            final(fs).spec_frame(*old(fs)),
            r matches Some(v) ==> v.spec_valid_pos(*final(fs)),
    {
        let ghost pre = *fs;
        proof {
            fs.lemma_frame_refl();
        }
        let cs = fs.bpb.cluster_size();
        let entry = self.current_entry_io(fs);
        let ghost st0 = *fs;
        proof {
            lemma_io_ok_stable(*self, st0, pre);
        }
        proof {
            lemma_io_ok_stable(*self, st0, pre);
            assert(st0.spec_chain_wf(entry.spec_first_cluster() as int));
        }
        let (short_cl, short_in) = entry.pos(fs, short_offset_abs);
        proof {
            fs.lemma_frame_compose(st0, pre);
            lemma_io_ok_stable(*self, *fs, pre);
        }
        let short_cluster = match short_cl {
            None => {
                return None;
            },
            Some(c) => c,
        };
        if short_in + 32 > cs {
            return None;
        }
        proof {
            assert(spec_cluster_in_range(pre.bpb, short_cluster as int));
        }
        let mut long_pos_vec: Vec<(usize, usize)> = Vec::new();
        let mut i: usize = 0;
        #[verifier::loop_isolation(false)]
        while i < entry_num
            invariant
                fs.spec_frame(pre),
                pre.spec_inv(),
                self.spec_io_ok(pre),
                entry.spec_first_cluster() == self.spec_first_of(pre),
                entry_num <= 21,
                0 <= i <= entry_num,
                dir_offset + entry_num * 32 + 32 < usize::MAX,
            decreases entry_num - i,
        {
            let ghost stq = *fs;
            proof {
                lemma_io_ok_stable(*self, stq, pre);
                assert(stq.spec_chain_wf(entry.spec_first_cluster() as int));
            }
            let (lc, lo) = entry.pos(fs, dir_offset + i * 32);
            proof {
                fs.lemma_frame_compose(stq, pre);
                lemma_io_ok_stable(*self, *fs, pre);
            }
            match lc {
                None => {
                    return None;
                },
                Some(c) => {
                    long_pos_vec.push((c, lo));
                },
            }
            i = i + 1;
        }
        let owned: String = name.to_owned();
        Some(VFile::new(owned, short_cluster, short_in, long_pos_vec, attribute))
    }

    /// The entry used for chain I/O, with the root's cluster substituted.
    fn current_entry_io<D: BlockDevice>(&self, fs: &mut RunFileSystem<D>) -> (r:
        ShortDirectoryEntry)
        requires
            old(fs).spec_inv(),
            self.spec_valid_pos(*old(fs)),
        ensures
            final(fs).spec_frame(*old(fs)),
            r == self.spec_entry_of(*old(fs)),
            r.spec_first_cluster() == self.spec_first_of(*old(fs)),
    {
        self.current_entry(fs)
    }
}


impl VFile {
    /// Check whether the long-entry group starting at `dir_offset` spells
    /// the split name and is bound by `long_checksum` to its short entry.
    /// The first component says the scan may stop here; the second carries
    /// the matched short entry's attribute.
    #[verifier::rlimit(100)]
    fn check_group<D: BlockDevice>(
        &self,
        fs: &mut RunFileSystem<D>,
        name_vec: &Vec<[u16; 13]>,
        dir_offset: usize,
        long_checksum: u8,
        first_entry: &LongDirectoryEntry,
    ) -> (r: (bool, Option<FileAttributes>))
        requires
            old(fs).spec_inv(),
            self.spec_io_ok(*old(fs)),
            1 <= name_vec@.len() <= 21,
            dir_offset + 2048 <= usize::MAX,
        ensures
            final(fs).spec_frame(*old(fs)),
    {
        let ghost pre = *fs;
        proof {
            fs.lemma_frame_refl();
        }
        let entry_num = name_vec.len();
        if !chunks_equal(&first_entry.name_to_array(), &name_vec[entry_num - 1]) {
            return (false, None);
        }
        let mut i: usize = 1;
        #[verifier::loop_isolation(false)]
        while i < entry_num
            invariant
                fs.spec_frame(pre),
                1 <= i <= entry_num,
            decreases entry_num - i,
        {
            let ghost stq = *fs;
            proof {
                lemma_io_ok_stable(*self, stq, pre);
            }
            let s2 = self.read_dirent_slot(fs, dir_offset + i * 32);
            proof {
                fs.lemma_frame_compose(stq, pre);
            }
            match s2 {
                None => {
                    return (true, None);
                },
                Some(b2) => {
                    let le = LongDirectoryEntry::from_bytes(&b2);
                    if !(chunks_equal(&le.name_to_array(), &name_vec[entry_num - 1 - i])
                        && le.is_long()) {
                        return (false, None);
                    }
                },
            }
            i = i + 1;
        }
        let short_offset_abs = dir_offset + entry_num * 32;
        let ghost str_ = *fs;
        proof {
            lemma_io_ok_stable(*self, str_, pre);
        }
        let s3 = self.read_dirent_slot(fs, short_offset_abs);
        proof {
            fs.lemma_frame_compose(str_, pre);
        }
        if let Some(b3) = s3 {
            let short_entry = ShortDirectoryEntry::from_bytes(&b3);
            if !short_entry.is_free() && short_entry.checksum() == long_checksum {
                return (true, Some(short_entry.attribute()));
            }
        }
        (true, None)
    }
}


} // verus!
