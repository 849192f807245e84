//! The executable image format: a 64-bit little-endian ELF file, of which
//! the entry point and the loadable segments are read.

use vstd::prelude::*;

verus! {

/// The type of a program header that describes a loadable segment.
pub const PT_LOAD: u32 = 1;

/// Segment flag: the segment may be executed.
pub const PF_X: u32 = 1;

/// Segment flag: the segment may be written.
pub const PF_W: u32 = 2;

/// Segment flag: the segment may be read.
pub const PF_R: u32 = 4;

/// The bytes of a file header.
pub const EHDR_SIZE: usize = 64;

/// The bytes of a program header.
pub const PHDR_SIZE: usize = 56;

/// A loadable segment: `file_size` bytes of the image from `offset` on go
/// to the virtual address `vaddr`, where the segment takes `mem_size` bytes.
#[derive(Clone, Copy, Debug, PartialEq, Eq, Structural)]
pub struct Segment {
    pub vaddr: u64,
    pub mem_size: u64,
    pub offset: u64,
    pub file_size: u64,
    pub flags: u32,
}

/// What is read of an image: its entry point and its loadable segments, in
/// the order of their program headers.
pub struct ElfImage {
    pub entry: u64,
    pub segments: Vec<Segment>,
}

/// The little-endian number in the two bytes of `d` from `at` on.
pub open spec fn le16(d: Seq<u8>, at: int) -> int {
    d[at] + 0x100 * d[at + 1]
}

/// The little-endian number in the four bytes of `d` from `at` on.
pub open spec fn le32(d: Seq<u8>, at: int) -> int {
    d[at] + 0x100 * d[at + 1] + 0x1_0000 * d[at + 2] + 0x100_0000 * d[at + 3]
}

/// The little-endian number in the eight bytes of `d` from `at` on.
pub open spec fn le64(d: Seq<u8>, at: int) -> int {
    le32(d, at) + 0x1_0000_0000 * le32(d, at + 4)
}

/// Whether `d` starts with the file header of a 64-bit little-endian ELF
/// image whose table of program headers lies inside `d`.
pub open spec fn header_ok(d: Seq<u8>) -> bool {
    &&& d.len() >= 64
    &&& d[0] == 0x7f
    &&& d[1] == 0x45
    &&& d[2] == 0x4c
    &&& d[3] == 0x46
    &&& d[4] == 2
    &&& d[5] == 1
    &&& le16(d, 54) == 56
    &&& le64(d, 32) + 56 * le16(d, 56) <= d.len()
}

/// The number of program headers.
pub open spec fn ph_count(d: Seq<u8>) -> int {
    le16(d, 56)
}

/// The position of the program header `k`.
pub open spec fn ph_at(d: Seq<u8>, k: int) -> int {
    le64(d, 32) + 56 * k
}

/// Whether the program header `k` describes a loadable segment.
pub open spec fn ph_loadable(d: Seq<u8>, k: int) -> bool {
    le32(d, ph_at(d, k)) == 1
}

/// The segment that the program header `k` describes.
pub open spec fn ph_segment(d: Seq<u8>, k: int) -> Segment {
    Segment {
        vaddr: le64(d, ph_at(d, k) + 16) as u64,
        mem_size: le64(d, ph_at(d, k) + 40) as u64,
        offset: le64(d, ph_at(d, k) + 8) as u64,
        file_size: le64(d, ph_at(d, k) + 32) as u64,
        flags: le32(d, ph_at(d, k) + 4) as u32,
    }
}

/// Whether the bytes of the segment lie inside an image of `len` bytes and
/// are no more than the segment takes in memory.
pub open spec fn segment_ok(s: Segment, len: int) -> bool {
    s.offset + s.file_size <= len && s.file_size <= s.mem_size
}

/// The loadable segments among the first `n` program headers.
pub open spec fn segments_upto(d: Seq<u8>, n: int) -> Seq<Segment>
    decreases n,
{
    if n <= 0 {
        Seq::empty()
    } else if ph_loadable(d, n - 1) {
        segments_upto(d, n - 1).push(ph_segment(d, n - 1))
    } else {
        segments_upto(d, n - 1)
    }
}

/// Whether `d` is an image that can be loaded: its header is in order and
/// so is every loadable segment.
pub open spec fn image_ok(d: Seq<u8>) -> bool {
    &&& header_ok(d)
    &&& forall|k: int|
        0 <= k < ph_count(d) && ph_loadable(d, k) ==> segment_ok(#[trigger] ph_segment(d, k), d.len() as int)
}

/// The little-endian number in the two bytes of `d` from `at` on.
pub fn read_u16(d: &[u8], at: usize) -> (r: u16)
    requires
        at + 2 <= d@.len(),
    ensures
        r == le16(d@, at as int),
{
    let b0: u16 = d[at] as u16;
    let b1: u16 = d[at + 1] as u16;
    assert((b0 | (b1 << 8)) == b0 + 0x100 * b1) by (bit_vector)
        requires
            b0 < 0x100,
            b1 < 0x100,
    ;
    b0 | (b1 << 8)
}

/// The little-endian number in the four bytes of `d` from `at` on.
pub fn read_u32(d: &[u8], at: usize) -> (r: u32)
    requires
        at + 4 <= d@.len(),
    ensures
        r == le32(d@, at as int),
{
    let b0: u32 = d[at] as u32;
    let b1: u32 = d[at + 1] as u32;
    let b2: u32 = d[at + 2] as u32;
    let b3: u32 = d[at + 3] as u32;
    assert((b0 | (b1 << 8) | (b2 << 16) | (b3 << 24)) == b0 + 0x100 * b1 + 0x1_0000 * b2 + 0x100_0000
        * b3) by (bit_vector)
        requires
            b0 < 0x100,
            b1 < 0x100,
            b2 < 0x100,
            b3 < 0x100,
    ;
    b0 | (b1 << 8) | (b2 << 16) | (b3 << 24)
}

/// The little-endian number in the eight bytes of `d` from `at` on.
pub fn read_u64(d: &[u8], at: usize) -> (r: u64)
    requires
        at + 8 <= d@.len(),
    ensures
        r == le64(d@, at as int),
{
    let n: usize = d.len();
    let lo: u64 = read_u32(d, at) as u64;
    let hi: u64 = read_u32(d, at + 4) as u64;
    assert((lo | (hi << 32)) == lo + 0x1_0000_0000 * hi) by (bit_vector)
        requires
            lo < 0x1_0000_0000,
            hi < 0x1_0000_0000,
    ;
    lo | (hi << 32)
}

/// Reads the entry point and the loadable segments of the image `d`. `None`
/// when `d` is no image that can be loaded.
pub fn parse_elf(d: &[u8]) -> (r: Option<ElfImage>)
    ensures
        r is Some <==> image_ok(d@),
        r matches Some(image) ==> {
            &&& image.entry == le64(d@, 24)
            &&& image.segments@ == segments_upto(d@, ph_count(d@))
            &&& forall|j: int|
                0 <= j < image.segments@.len() ==> segment_ok(#[trigger] image.segments@[j], d@.len() as int)
        },
{
    let len: usize = d.len();
    if len < EHDR_SIZE {
        return None;
    }
    if d[0] != 0x7f || d[1] != 0x45 || d[2] != 0x4c || d[3] != 0x46 || d[4] != 2 || d[5] != 1 {
        return None;
    }
    if read_u16(d, 54) != 56 {
        return None;
    }
    let phoff: u64 = read_u64(d, 32);
    let phnum: u16 = read_u16(d, 56);
    if phoff > len as u64 || (phnum as u64) * 56 > len as u64 - phoff {
        return None;
    }
    let entry: u64 = read_u64(d, 24);
    let mut segments: Vec<Segment> = Vec::new();
    let mut k: u16 = 0;
    while k < phnum
        invariant
            k <= phnum,
            len == d@.len(),
            header_ok(d@),
            phoff == le64(d@, 32),
            phnum == ph_count(d@),
            phoff + 56 * phnum <= len,
            segments@ == segments_upto(d@, k as int),
            forall|j: int|
                0 <= j < k && ph_loadable(d@, j) ==> segment_ok(#[trigger] ph_segment(d@, j), len as int),
            forall|j: int| 0 <= j < segments@.len() ==> segment_ok(#[trigger] segments@[j], len as int),
        decreases phnum - k,
    {
        let at: usize = (phoff + 56 * (k as u64)) as usize;
        let kind: u32 = read_u32(d, at);
        if kind == PT_LOAD {
            let seg = Segment {
                vaddr: read_u64(d, at + 16),
                mem_size: read_u64(d, at + 40),
                offset: read_u64(d, at + 8),
                file_size: read_u64(d, at + 32),
                flags: read_u32(d, at + 4),
            };
            assert(seg == ph_segment(d@, k as int));
            if seg.offset > len as u64 || seg.file_size > len as u64 - seg.offset || seg.file_size
                > seg.mem_size {
                assert(!segment_ok(ph_segment(d@, k as int), len as int));
                return None;
            }
            segments.push(seg);
        }
        k = k + 1;
    }
    Some(ElfImage { entry, segments })
}

} // verus!
