//! ELF executable parsing: the file header, the program headers and the
//! loadable segments of a 64-bit little-endian ELF image.
use vstd::prelude::*;

use crate::bytes::{le16, le32, le64, read_u16, read_u32, read_u64};

verus! {

/// Error raised on a buffer that is not an ELF file.
#[derive(Debug)]
pub struct ElfError {
    pub msg: String,
}

/// ELF parser.
pub struct ElfParser {}

/// The ELF file header, as it lies at the start of the file.
#[derive(Clone, Copy, Debug)]
pub struct ElfHeader {
    pub magic: u32,
    pub bitsize: u8,
    pub endian: u8,
    pub ident_abi_version: u8,
    pub target_platform: u8,
    pub abi_version: u8,
    pub padding: [u8; 7],
    pub obj_type: u16,
    pub machine: u16,
    pub version: u32,
    pub entry_addr: u64,
    pub phoff: u64,
    pub shoff: u64,
    pub flags: u32,
    pub ehsize: u16,
    pub phentsize: u16,
    pub phnum: u16,
    pub shentsize: u16,
    pub shnum: u16,
    pub shstrndx: u16,
}

/// An ELF program header.
#[derive(Clone, Copy, Debug)]
pub struct ProgramHeader {
    pub seg_type: u32,
    pub flags: u32,
    pub off: u64,
    pub vaddr: u64,
    pub paddr: u64,
    pub filesz: u64,
    pub memsz: u64,
    pub align: u64,
}

/// A segment to load: where it goes, where its bytes are in the file, how
/// many there are and how much memory it takes, and its page-table flags.
#[derive(Clone, Copy, Debug, PartialEq, Eq, Structural)]
pub struct Segment {
    pub vaddr: u64,
    pub f_offset: u64,
    pub fsize: u64,
    pub msize: u64,
    pub flags: usize,
}

/// The magic number at the start of an ELF file ("\x7fELF").
pub const ELF_MAGIC: u32 = 0x464c457f;

/// Size of the file header.
pub const ELF_HEADER_SIZE: usize = 64;

/// Size of a program header.
pub const PROGRAM_HEADER_SIZE: usize = 56;

/// Program header type of a loadable segment.
pub const PT_LOAD: u32 = 1;

/// Page-table entry bits given to segments.
pub const ENTRY_READ: usize = 2;
pub const ENTRY_WRITE: usize = 4;
pub const ENTRY_EXECUTE: usize = 8;
pub const ENTRY_USER: usize = 16;

/// The file header read from the first bytes of `b`.
pub open spec fn header_of(b: Seq<u8>) -> ElfHeader {
    ElfHeader {
        magic: le32(b, 0) as u32,
        bitsize: b[4],
        endian: b[5],
        ident_abi_version: b[6],
        target_platform: b[7],
        abi_version: b[8],
        padding: [b[9], b[10], b[11], b[12], b[13], b[14], b[15]],
        obj_type: le16(b, 16) as u16,
        machine: le16(b, 18) as u16,
        version: le32(b, 20) as u32,
        entry_addr: le64(b, 24) as u64,
        phoff: le64(b, 32) as u64,
        shoff: le64(b, 40) as u64,
        flags: le32(b, 48) as u32,
        ehsize: le16(b, 52) as u16,
        phentsize: le16(b, 54) as u16,
        phnum: le16(b, 56) as u16,
        shentsize: le16(b, 58) as u16,
        shnum: le16(b, 60) as u16,
        shstrndx: le16(b, 62) as u16,
    }
}

/// The program header read from the bytes of `b` at `o`.
pub open spec fn program_header_of(b: Seq<u8>, o: int) -> ProgramHeader {
    ProgramHeader {
        seg_type: le32(b, o) as u32,
        flags: le32(b, o + 4) as u32,
        off: le64(b, o + 8) as u64,
        vaddr: le64(b, o + 16) as u64,
        paddr: le64(b, o + 24) as u64,
        filesz: le64(b, o + 32) as u64,
        memsz: le64(b, o + 40) as u64,
        align: le64(b, o + 48) as u64,
    }
}

impl ElfHeader {
    /// Read the file header at the start of `b`.
    pub fn parse(b: &[u8]) -> (r: ElfHeader)
        requires
            b.len() >= ELF_HEADER_SIZE,
        ensures
            r == header_of(b@),
    {
        ElfHeader {
            magic: read_u32(b, 0),
            bitsize: b[4],
            endian: b[5],
            ident_abi_version: b[6],
            target_platform: b[7],
            abi_version: b[8],
            padding: [b[9], b[10], b[11], b[12], b[13], b[14], b[15]],
            obj_type: read_u16(b, 16),
            machine: read_u16(b, 18),
            version: read_u32(b, 20),
            entry_addr: read_u64(b, 24),
            phoff: read_u64(b, 32),
            shoff: read_u64(b, 40),
            flags: read_u32(b, 48),
            ehsize: read_u16(b, 52),
            phentsize: read_u16(b, 54),
            phnum: read_u16(b, 56),
            shentsize: read_u16(b, 58),
            shnum: read_u16(b, 60),
            shstrndx: read_u16(b, 62),
        }
    }
}

impl ProgramHeader {
    /// Read the program header at `o` in `b`.
    pub fn parse(b: &[u8], o: usize) -> (r: ProgramHeader)
        requires
            o + PROGRAM_HEADER_SIZE <= b.len(),
        ensures
            r == program_header_of(b@, o as int),
    {
        ProgramHeader {
            seg_type: read_u32(b, o),
            flags: read_u32(b, o + 4),
            off: read_u64(b, o + 8),
            vaddr: read_u64(b, o + 16),
            paddr: read_u64(b, o + 24),
            filesz: read_u64(b, o + 32),
            memsz: read_u64(b, o + 40),
            align: read_u64(b, o + 48),
        }
    }
}

/// The page-table flags of a segment with program header flags `f`: user
/// access, and execute, write and read where bits 0, 1 and 2 of `f` are set
/// (the four bits are distinct, so their sum is their union).
pub open spec fn segment_flags(f: u32) -> usize {
    (ENTRY_USER + (if f & 1 != 0 { ENTRY_EXECUTE } else { 0 }) + (if f & 2 != 0 {
        ENTRY_WRITE
    } else {
        0
    }) + (if f & 4 != 0 { ENTRY_READ } else { 0 })) as usize
}

/// The page-table flags of a segment, bit by bit: the user bit always,
/// the read bit exactly when the program header grants read (bit 2), the
/// write bit exactly when it grants write (bit 1) and the execute bit
/// exactly when it grants execute (bit 0), and no other bit.
pub proof fn lemma_segment_flag_bits(f: u32)
    ensures
        segment_flags(f) < 32,
        segment_flags(f) % 2 == 0,
        (segment_flags(f) / 2) % 2 == 1 <==> f & 4 != 0,
        (segment_flags(f) / 4) % 2 == 1 <==> f & 2 != 0,
        (segment_flags(f) / 8) % 2 == 1 <==> f & 1 != 0,
        (segment_flags(f) / 16) % 2 == 1,
        ENTRY_READ == 2 && ENTRY_WRITE == 4 && ENTRY_EXECUTE == 8 && ENTRY_USER == 16,
{
}

/// The segment that a loadable program header describes.
pub open spec fn segment_of(h: ProgramHeader) -> Segment {
    Segment { vaddr: h.vaddr, f_offset: h.off, fsize: h.filesz, msize: h.memsz, flags: segment_flags(h.flags) }
}

/// The segments of the loadable headers among the first `n` program
/// headers from `phoff` on, in order.
pub open spec fn load_segments(b: Seq<u8>, phoff: int, n: int) -> Seq<Segment>
    decreases n,
{
    if n <= 0 {
        Seq::empty()
    } else {
        let r = load_segments(b, phoff, n - 1);
        let h = program_header_of(b, phoff + (n - 1) * PROGRAM_HEADER_SIZE);
        if h.seg_type == PT_LOAD {
            r.push(segment_of(h))
        } else {
            r
        }
    }
}

/// The ELF64 layout: the program headers are 56 bytes apart from `phoff`
/// on; a header's type is the word at its start and its flags the word
/// after, then its offset, virtual address, physical address, file size,
/// memory size and alignment, each eight bytes; the loadable segments are
/// those of the headers of type 1, in order, with the header's offset,
/// sizes and address.
pub proof fn lemma_segment_layout(b: Seq<u8>, phoff: int, n: int)
    requires
        n >= 0,
    ensures
        ({
            let o = phoff + n * 56;
            let h = program_header_of(b, o);
            &&& h.seg_type == le32(b, o) as u32
            &&& h.flags == le32(b, o + 4) as u32
            &&& h.off == le64(b, o + 8) as u64
            &&& h.vaddr == le64(b, o + 16) as u64
            &&& h.paddr == le64(b, o + 24) as u64
            &&& h.filesz == le64(b, o + 32) as u64
            &&& h.memsz == le64(b, o + 40) as u64
            &&& h.align == le64(b, o + 48) as u64
            &&& load_segments(b, phoff, n + 1) == if le32(b, o) as u32 == 1 {
                load_segments(b, phoff, n).push(
                    Segment {
                        vaddr: le64(b, o + 16) as u64,
                        f_offset: le64(b, o + 8) as u64,
                        fsize: le64(b, o + 32) as u64,
                        msize: le64(b, o + 40) as u64,
                        flags: segment_flags(le32(b, o + 4) as u32),
                    },
                )
            } else {
                load_segments(b, phoff, n)
            }
        }),
        load_segments(b, phoff, 0) == Seq::<Segment>::empty(),
{
}

/// The file header: the magic number at the start, the entry point at byte
/// 24, the program header offset at byte 32 and the number of program
/// headers at byte 56.
pub proof fn lemma_header_layout(b: Seq<u8>)
    ensures
        header_of(b).magic == le32(b, 0) as u32,
        header_of(b).entry_addr == le64(b, 24) as u64,
        header_of(b).phoff == le64(b, 32) as u64,
        header_of(b).phnum == le16(b, 56) as u16,
        ELF_MAGIC == 0x464c457f,
        PT_LOAD == 1,
        PROGRAM_HEADER_SIZE == 56,
{
}

/// The page-table flags for program header flags `f`.
fn flags_for(f: u32) -> (r: usize)
    ensures
        r == segment_flags(f),
{
    let mut flags = ENTRY_USER;
    if f & 1 != 0 {
        flags = flags + ENTRY_EXECUTE;
    }
    if f & 2 != 0 {
        flags = flags + ENTRY_WRITE;
    }
    if f & 4 != 0 {
        flags = flags + ENTRY_READ;
    }
    flags
}

/// What loading an ELF file yields: its entry point and the segments to
/// map.
#[derive(Debug)]
pub struct ElfImage {
    pub entry: u64,
    pub segments: Vec<Segment>,
}

/// Parse an ELF file: check the magic number, then collect a segment for
/// each loadable program header.
///
/// # Errors
/// Returns an error where the buffer does not start with the ELF magic
/// number.
pub fn load_elf(buffer: &[u8]) -> (r: Result<ElfImage, ElfError>)
    requires
        buffer.len() >= ELF_HEADER_SIZE,
        le32(buffer@, 0) == ELF_MAGIC ==> le64(buffer@, 32) + le16(buffer@, 56) * PROGRAM_HEADER_SIZE
            <= buffer.len(),
    ensures
        match r {
            Ok(image) => {
                &&& le32(buffer@, 0) == ELF_MAGIC
                &&& image.entry == le64(buffer@, 24)
                &&& image.segments@ == load_segments(buffer@, le64(buffer@, 32), le16(buffer@, 56))
            },
            Err(e) => le32(buffer@, 0) != ELF_MAGIC && e.msg@ == "File is not an Elf File"@,
        },
{
    let header = ElfHeader::parse(buffer);

    if header.magic != ELF_MAGIC {
        return Err(ElfError { msg: String::from_str("File is not an Elf File") });
    }

    assert(header.phoff <= buffer.len());
    let phoff = header.phoff as usize;
    let phnum = header.phnum as usize;
    let mut segments: Vec<Segment> = Vec::new();

    let mut i: usize = 0;
    while i < phnum
        invariant
            i <= phnum,
            phoff == le64(buffer@, 32),
            phnum == le16(buffer@, 56),
            phoff + phnum * PROGRAM_HEADER_SIZE <= buffer.len(),
            segments@ == load_segments(buffer@, phoff as int, i as int),
        decreases phnum - i,
    {
        let ghost g = i as int;
        assert(phoff + i * PROGRAM_HEADER_SIZE + PROGRAM_HEADER_SIZE <= buffer@.len()) by (nonlinear_arith)
            requires
                phoff + phnum * PROGRAM_HEADER_SIZE <= buffer.len(),
                i < phnum,
        ;
        let phead = ProgramHeader::parse(buffer, phoff + i * PROGRAM_HEADER_SIZE);
        i = i + 1;

        if phead.seg_type != PT_LOAD {
            // Skip any non load program headers
            continue;
        }

        let flags = flags_for(phead.flags);
        segments.push(
            Segment { vaddr: phead.vaddr, flags, msize: phead.memsz, fsize: phead.filesz, f_offset: phead.off },
        );
    }

    Ok(ElfImage { entry: header.entry_addr, segments })
}

/// Where the stack of a process made from an ELF file starts.
pub const STACK_BASE: u64 = 0x2000_0000;

/// The number of pages of that stack.
pub const STACK_PAGES: u64 = 4;

/// Size of a page.
pub const PAGE_BYTES: u64 = 4096;

/// The page-table flags a segment's first page is mapped with: user
/// readable, writable and executable.
pub const SEGMENT_MAP_FLAGS: usize = 30;

/// The page-table flags the stack pages are mapped with: user readable and
/// writable.
pub const STACK_MAP_FLAGS: usize = 22;

/// How one segment is loaded: the pages to allocate for it, where in the
/// first page its file bytes start, those bytes, and the mapping of the 4
/// KiB page of its virtual address to the first page allocated, with the
/// flags `map_flags`.
#[derive(Debug)]
pub struct SegmentLoad {
    pub vaddr: u64,
    pub pages: u64,
    pub page_offset: u64,
    pub data: Vec<u8>,
    pub map_flags: usize,
}

/// How a process is made from an ELF file: its segments, its stack pages
/// mapped one 4 KiB page at a time from `stack_base` on with the flags
/// `stack_flags`, and its entry point.
#[derive(Debug)]
pub struct LoadPlan {
    pub segments: Vec<SegmentLoad>,
    pub stack_base: u64,
    pub stack_pages: u64,
    pub stack_flags: usize,
    pub entry: u64,
}

/// A segment can be loaded from a file of `len` bytes: its bytes lie in
/// the file and the count of its pages can be worked out.
pub open spec fn segment_loadable(s: Segment, len: int) -> bool {
    &&& s.f_offset + s.fsize <= len
    &&& s.msize + PAGE_BYTES - 1 <= u64::MAX
}

/// The load of segment `s` of the file `b`.
pub open spec fn segment_load_matches(r: SegmentLoad, s: Segment, b: Seq<u8>) -> bool {
    &&& r.vaddr == s.vaddr
    &&& r.pages == (s.msize + PAGE_BYTES - 1) / (PAGE_BYTES as int)
    &&& r.page_offset == s.f_offset % PAGE_BYTES
    &&& r.data@ == b.subrange(s.f_offset as int, s.f_offset + s.fsize)
    &&& r.map_flags == ENTRY_USER + ENTRY_READ + ENTRY_WRITE + ENTRY_EXECUTE
}

/// The pages allocated for a segment are the fewest that hold its memory
/// size.
pub proof fn lemma_segment_pages(msize: u64)
    requires
        msize + PAGE_BYTES - 1 <= u64::MAX,
    ensures
        ({
            let pages = (msize + PAGE_BYTES - 1) / (PAGE_BYTES as int);
            &&& pages * 4096 >= msize
            &&& msize > 0 ==> (pages - 1) * 4096 < msize
            &&& msize == 0 ==> pages == 0
        }),
{
}

/// Work out how segment `s` of the file `buffer` is loaded.
pub fn plan_segment(buffer: &[u8], s: &Segment) -> (r: SegmentLoad)
    requires
        segment_loadable(*s, buffer.len() as int),
    ensures
        segment_load_matches(r, *s, buffer@),
{
    let pages = (s.msize + (PAGE_BYTES - 1)) / PAGE_BYTES;
    let off = s.f_offset;
    let poff = off & (PAGE_BYTES - 1);
    assert(off & 4095u64 == off % 4096) by (bit_vector);
    let start = s.f_offset as usize;
    let count = s.fsize as usize;
    let mut data: Vec<u8> = Vec::new();
    let mut i: usize = 0;
    while i < count
        invariant
            start + count <= buffer.len(),
            start == s.f_offset,
            count == s.fsize,
            i <= count,
            data@ == buffer@.subrange(start as int, start + i),
        decreases count - i,
    {
        data.push(buffer[start + i]);
        i = i + 1;
        assert(data@ =~= buffer@.subrange(start as int, start + i));
    }
    SegmentLoad { vaddr: s.vaddr, pages, page_offset: poff, data, map_flags: SEGMENT_MAP_FLAGS }
}

/// Work out how the process of the ELF image `image`, read from `buffer`,
/// is made: each segment's load, in order, a stack of four pages at
/// `STACK_BASE`, and the image's entry point.
pub fn plan_load(buffer: &[u8], image: &ElfImage) -> (r: LoadPlan)
    requires
        forall|k: int| 0 <= k < image.segments@.len() ==> segment_loadable(#[trigger] image.segments@[k], buffer.len() as int),
    ensures
        r.segments@.len() == image.segments@.len(),
        forall|k: int|
            0 <= k < image.segments@.len() ==> segment_load_matches(#[trigger] r.segments@[k], image.segments@[k], buffer@),
        r.stack_base == STACK_BASE,
        r.stack_pages == STACK_PAGES,
        r.stack_flags == ENTRY_USER + ENTRY_READ + ENTRY_WRITE,
        r.entry == image.entry,
{
    let mut segments: Vec<SegmentLoad> = Vec::new();
    let mut k: usize = 0;
    while k < image.segments.len()
        invariant
            k <= image.segments@.len(),
            forall|j: int| 0 <= j < image.segments@.len() ==> segment_loadable(#[trigger] image.segments@[j], buffer.len() as int),
            segments@.len() == k,
            forall|j: int| 0 <= j < k ==> segment_load_matches(#[trigger] segments@[j], image.segments@[j], buffer@),
        decreases image.segments@.len() - k,
    {
        let load = plan_segment(buffer, &image.segments[k]);
        segments.push(load);
        k = k + 1;
    }
    LoadPlan {
        segments,
        stack_base: STACK_BASE,
        stack_pages: STACK_PAGES,
        stack_flags: STACK_MAP_FLAGS,
        entry: image.entry,
    }
}

} // verus!
