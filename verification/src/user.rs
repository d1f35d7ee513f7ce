use vstd::prelude::*;

use crate::address_space::{canonical, Mapping, UserAddressSpace};
use xmas_elf::program::Type;

verus! {

/// The lowest address of a user process's stack.
pub const USER_STACK_BOTTOM: u64 = 0x0000_7FFF_0000_0000;

/// The size of a user process's stack, in bytes.
pub const USER_STACK_SIZE: usize = 1048576;

#[verifier::external_type_specification]
#[verifier::external_body]
pub struct ExElfFile<'a>(xmas_elf::ElfFile<'a>);

#[verifier::external_type_specification]
#[verifier::external_body]
pub struct ExProgramHeader<'a>(xmas_elf::program::ProgramHeader<'a>);

// `xmas_elf` reads the fields of an image in place, in the machine's byte order; this kernel
// runs on x86-64, whose order is little-endian, and the fields are stated in that order.

/// The `n`-byte little-endian number at offset `o` of `d`.
pub open spec fn le(d: Seq<u8>, o: int, n: nat) -> int
    decreases n,
{
    if n == 0 {
        0
    } else {
        d[o] + 256 * le(d, o + 1, (n - 1) as nat)
    }
}

/// `xmas_elf::ElfFile::new` accepts the image `data`: it holds the magic number `7f 'E' 'L'
/// 'F'`, a class byte of 1 (32-bit) or 2 (64-bit), and the whole header of that class, 52 or
/// 64 bytes.
pub open spec fn elf_parses(data: Seq<u8>) -> bool {
    &&& data.len() >= 16
    &&& data[0] == 0x7f && data[1] == 0x45 && data[2] == 0x4c && data[3] == 0x46
    &&& data[4] == 1 || data[4] == 2
    &&& data.len() >= if data[4] == 2 { 64int } else { 52int }
}

/// The image `data` is a 64-bit one (else a 32-bit one): its class byte is 2.
pub open spec fn elf_is_64(data: Seq<u8>) -> bool {
    data[4] == 2
}

/// The entry point that the header of the image `data` gives.
pub open spec fn elf_entry(data: Seq<u8>) -> u64 {
    if elf_is_64(data) {
        le(data, 24, 8) as u64
    } else {
        le(data, 24, 4) as u64
    }
}

/// The offset of the program header table that the header of the image `data` gives.
pub open spec fn elf_ph_offset(data: Seq<u8>) -> u64 {
    if elf_is_64(data) {
        le(data, 32, 8) as u64
    } else {
        le(data, 28, 4) as u64
    }
}

/// The size of a program header table entry that the header of the image `data` gives.
pub open spec fn elf_ph_entry_size(data: Seq<u8>) -> u16 {
    (if elf_is_64(data) { le(data, 54, 2) } else { le(data, 42, 2) }) as u16
}

/// The number of program headers that the header of the image `data` gives.
pub open spec fn elf_ph_count(data: Seq<u8>) -> u16 {
    (if elf_is_64(data) { le(data, 56, 2) } else { le(data, 44, 2) }) as u16
}

/// Where program header `i` of the image `data` starts.
pub open spec fn ph_start(data: Seq<u8>, i: u16) -> int {
    elf_ph_offset(data) + i * elf_ph_entry_size(data)
}

/// The program header type that the number `t` stands for, `None` for a number that
/// `xmas_elf` rejects.
pub open spec fn segment_type_of(t: u32) -> Option<SegmentType> {
    if t == 0 {
        Some(SegmentType::Null)
    } else if t == 1 {
        Some(SegmentType::Load)
    } else if t == 2 {
        Some(SegmentType::Dynamic)
    } else if t == 3 {
        Some(SegmentType::Interp)
    } else if t == 4 {
        Some(SegmentType::Note)
    } else if t == 5 {
        Some(SegmentType::ShLib)
    } else if t == 6 {
        Some(SegmentType::Phdr)
    } else if t == 7 {
        Some(SegmentType::Tls)
    } else if t == 0x6474e552 {
        Some(SegmentType::GnuRelro)
    } else if 0x6000_0000 <= t <= 0x6fff_ffff {
        Some(SegmentType::OsSpecific(t))
    } else if 0x7000_0000 <= t <= 0x7fff_ffff {
        Some(SegmentType::ProcessorSpecific(t))
    } else {
        None
    }
}

/// The type of program header `i` of the image `data`, `None` for a type `xmas_elf` rejects.
pub open spec fn elf_ph_type(data: Seq<u8>, i: u16) -> Option<SegmentType> {
    segment_type_of(le(data, ph_start(data, i), 4) as u32)
}

/// The virtual address of segment `i` of the image `data`.
pub open spec fn elf_ph_vaddr(data: Seq<u8>, i: u16) -> u64 {
    if elf_is_64(data) {
        le(data, ph_start(data, i) + 16, 8) as u64
    } else {
        le(data, ph_start(data, i) + 8, 4) as u64
    }
}

/// The size in memory of segment `i` of the image `data`.
pub open spec fn elf_ph_mem_size(data: Seq<u8>, i: u16) -> u64 {
    if elf_is_64(data) {
        le(data, ph_start(data, i) + 40, 8) as u64
    } else {
        le(data, ph_start(data, i) + 20, 4) as u64
    }
}

/// The file offset of the contents of segment `i` of the image `data`.
pub open spec fn elf_ph_file_offset(data: Seq<u8>, i: u16) -> u64 {
    if elf_is_64(data) {
        le(data, ph_start(data, i) + 8, 8) as u64
    } else {
        le(data, ph_start(data, i) + 4, 4) as u64
    }
}

/// The size in the file of the contents of segment `i` of the image `data`.
pub open spec fn elf_ph_file_size(data: Seq<u8>, i: u16) -> u64 {
    if elf_is_64(data) {
        le(data, ph_start(data, i) + 32, 8) as u64
    } else {
        le(data, ph_start(data, i) + 16, 4) as u64
    }
}

/// The type of a program header, as `xmas_elf::program::Type` gives it.
#[derive(Clone, Copy, Debug, PartialEq, Eq, Structural)]
pub enum SegmentType {
    Null,
    Load,
    Dynamic,
    Interp,
    Note,
    ShLib,
    Phdr,
    Tls,
    GnuRelro,
    OsSpecific(u32),
    ProcessorSpecific(u32),
}

/// A copy of an image's bytes in a buffer of its own, where they start on an 8-byte boundary:
/// `xmas_elf` reads the headers in place and asserts that they are aligned. Only
/// `aligned_copy` makes one, and its buffer is never changed afterwards.
pub struct AlignedBytes {
    buf: Vec<u8>,
    start: usize,
    end: usize,
}

impl AlignedBytes {
    /// The bytes held.
    pub closed spec fn bytes(&self) -> Seq<u8> {
        self.buf@.subrange(self.start as int, self.end as int)
    }
}

/// Copies `data` into a buffer 7 bytes longer than it, at the first position of the buffer
/// whose address (`pointer::addr`) is a multiple of 8. The buffer is allocated by `vec!`,
/// which refuses more than `isize::MAX` bytes.
#[verifier::external_body]
fn aligned_copy(data: &[u8]) -> (r: AlignedBytes)
    requires
        data@.len() + 7 <= isize::MAX,
    ensures
        r.bytes() == data@,
{
    let mut buf = vec![0u8; data.len() + 7];
    let start = buf.as_ptr().addr().wrapping_neg() % 8;
    let end = start + data.len();
    buf[start..end].copy_from_slice(data);
    AlignedBytes { buf, start, end }
}

/// An ELF image that `xmas_elf` parsed, with the bytes it was parsed from. Only `elf_parse`
/// makes one, so `file` is always the parse of `data`.
pub struct ElfImage<'a> {
    file: xmas_elf::ElfFile<'a>,
    data: &'a [u8],
}

impl<'a> ElfImage<'a> {
    /// The bytes the image was parsed from.
    pub closed spec fn bytes(&self) -> Seq<u8> {
        self.data@
    }
}

/// Program header `index` of an ELF image, with the bytes of the image. Only
/// `elf_program_header` makes one, so `header` is always that header of `data`.
pub struct ElfProgramHeader<'a> {
    header: xmas_elf::program::ProgramHeader<'a>,
    data: &'a [u8],
    index: u16,
}

impl<'a> ElfProgramHeader<'a> {
    /// The bytes of the image the header belongs to.
    pub closed spec fn bytes(&self) -> Seq<u8> {
        self.data@
    }

    /// The number of the header in the program header table.
    pub closed spec fn number(&self) -> u16 {
        self.index
    }
}

/// Calls `xmas_elf::ElfFile::new` on the bytes of `copy`, which checks the ELF magic number,
/// the class and that the headers fit; keeps the bytes beside the parse. The bytes start on
/// an 8-byte boundary, as `AlignedBytes` keeps them, so reading the headers in place does not
/// fail its alignment assertion.
#[verifier::external_body]
fn elf_parse<'a>(copy: &'a AlignedBytes) -> (r: Option<ElfImage<'a>>)
    ensures
        r is Some <==> elf_parses(copy.bytes()),
        r matches Some(img) ==> img.bytes() == copy.bytes(),
{
    let data = &copy.buf[copy.start..copy.end];
    match xmas_elf::ElfFile::new(data) {
        Ok(file) => Some(ElfImage { file, data }),
        Err(_) => None,
    }
}

/// Tells the two variants of `xmas_elf::header::HeaderPt2` of the parsed header apart:
/// whether the image is a 64-bit one.
#[verifier::external_body]
fn elf_header_is_64(img: &ElfImage) -> (r: bool)
    ensures
        r == elf_is_64(img.bytes()),
{
    matches!(img.file.header.pt2, xmas_elf::header::HeaderPt2::Header64(_))
}

/// Calls `xmas_elf::header::HeaderPt2::entry_point`.
#[verifier::external_body]
fn elf_entry_point(img: &ElfImage) -> (r: u64)
    ensures
        r == elf_entry(img.bytes()),
{
    img.file.header.pt2.entry_point()
}

/// Calls `xmas_elf::header::HeaderPt2::ph_count`.
#[verifier::external_body]
fn elf_header_ph_count(img: &ElfImage) -> (r: u16)
    ensures
        r == elf_ph_count(img.bytes()),
{
    img.file.header.pt2.ph_count()
}

/// Calls `xmas_elf::header::HeaderPt2::ph_offset`.
#[verifier::external_body]
fn elf_header_ph_offset(img: &ElfImage) -> (r: u64)
    ensures
        r == elf_ph_offset(img.bytes()),
{
    img.file.header.pt2.ph_offset()
}

/// Calls `xmas_elf::header::HeaderPt2::ph_entry_size`.
#[verifier::external_body]
fn elf_header_ph_entry_size(img: &ElfImage) -> (r: u16)
    ensures
        r == elf_ph_entry_size(img.bytes()),
{
    img.file.header.pt2.ph_entry_size()
}

/// The bytes of the program header table that entry `i` of the image `d` takes lie inside
/// `d`, are at least a whole header of the image's class, and start where such a header may
/// be read, as `xmas_elf` asserts when it reads the entry.
pub open spec fn header_readable(d: Seq<u8>, i: int) -> bool {
    let po = elf_ph_offset(d) as int;
    let es = elf_ph_entry_size(d) as int;
    &&& po + (i + 1) * es <= d.len()
    &&& es >= (if elf_is_64(d) { 56int } else { 32int })
    &&& (po + i * es) % (if elf_is_64(d) { 8int } else { 4int }) == 0
}

/// The image `d` has a program header table: its offset and entry size are not zero.
pub open spec fn has_table(d: Seq<u8>) -> bool {
    elf_ph_offset(d) > 0 && elf_ph_entry_size(d) > 0
}

/// Calls `xmas_elf::ElfFile::program_header` for entry `i`: there is none when the table's
/// offset or entry size is zero. Reading the entry slices the image and asserts its size and
/// alignment, which `requires` covers for the offset within the image; the image itself
/// starts on an 8-byte boundary, as every `ElfImage` comes from an `AlignedBytes`.
#[verifier::external_body]
fn elf_program_header<'a>(img: &ElfImage<'a>, i: u16) -> (r: Option<ElfProgramHeader<'a>>)
    requires
        i < elf_ph_count(img.bytes()),
        has_table(img.bytes()) ==> header_readable(img.bytes(), i as int),
    ensures
        r is Some <==> has_table(img.bytes()),
        r matches Some(h) ==> h.bytes() == img.bytes() && h.number() == i,
{
    match img.file.program_header(i) {
        Ok(header) => Some(ElfProgramHeader { header, data: img.data, index: i }),
        Err(_) => None,
    }
}

/// Calls `xmas_elf::program::ProgramHeader::get_type`, taking each variant of
/// `xmas_elf::program::Type` to its namesake; `None` for a type that it rejects.
#[verifier::external_body]
fn ph_type(h: &ElfProgramHeader) -> (r: Option<SegmentType>)
    ensures
        r == elf_ph_type(h.bytes(), h.number()),
{
    match h.header.get_type() {
        Ok(Type::Null) => Some(SegmentType::Null),
        Ok(Type::Load) => Some(SegmentType::Load),
        Ok(Type::Dynamic) => Some(SegmentType::Dynamic),
        Ok(Type::Interp) => Some(SegmentType::Interp),
        Ok(Type::Note) => Some(SegmentType::Note),
        Ok(Type::ShLib) => Some(SegmentType::ShLib),
        Ok(Type::Phdr) => Some(SegmentType::Phdr),
        Ok(Type::Tls) => Some(SegmentType::Tls),
        Ok(Type::GnuRelro) => Some(SegmentType::GnuRelro),
        Ok(Type::OsSpecific(v)) => Some(SegmentType::OsSpecific(v)),
        Ok(Type::ProcessorSpecific(v)) => Some(SegmentType::ProcessorSpecific(v)),
        Err(_) => None,
    }
}

/// Calls `xmas_elf::program::ProgramHeader::virtual_addr`.
#[verifier::external_body]
fn ph_vaddr(h: &ElfProgramHeader) -> (r: u64)
    ensures
        r == elf_ph_vaddr(h.bytes(), h.number()),
{
    h.header.virtual_addr()
}

/// Calls `xmas_elf::program::ProgramHeader::mem_size`.
#[verifier::external_body]
fn ph_mem_size(h: &ElfProgramHeader) -> (r: u64)
    ensures
        r == elf_ph_mem_size(h.bytes(), h.number()),
{
    h.header.mem_size()
}

/// Calls `xmas_elf::program::ProgramHeader::offset`.
#[verifier::external_body]
fn ph_file_offset(h: &ElfProgramHeader) -> (r: u64)
    ensures
        r == elf_ph_file_offset(h.bytes(), h.number()),
{
    h.header.offset()
}

/// Calls `xmas_elf::program::ProgramHeader::file_size`.
#[verifier::external_body]
fn ph_file_size(h: &ElfProgramHeader) -> (r: u64)
    ensures
        r == elf_ph_file_size(h.bytes(), h.number()),
{
    h.header.file_size()
}

/// A loadable segment of an ELF image: where it goes in memory, how large it is there, and
/// where its contents lie in the image.
#[derive(Clone, Copy, Debug, PartialEq, Eq, Structural)]
pub struct ElfSegment {
    pub vaddr: u64,
    pub mem_size: u64,
    pub offset: u64,
    pub file_size: u64,
}

/// The segment that program header `i` of the image `d` describes.
pub open spec fn segment_at(d: Seq<u8>, i: int) -> ElfSegment {
    ElfSegment {
        vaddr: elf_ph_vaddr(d, i as u16),
        mem_size: elf_ph_mem_size(d, i as u16),
        offset: elf_ph_file_offset(d, i as u16),
        file_size: elf_ph_file_size(d, i as u16),
    }
}

/// The loadable segments among the first `n` program headers of the image `d`, in table order.
pub open spec fn load_segments(d: Seq<u8>, n: int) -> Seq<ElfSegment>
    decreases n,
{
    if n <= 0 {
        Seq::empty()
    } else {
        load_segments(d, n - 1) + if elf_ph_type(d, (n - 1) as u16) == Some(SegmentType::Load) {
            seq![segment_at(d, n - 1)]
        } else {
            Seq::empty()
        }
    }
}

/// The loadable segments of the image `d`, in table order.
pub open spec fn elf_segments(d: Seq<u8>) -> Seq<ElfSegment> {
    if has_table(d) {
        load_segments(d, elf_ph_count(d) as int)
    } else {
        Seq::empty()
    }
}

/// Program header `i` of the image `d` can be read, has a type `xmas_elf` knows, and, for a
/// loadable segment, gives a canonical address and contents that lie inside the image.
pub open spec fn segment_ok(d: Seq<u8>, i: int) -> bool {
    &&& header_readable(d, i)
    &&& elf_ph_type(d, i as u16) is Some
    &&& elf_ph_type(d, i as u16) == Some(SegmentType::Load) ==> {
        &&& canonical(elf_ph_vaddr(d, i as u16))
        &&& elf_ph_file_size(d, i as u16) == 0 || elf_ph_file_offset(d, i as u16) + elf_ph_file_size(d, i as u16)
            <= d.len()
    }
}

/// The image `d` parses and every one of its program headers is fine to load.
pub open spec fn elf_loadable(d: Seq<u8>) -> bool {
    &&& elf_parses(d)
    &&& has_table(d) ==> forall|i: int| 0 <= i < elf_ph_count(d) ==> #[trigger] segment_ok(d, i)
}

/// The user range a loadable segment takes.
pub open spec fn segment_mapping(g: ElfSegment) -> Mapping {
    Mapping { addr: g.vaddr, size: g.mem_size as usize }
}

/// The user ranges of the image `d`: its loadable segments in table order, then the stack.
pub open spec fn loaded_mappings(d: Seq<u8>) -> Seq<Mapping> {
    elf_segments(d).map_values(|g: ElfSegment| segment_mapping(g)) + seq![
        Mapping { addr: USER_STACK_BOTTOM, size: USER_STACK_SIZE },
    ]
}

/// Sets up the user ranges of a process for the ELF image `data`: one for each loadable
/// segment, in table order, then the stack. Returns the loadable segments, whose contents the
/// caller copies to their addresses, and the entry point.
pub fn load_elf(space: &mut UserAddressSpace, data: &[u8]) -> (r: (Vec<ElfSegment>, u64))
    requires
        elf_loadable(data@),
        data@.len() + 7 <= isize::MAX,
    ensures
        r.0@ == elf_segments(data@),
        r.1 == elf_entry(data@),
        final(space).page_table_view() == old(space).page_table_view(),
        final(space).mappings_view() == old(space).mappings_view() + loaded_mappings(data@),
{
    let ghost d = data@;
    let ghost m0 = space.mappings_view();
    let mut segs: Vec<ElfSegment> = Vec::new();
    let copy = aligned_copy(data);
    let img = match elf_parse(&copy) {
        Some(img) => img,
        None => {
            return (segs, 0);
        },
    };
    let po = elf_header_ph_offset(&img);
    let es = elf_header_ph_entry_size(&img);
    if po > 0 && es > 0 {
        let count = elf_header_ph_count(&img);
        let mut i: u16 = 0;
        while i < count
            invariant
                img.bytes() == d,
                elf_loadable(d),
                has_table(d),
                count == elf_ph_count(d),
                0 <= i <= count,
                segs@ == load_segments(d, i as int),
                space.page_table_view() == old(space).page_table_view(),
                space.mappings_view() == m0 + load_segments(d, i as int).map_values(|g: ElfSegment| segment_mapping(g)),
            decreases count - i,
        {
            proof {
                assert(segment_ok(d, i as int));
            }
            let h = elf_program_header(&img, i).unwrap();
            let ghost before = load_segments(d, i as int);
            match ph_type(&h) {
                Some(SegmentType::Load) => {
                    let g = ElfSegment {
                        vaddr: ph_vaddr(&h),
                        mem_size: ph_mem_size(&h),
                        offset: ph_file_offset(&h),
                        file_size: ph_file_size(&h),
                    };
                    space.add_mapping(g.vaddr, g.mem_size as usize);
                    segs.push(g);
                    proof {
                        assert(g == segment_at(d, i as int));
                        assert(load_segments(d, i + 1) == before + seq![g]);
                        assert((before + seq![g]).map_values(|g: ElfSegment| segment_mapping(g)) =~= before.map_values(
                            |g: ElfSegment| segment_mapping(g),
                        ).push(segment_mapping(g)));
                    }
                },
                _ => {
                    proof {
                        assert(load_segments(d, i + 1) =~= before);
                    }
                },
            }
            i = i + 1;
        }
        proof {
            assert(elf_segments(d) == load_segments(d, count as int));
        }
    } else {
        proof {
            assert(elf_segments(d) =~= Seq::<ElfSegment>::empty());
            assert(segs@ =~= elf_segments(d));
            assert(m0 =~= m0 + elf_segments(d).map_values(|g: ElfSegment| segment_mapping(g)));
        }
    }
    space.add_mapping(USER_STACK_BOTTOM, USER_STACK_SIZE);
    let entry = elf_entry_point(&img);
    proof {
        assert(space.mappings_view() =~= m0 + loaded_mappings(d));
    }
    (segs, entry)
}

/// Loads the ELF image `data` as `load_elf` does where every program header is fine to load;
/// `None`, with the address space unchanged, where the image does not parse or a header is not
/// (unreadable, of an unknown type, or a loadable segment at a non-canonical address or with
/// contents outside the image).
pub fn try_load_elf(space: &mut UserAddressSpace, data: &[u8]) -> (r: Option<(Vec<ElfSegment>, u64)>)
    ensures
        r is Some <==> elf_loadable(data@) && data@.len() + 7 <= isize::MAX,
        r is None ==> *final(space) == *old(space),
        r matches Some(x) ==> {
            &&& x.0@ == elf_segments(data@)
            &&& x.1 == elf_entry(data@)
            &&& final(space).page_table_view() == old(space).page_table_view()
            &&& final(space).mappings_view() == old(space).mappings_view() + loaded_mappings(data@)
        },
{
    let ghost d = data@;
    if data.len() > isize::MAX as usize - 7 {
        return None;
    }
    let copy = aligned_copy(data);
    let img = match elf_parse(&copy) {
        Some(img) => img,
        None => {
            return None;
        },
    };
    let po = elf_header_ph_offset(&img);
    let es = elf_header_ph_entry_size(&img);
    if po > 0 && es > 0 {
        let is64 = elf_header_is_64(&img);
        let min_size: u64 = if is64 { 56 } else { 32 };
        let align: u64 = if is64 { 8 } else { 4 };
        let count = elf_header_ph_count(&img);
        let len = data.len() as u64;
        let mut i: u16 = 0;
        while i < count
            invariant
                d == data@,
                *space == *old(space),
                img.bytes() == d,
                elf_parses(d),
                has_table(d),
                count == elf_ph_count(d),
                po == elf_ph_offset(d),
                es == elf_ph_entry_size(d),
                min_size == (if elf_is_64(d) { 56int } else { 32int }),
                align == (if elf_is_64(d) { 8int } else { 4int }),
                len == d.len(),
                0 <= i <= count,
                forall|k: int| 0 <= k < i ==> #[trigger] segment_ok(d, k),
            decreases count - i,
        {
            proof {
                assert((es as int) * (i as int) <= 65535 * 65535) by (nonlinear_arith)
                    requires
                        es <= 65535,
                        i <= 65535,
                ;
                assert((i as int + 1) * (es as int) == (es as int) * (i as int) + es as int) by (nonlinear_arith);
                assert((i as int) * (es as int) == (es as int) * (i as int)) by (nonlinear_arith);
            }
            let start: u64 = (es as u64) * (i as u64);
            let span: u64 = start + es as u64;
            let end_ok = match po.checked_add(span) {
                Some(e) => e <= len,
                None => false,
            };
            if !end_ok || (es as u64) < min_size || (po + start) % align != 0 {
                proof {
                    assert(!segment_ok(d, i as int));
                    assert(!elf_loadable(d)) by {
                        if elf_loadable(d) {
                            assert(0 <= i < elf_ph_count(d));
                            assert(segment_ok(d, i as int));
                        }
                    }
                }
                return None;
            }
            proof {
                assert(header_readable(d, i as int));
            }
            let h = elf_program_header(&img, i).unwrap();
            match ph_type(&h) {
                None => {
                    proof {
                        assert(!segment_ok(d, i as int));
                        assert(!elf_loadable(d)) by {
                            if elf_loadable(d) {
                                assert(0 <= i < elf_ph_count(d));
                                assert(segment_ok(d, i as int));
                            }
                        }
                    }
                    return None;
                },
                Some(SegmentType::Load) => {
                    let va = ph_vaddr(&h);
                    if !(va < 0x8000_0000_0000 || va >= 0xFFFF_8000_0000_0000) {
                        proof {
                            assert(!segment_ok(d, i as int));
                            assert(!elf_loadable(d)) by {
                                if elf_loadable(d) {
                                    assert(0 <= i < elf_ph_count(d));
                                    assert(segment_ok(d, i as int));
                                }
                            }
                        }
                        return None;
                    }
                    let fs = ph_file_size(&h);
                    let off = ph_file_offset(&h);
                    if fs != 0 {
                        let inside = match off.checked_add(fs) {
                            Some(e) => e <= len,
                            None => false,
                        };
                        if !inside {
                            proof {
                                assert(!segment_ok(d, i as int));
                                assert(!elf_loadable(d)) by {
                                    if elf_loadable(d) {
                                        assert(0 <= i < elf_ph_count(d));
                                        assert(segment_ok(d, i as int));
                                    }
                                }
                            }
                            return None;
                        }
                    }
                },
                Some(_) => {},
            }
            proof {
                assert(segment_ok(d, i as int));
            }
            i = i + 1;
        }
    }
    Some(load_elf(space, data))
}

} // verus!
