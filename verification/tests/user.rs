use lilith::address_space::{Mapping, PageBacking, UserAddressSpace, USER_PAGE_FLAGS};
use lilith::memory::PHYSICAL_MEMORY_OFFSET;
use lilith::user::{load_elf, try_load_elf, ElfSegment, USER_STACK_BOTTOM, USER_STACK_SIZE};

/// A program header of a 64-bit image: type, offset, address, file size, memory size.
type Ph = (u32, u64, u64, u64, u64);

/// A 64-bit little-endian executable with entry point `entry` and program headers `phs` at
/// `ph_offset`, padded to `len` bytes.
fn elf64(entry: u64, ph_offset: u64, phs: &[Ph], len: usize) -> Vec<u8> {
    let mut d = vec![0u8; len];
    d[0..4].copy_from_slice(&[0x7f, b'E', b'L', b'F']);
    d[4] = 2; // 64-bit
    d[5] = 1; // little-endian
    d[6] = 1; // version
    d[16..18].copy_from_slice(&2u16.to_le_bytes()); // executable
    d[18..20].copy_from_slice(&0x3eu16.to_le_bytes()); // x86-64
    d[20..24].copy_from_slice(&1u32.to_le_bytes());
    d[24..32].copy_from_slice(&entry.to_le_bytes());
    d[32..40].copy_from_slice(&ph_offset.to_le_bytes());
    d[52..54].copy_from_slice(&64u16.to_le_bytes());
    d[54..56].copy_from_slice(&56u16.to_le_bytes());
    d[56..58].copy_from_slice(&(phs.len() as u16).to_le_bytes());
    for (k, &(ty, offset, vaddr, file_size, mem_size)) in phs.iter().enumerate() {
        let p = ph_offset as usize + 56 * k;
        d[p..p + 4].copy_from_slice(&ty.to_le_bytes());
        d[p + 8..p + 16].copy_from_slice(&offset.to_le_bytes());
        d[p + 16..p + 24].copy_from_slice(&vaddr.to_le_bytes());
        d[p + 24..p + 32].copy_from_slice(&vaddr.to_le_bytes());
        d[p + 32..p + 40].copy_from_slice(&file_size.to_le_bytes());
        d[p + 40..p + 48].copy_from_slice(&mem_size.to_le_bytes());
        d[p + 48..p + 56].copy_from_slice(&0x1000u64.to_le_bytes());
    }
    d
}

fn space() -> UserAddressSpace {
    UserAddressSpace::from_page_table(PHYSICAL_MEMORY_OFFSET)
}

const LOAD: u32 = 1;
const NOTE: u32 = 4;

#[test]
fn loadable_segments_and_the_stack_are_mapped() {
    let d = elf64(0x40_1000, 64, &[(LOAD, 0x100, 0x40_0000, 0x20, 0x2000), (NOTE, 0x120, 0, 8, 8), (LOAD, 0x140, 0x60_0000, 0, 0x1000)], 0x200);
    let mut a = space();
    let (segs, entry) = load_elf(&mut a, &d);
    assert_eq!(entry, 0x40_1000);
    assert_eq!(
        segs,
        vec![
            ElfSegment { vaddr: 0x40_0000, mem_size: 0x2000, offset: 0x100, file_size: 0x20 },
            ElfSegment { vaddr: 0x60_0000, mem_size: 0x1000, offset: 0x140, file_size: 0 },
        ]
    );
    assert_eq!(
        a.mappings(),
        &vec![
            Mapping { addr: 0x40_0000, size: 0x2000 },
            Mapping { addr: 0x60_0000, size: 0x1000 },
            Mapping { addr: USER_STACK_BOTTOM, size: USER_STACK_SIZE },
        ]
    );
    assert_eq!(a.fault_page(0x40_1234), Some(PageBacking { page: 0x40_1000, flags: USER_PAGE_FLAGS }));
    assert_eq!(a.fault_page(0x50_0000), None);
}

#[test]
fn try_load_elf_agrees_with_load_elf() {
    let d = elf64(0x40_0000, 64, &[(LOAD, 0x100, 0x40_0000, 0x10, 0x10)], 0x200);
    let mut a = space();
    let (segs, entry) = try_load_elf(&mut a, &d).unwrap();
    assert_eq!(entry, 0x40_0000);
    assert_eq!(segs.len(), 1);
    assert_eq!(a.mappings().len(), 2);
}

#[test]
fn an_image_without_a_program_table_maps_only_the_stack() {
    let d = elf64(0x1234, 0, &[], 0x100);
    let mut a = space();
    let (segs, entry) = try_load_elf(&mut a, &d).unwrap();
    assert!(segs.is_empty());
    assert_eq!(entry, 0x1234);
    assert_eq!(a.mappings(), &vec![Mapping { addr: USER_STACK_BOTTOM, size: USER_STACK_SIZE }]);
}

#[test]
fn images_that_would_not_load_are_refused_and_change_nothing() {
    let good = elf64(0x40_0000, 64, &[(LOAD, 0x100, 0x40_0000, 0x10, 0x10)], 0x200);
    let mut bad_magic = good.clone();
    bad_magic[1] = b'X';
    let non_canonical = elf64(0, 64, &[(LOAD, 0x100, 0x0000_9000_0000_0000, 0x10, 0x10)], 0x200);
    let outside = elf64(0, 64, &[(LOAD, 0x1f0, 0x40_0000, 0x20, 0x20)], 0x200);
    let bad_type = elf64(0, 64, &[(0x1234_5678, 0x100, 0x40_0000, 0x10, 0x10)], 0x200);
    let table_outside = elf64(0, 64, &[(LOAD, 0x100, 0x40_0000, 0x10, 0x10)], 0x200)[..100].to_vec();
    for d in [bad_magic, non_canonical, outside, bad_type, table_outside] {
        let mut a = space();
        a.add_mapping(0x1000, 0x1000);
        assert!(try_load_elf(&mut a, &d).is_none());
        assert_eq!(a.mappings(), &vec![Mapping { addr: 0x1000, size: 0x1000 }]);
    }
}

#[test]
fn an_image_at_any_address_loads_the_same() {
    let d = elf64(0x40_1000, 64, &[(LOAD, 0x100, 0x40_0000, 0x20, 0x2000)], 0x200);
    for shift in 0..8 {
        // the image starts `shift` bytes into a buffer, whatever that buffer's alignment
        let mut buf = vec![0u8; shift];
        buf.extend_from_slice(&d);
        let mut a = space();
        let (segs, entry) = load_elf(&mut a, &buf[shift..]);
        assert_eq!(entry, 0x40_1000);
        assert_eq!(segs, vec![ElfSegment { vaddr: 0x40_0000, mem_size: 0x2000, offset: 0x100, file_size: 0x20 }]);
        let mut b = space();
        assert_eq!(try_load_elf(&mut b, &buf[shift..]), Some((segs, entry)));
    }
}

#[test]
fn a_32_bit_image_loads_from_its_narrower_fields() {
    let mut d = vec![0u8; 0x100];
    d[0..4].copy_from_slice(&[0x7f, b'E', b'L', b'F']);
    d[4] = 1; // 32-bit
    d[5] = 1;
    d[6] = 1;
    d[24..28].copy_from_slice(&0x8000u32.to_le_bytes()); // entry
    d[28..32].copy_from_slice(&52u32.to_le_bytes()); // program header table
    d[42..44].copy_from_slice(&32u16.to_le_bytes());
    d[44..46].copy_from_slice(&1u16.to_le_bytes());
    let p = 52;
    d[p..p + 4].copy_from_slice(&1u32.to_le_bytes()); // loadable
    d[p + 4..p + 8].copy_from_slice(&0x80u32.to_le_bytes()); // offset
    d[p + 8..p + 12].copy_from_slice(&0x7000u32.to_le_bytes()); // address
    d[p + 16..p + 20].copy_from_slice(&0x10u32.to_le_bytes()); // file size
    d[p + 20..p + 24].copy_from_slice(&0x1000u32.to_le_bytes()); // memory size
    let mut a = space();
    let (segs, entry) = load_elf(&mut a, &d);
    assert_eq!(entry, 0x8000);
    assert_eq!(segs, vec![ElfSegment { vaddr: 0x7000, mem_size: 0x1000, offset: 0x80, file_size: 0x10 }]);
}
