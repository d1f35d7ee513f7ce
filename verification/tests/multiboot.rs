use lilith::multiboot::{mmap_entries, MultibootInfoRaw, MultibootMmapEntry, MultibootMmapIter};

fn entry(size: u32, addr: u64, len: u64, ty: u32) -> Vec<u8> {
    let mut v = Vec::new();
    v.extend_from_slice(&size.to_le_bytes());
    v.extend_from_slice(&addr.to_le_bytes());
    v.extend_from_slice(&len.to_le_bytes());
    v.extend_from_slice(&ty.to_le_bytes());
    v
}

#[test]
fn usable_memory_is_type_one() {
    let e = MultibootMmapEntry { entry_size: 20, addr: 0, len: 0x9fc00, mem_type: 1 };
    assert!(e.is_usable());
    let r = MultibootMmapEntry { entry_size: 20, addr: 0x9fc00, len: 0x400, mem_type: 2 };
    assert!(!r.is_usable());
}

#[test]
fn memory_map_entries_are_read_in_order() {
    let mut bytes = entry(20, 0, 0x9fc00, 1);
    bytes.extend(entry(20, 0x100000, 0x7ee0000, 1));
    bytes.extend(entry(20, 0xfffc0000, 0x40000, 2));
    let entries = mmap_entries(&bytes);
    assert_eq!(entries.len(), 3);
    assert_eq!((entries[0].addr, entries[0].len, entries[0].mem_type), (0, 0x9fc00, 1));
    assert_eq!((entries[1].addr, entries[1].len), (0x100000, 0x7ee0000));
    assert_eq!((entries[2].addr, entries[2].mem_type), (0xfffc0000, 2));
}

#[test]
fn entries_larger_than_their_fields_are_skipped_over() {
    // an entry whose size says 28 bytes follow: 8 bytes of padding after its fields
    let mut bytes = entry(28, 0x1000, 0x2000, 1);
    bytes.extend_from_slice(&[0xaa; 8]);
    bytes.extend(entry(20, 0x5000, 0x1000, 3));
    let entries = mmap_entries(&bytes);
    assert_eq!(entries.len(), 2);
    assert_eq!(entries[0].entry_size, 28);
    assert_eq!(entries[1].addr, 0x5000);
    assert_eq!(entries[1].mem_type, 3);
}

#[test]
fn empty_memory_map() {
    assert!(mmap_entries(&[]).is_empty());
}

#[test]
fn memory_map_range() {
    let info = MultibootInfoRaw {
        flags: 1 << 6,
        mem_lower: 0,
        mem_upper: 0,
        boot_device: 0,
        cmdline: 0,
        mods_count: 0,
        mods_addr: 0,
        syms: [0; 4],
        mmap_length: 72,
        mmap_addr: 0x9000,
        drives_length: 0,
        drives_addr: 0,
        config_table: 0,
        boot_loader_name: 0,
        apm_table: 0,
        vbe_control_info: 0,
        vbe_mode_info: 0,
        vbe_mode: 0,
        vbe_interface_seg: 0,
        vbe_interface_off: 0,
        vbe_interface_len: 0,
        framebuffer_addr: 0,
        framebuffer_pitch: 0,
        framebuffer_width: 0,
        framebuffer_height: 0,
        framebuffer_bpp: 0,
        framebuffer_type: 0,
        color_info: [0; 6],
    };
    assert_eq!(info.mmap_range(), (0x9000, 0x9048));
}

#[test]
fn memory_map_iterator_yields_each_entry_once() {
    let mut bytes = entry(28, 0x1000, 0x2000, 1);
    bytes.extend_from_slice(&[0xaa; 8]);
    bytes.extend(entry(20, 0x5000, 0x1000, 3));
    let mut it = MultibootMmapIter::new(&bytes);
    let first = it.next().unwrap();
    assert_eq!((first.entry_size, first.addr, first.len, first.mem_type), (28, 0x1000, 0x2000, 1));
    let second = it.next().unwrap();
    assert_eq!((second.addr, second.mem_type), (0x5000, 3));
    assert!(it.next().is_none());
    assert!(it.next().is_none());
    assert!(MultibootMmapIter::new(&[]).next().is_none());
}
