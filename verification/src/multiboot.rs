use vstd::prelude::*;

use crate::ramfs::le_value;

verus! {

/// The symbol table of an a.out kernel image, as the boot loader describes it.
#[derive(Copy, Clone, Debug)]
pub struct MultibootAoutSyms {
    pub tabsize: u32,
    pub strsize: u32,
    pub addr: u32,
    pub reserved: u32,
}

/// The section headers of an ELF kernel image, as the boot loader describes them.
#[derive(Copy, Clone, Debug)]
pub struct MultibootElfSections {
    pub num: u32,
    pub size: u32,
    pub addr: u32,
    pub shndx: u32,
}

/// The palette of an indexed-colour frame buffer.
#[derive(Copy, Clone, Debug)]
pub struct MultibootColorIndexed {
    pub palette_addr: u32,
    pub palette_num_colors: u16,
}

/// The channel layout of a direct-colour frame buffer.
#[derive(Copy, Clone, Debug)]
pub struct MultibootColorRgb {
    pub red_field_position: u8,
    pub red_mask_size: u8,
    pub green_field_position: u8,
    pub green_mask_size: u8,
    pub blue_field_position: u8,
    pub blue_mask_size: u8,
}

/// The information structure the boot loader passes. The two unions of the layout are kept in
/// their raw form: `syms` holds either symbol description, `color_info` either colour one.
#[derive(Copy, Clone, Debug)]
pub struct MultibootInfoRaw {
    pub flags: u32,
    pub mem_lower: u32,
    pub mem_upper: u32,
    pub boot_device: u32,
    pub cmdline: u32,
    pub mods_count: u32,
    pub mods_addr: u32,
    pub syms: [u32; 4],
    pub mmap_length: u32,
    pub mmap_addr: u32,
    pub drives_length: u32,
    pub drives_addr: u32,
    pub config_table: u32,
    pub boot_loader_name: u32,
    pub apm_table: u32,
    pub vbe_control_info: u32,
    pub vbe_mode_info: u32,
    pub vbe_mode: u16,
    pub vbe_interface_seg: u16,
    pub vbe_interface_off: u16,
    pub vbe_interface_len: u16,
    pub framebuffer_addr: u64,
    pub framebuffer_pitch: u32,
    pub framebuffer_width: u32,
    pub framebuffer_height: u32,
    pub framebuffer_bpp: u8,
    pub framebuffer_type: u8,
    pub color_info: [u32; 6],
}

/// A boot module as the boot loader lists it.
#[derive(Clone, Copy, Debug)]
pub struct MultibootModuleRaw {
    pub mod_start: u32,
    pub mod_end: u32,
    pub name: u32,
    pub reserved: u32,
}

/// A boot module: its name and its contents.
pub struct MultibootModule {
    pub name: String,
    pub contents: Vec<u8>,
}

/// The kinds of memory in the boot loader's memory map.
#[derive(Clone, Copy, Debug, PartialEq, Eq, Structural)]
pub enum MultibootMmapType {
    Reserved,
    Available,
    Acpi,
    Hibernation,
    BadRam,
}

/// An entry of the boot loader's memory map.
#[derive(Clone, Copy, Debug)]
pub struct MultibootMmapEntry {
    pub entry_size: u32,
    pub addr: u64,
    pub len: u64,
    pub mem_type: u32,
}

impl MultibootMmapEntry {
    /// Memory free for the kernel: type 1.
    pub fn is_usable(&self) -> (r: bool)
        ensures
            r == (self.mem_type == 1),
    {
        match self.mem_type {
            1 => true,
            _ => false,
        }
    }
}

/// The bytes of a memory-map entry: a size, then the address, length and type of the memory.
pub const MMAP_ENTRY_SIZE: usize = 24;

/// The entry whose bytes start at `off`.
pub open spec fn entry_at(d: Seq<u8>, off: int) -> MultibootMmapEntry {
    MultibootMmapEntry {
        entry_size: le_value(d.subrange(off, off + 4)) as u32,
        addr: le_value(d.subrange(off + 4, off + 12)) as u64,
        len: le_value(d.subrange(off + 12, off + 20)) as u64,
        mem_type: le_value(d.subrange(off + 20, off + 24)) as u32,
    }
}

/// Where the entry after the one at `off` starts: past its size field and `entry_size` bytes.
pub open spec fn next_entry(d: Seq<u8>, off: int) -> int {
    off + 4 + entry_at(d, off).entry_size
}

/// From `off` on, the map is a chain of whole entries that ends exactly at its end.
pub open spec fn chain_ok(d: Seq<u8>, off: int) -> bool
    decreases d.len() - off,
{
    if off < 0 || off > d.len() {
        false
    } else if off == d.len() {
        true
    } else if off + MMAP_ENTRY_SIZE <= d.len() && next_entry(d, off) <= d.len() {
        chain_ok(d, next_entry(d, off))
    } else {
        false
    }
}

/// The entries of the chain from `off` on.
pub open spec fn entries_from(d: Seq<u8>, off: int) -> Seq<MultibootMmapEntry>
    decreases d.len() - off,
{
    if off < 0 || off >= d.len() {
        seq![]
    } else if off + MMAP_ENTRY_SIZE <= d.len() && next_entry(d, off) <= d.len() {
        seq![entry_at(d, off)] + entries_from(d, next_entry(d, off))
    } else {
        seq![]
    }
}

/// Reads the little-endian number in the `n` bytes of `d` from `k` on.
fn read_le(d: &[u8], k: usize, n: usize) -> (r: u64)
    requires
        n <= 8,
        k + n <= d.len(),
    ensures
        r == le_value(d@.subrange(k as int, k + n)),
{
    let mut acc: u64 = 0;
    let mut j: usize = n;
    proof {
        vstd::arithmetic::power2::lemma2_to64();
    }
    while j > 0
        invariant
            n <= 8,
            k + n <= d.len(),
            0 <= j <= n,
            acc == le_value(d@.subrange(k + j, k + n)),
            acc < vstd::arithmetic::power2::pow2((n - j) as nat * 8),
        decreases j,
    {
        j = j - 1;
        let b = d[k + j];
        proof {
            let s = d@.subrange(k + j, k + n);
            assert(s.drop_first() =~= d@.subrange(k + j + 1, k + n));
            lemma_pow2_step((n - j - 1) as nat);
        }
        acc = acc * 256 + b as u64;
    }
    acc
}

proof fn lemma_pow2_step(m: nat)
    requires
        m < 8,
    ensures
        vstd::arithmetic::power2::pow2((m + 1) * 8) == 256 * vstd::arithmetic::power2::pow2(m * 8),
        vstd::arithmetic::power2::pow2((m + 1) * 8) <= 0x1_0000_0000_0000_0000,
{
    vstd::arithmetic::power2::lemma2_to64();
    vstd::arithmetic::power2::lemma2_to64_rest();
    assert(m == 0 || m == 1 || m == 2 || m == 3 || m == 4 || m == 5 || m == 6 || m == 7);
}

/// The entries of a memory map laid out in `d`, in order.
pub fn mmap_entries(d: &[u8]) -> (r: Vec<MultibootMmapEntry>)
    requires
        chain_ok(d@, 0),
    ensures
        r@ == entries_from(d@, 0),
{
    let mut out: Vec<MultibootMmapEntry> = Vec::new();
    let mut off: usize = 0;
    let ghost first = entries_from(d@, 0);
    while off != d.len()
        invariant
            chain_ok(d@, off as int),
            off <= d.len(),
            first == out@ + entries_from(d@, off as int),
        decreases d.len() - off,
    {
        let entry_size = read_le(d, off, 4) as u32;
        let addr = read_le(d, off + 4, 8);
        let len = read_le(d, off + 12, 8);
        let mem_type = read_le(d, off + 20, 4) as u32;
        let entry = MultibootMmapEntry { entry_size, addr, len, mem_type };
        proof {
            assert(entry == entry_at(d@, off as int));
            assert(out@.push(entry) + entries_from(d@, next_entry(d@, off as int)) =~= out@ + entries_from(d@, off as int));
        }
        out.push(entry);
        off = off + 4 + entry_size as usize;
    }
    proof {
        assert(out@ + entries_from(d@, off as int) =~= out@);
    }
    out
}

/// Walks the entries of a memory map, whose bytes it borrows.
pub struct MultibootMmapIter<'a> {
    data: &'a [u8],
    pos: usize,
}

impl<'a> MultibootMmapIter<'a> {
    /// The entries still to come.
    pub closed spec fn remaining(&self) -> Seq<MultibootMmapEntry> {
        entries_from(self.data@, self.pos as int)
    }

    /// The rest of the map, from where the walk stands, is a chain of whole entries.
    pub closed spec fn valid(&self) -> bool {
        chain_ok(self.data@, self.pos as int)
    }

    /// A walk over the memory map `d` from its first entry.
    pub fn new(d: &'a [u8]) -> (it: Self)
        requires
            chain_ok(d@, 0),
        ensures
            it.valid(),
            it.remaining() == entries_from(d@, 0),
    {
        MultibootMmapIter { data: d, pos: 0 }
    }

    /// The next entry, if one is left.
    pub fn next(&mut self) -> (r: Option<MultibootMmapEntry>)
        requires
            old(self).valid(),
        ensures
            final(self).valid(),
            match r {
                None => old(self).remaining().len() == 0 && final(self).remaining().len() == 0,
                Some(e) => {
                    &&& old(self).remaining().len() > 0
                    &&& e == old(self).remaining()[0]
                    &&& final(self).remaining() == old(self).remaining().drop_first()
                },
            },
    {
        if self.pos == self.data.len() {
            return None;
        }
        let off = self.pos;
        let d = self.data;
        let entry_size = read_le(d, off, 4) as u32;
        let addr = read_le(d, off + 4, 8);
        let len = read_le(d, off + 12, 8);
        let mem_type = read_le(d, off + 20, 4) as u32;
        let entry = MultibootMmapEntry { entry_size, addr, len, mem_type };
        proof {
            assert(entry == entry_at(d@, off as int));
            assert((seq![entry] + entries_from(d@, next_entry(d@, off as int))).drop_first() =~= entries_from(
                d@,
                next_entry(d@, off as int),
            ));
        }
        self.pos = off + 4 + entry_size as usize;
        Some(entry)
    }
}

impl MultibootInfoRaw {
    /// The physical range `[start, end)` holding the memory map; the boot loader must have
    /// passed one (bit 6 of the flags).
    pub fn mmap_range(&self) -> (r: (u64, u64))
        requires
            self.flags & 0x40 != 0,
        ensures
            r == (self.mmap_addr as u64, (self.mmap_addr + self.mmap_length) as u64),
    {
        (self.mmap_addr as u64, self.mmap_addr as u64 + self.mmap_length as u64)
    }
}

} // verus!
