use vstd::prelude::*;

use crate::boot_alloc::{align_down_to, is_pow2};
use crate::memory::{PHYSICAL_MEMORY_MAX_SIZE, PHYSICAL_MEMORY_OFFSET, is_user_address, virt_to_phys};

verus! {

/// Whether `addr` is a canonical virtual address: bits 48 to 63 copy bit 47.
pub open spec fn canonical(addr: u64) -> bool {
    addr < 0x8000_0000_0000 || addr >= 0xFFFF_8000_0000_0000
}

/// A range of user memory that is backed by zeroed frames on first touch.
#[derive(Clone, Copy, Debug, PartialEq, Eq, Structural)]
pub struct Mapping {
    pub addr: u64,
    pub size: usize,
}

/// Whether mapping `m` covers address `addr`.
pub open spec fn covers(m: Mapping, addr: u64) -> bool {
    m.addr <= addr && addr - m.addr < m.size
}

/// Page table entry flag: the page is mapped.
pub const PAGE_PRESENT: u64 = 0x1;

/// Page table entry flag: the page may be written.
pub const PAGE_WRITABLE: u64 = 0x2;

/// Page table entry flag: user code may touch the page.
pub const PAGE_USER_ACCESSIBLE: u64 = 0x4;

/// Page table entry flag: the mapping is the same in every address space.
pub const PAGE_GLOBAL: u64 = 0x100;

/// The flags of a page backing user memory: present, writable, reachable from user code.
pub const USER_PAGE_FLAGS: u64 = PAGE_PRESENT | PAGE_WRITABLE | PAGE_USER_ACCESSIBLE;

/// The flags of a page backing kernel memory of the virtual allocation area: present,
/// writable, the same in every address space.
pub const KERNEL_PAGE_FLAGS: u64 = PAGE_PRESENT | PAGE_WRITABLE | PAGE_GLOBAL;

/// A page to back with a freshly zeroed frame of its own, mapped with `flags`.
#[derive(Clone, Copy, Debug, PartialEq, Eq, Structural)]
pub struct PageBacking {
    pub page: u64,
    pub flags: u64,
}

/// Calls `x86_64::VirtAddr::align_down` on a lower-half address: the greatest multiple of
/// `align` at or below `addr`.
#[verifier::external_body]
fn virt_align_down(addr: u64, align: u64) -> (r: u64)
    requires
        is_pow2(align),
        addr < 0x8000_0000_0000,
    ensures
        r == align_down_to(addr as int, align as int),
{
    x86_64::VirtAddr::new(addr).align_down(align).as_u64()
}

/// The user half of a process's address space: its top-level page table, at an address of the
/// direct map, and the ranges it may touch.
pub struct UserAddressSpace {
    page_table: u64,
    mappings: Vec<Mapping>,
}

impl UserAddressSpace {
    /// The direct-map address of the top-level page table.
    pub closed spec fn page_table_view(&self) -> u64 {
        self.page_table
    }

    /// The ranges the process may touch, in the order they were added.
    pub closed spec fn mappings_view(&self) -> Seq<Mapping> {
        self.mappings@
    }

    /// An address space with the top-level page table at direct-map address `page_table` and
    /// no ranges yet.
    pub fn from_page_table(page_table: u64) -> (r: Self)
        ensures
            r.page_table_view() == page_table,
            r.mappings_view() == Seq::<Mapping>::empty(),
    {
        UserAddressSpace { page_table, mappings: Vec::new() }
    }

    /// The physical address of the top-level page table.
    pub fn page_table_address(&self) -> (r: u64)
        requires
            PHYSICAL_MEMORY_OFFSET <= self.page_table_view() < PHYSICAL_MEMORY_OFFSET + PHYSICAL_MEMORY_MAX_SIZE,
        ensures
            r == self.page_table_view() - PHYSICAL_MEMORY_OFFSET,
    {
        match virt_to_phys(self.page_table) {
            Some(p) => p,
            None => {
                proof {
                    assert(false);
                }
                0
            },
        }
    }

    /// The ranges the process may touch, in the order they were added.
    pub fn mappings(&self) -> (r: &Vec<Mapping>)
        ensures
            r@ == self.mappings_view(),
    {
        &self.mappings
    }

    /// Lets the process touch the `size` bytes from `addr` on.
    pub fn add_mapping(&mut self, addr: u64, size: usize)
        ensures
            final(self).page_table_view() == old(self).page_table_view(),
            final(self).mappings_view() == old(self).mappings_view().push(Mapping { addr, size }),
    {
        self.mappings.push(Mapping { addr, size });
    }

    /// How to answer a page fault of the process at `addr`: back the page that holds `addr`
    /// with a freshly zeroed frame, present, writable and reachable from user code, if `addr`
    /// is a user address that one of the ranges covers; `None` for a fault that nothing
    /// explains.
    pub fn fault_page(&self, addr: u64) -> (r: Option<PageBacking>)
        requires
            canonical(addr),
        ensures
            r == (if addr < 0x1_0000_0000_0000 && exists|k: int|
                0 <= k < self.mappings_view().len() && covers(#[trigger] self.mappings_view()[k], addr) {
                Some(PageBacking { page: align_down_to(addr as int, 4096) as u64, flags: USER_PAGE_FLAGS })
            } else {
                None::<PageBacking>
            }),
    {
        if is_user_address(addr) {
            let mut i: usize = 0;
            while i < self.mappings.len()
                invariant
                    addr < 0x8000_0000_0000,
                    i <= self.mappings@.len(),
                    forall|k: int| 0 <= k < i ==> !covers(#[trigger] self.mappings@[k], addr),
                decreases self.mappings@.len() - i,
            {
                let m = self.mappings[i];
                if addr >= m.addr && addr - m.addr < m.size as u64 {
                    proof {
                        assert(covers(self.mappings_view()[i as int], addr));
                        assert(4096u64 & ((4096u64 - 1) as u64) == 0) by (bit_vector);
                    }
                    let page = virt_align_down(addr, 4096);
                    return Some(PageBacking { page, flags: USER_PAGE_FLAGS });
                }
                i = i + 1;
            }
        }
        None
    }
}

} // verus!
