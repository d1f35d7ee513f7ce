use arrayvec::ArrayVec;
use vstd::prelude::*;

verus! {

/// A run of virtual memory mapped onto contiguous physical memory with the same flags.
#[derive(Clone, Copy, Debug, PartialEq, Eq, Structural)]
pub struct MapRegion {
    pub virt_start: u64,
    pub phys_start: u64,
    pub size: u64,
    pub flags: u64,
}

/// The most regions a memory map holds.
pub const MAX_REGIONS: usize = 512;

#[verifier::external_type_specification]
#[verifier::external_body]
#[verifier::reject_recursive_types(T)]
pub struct ExArrayVec<T, const CAP: usize>(ArrayVec<T, CAP>);

/// The regions that a memory map holds, in order.
pub uninterp spec fn region_list(v: ArrayVec<MapRegion, 512>) -> Seq<MapRegion>;

/// `ArrayVec::new`: an empty vector.
#[verifier::external_body]
fn region_list_new() -> (v: ArrayVec<MapRegion, 512>)
    ensures
        region_list(v) == Seq::<MapRegion>::empty(),
{
    ArrayVec::new()
}

/// `ArrayVec::len`: the number of regions held, which never exceeds the capacity.
#[verifier::external_body]
fn region_count(v: &ArrayVec<MapRegion, 512>) -> (n: usize)
    ensures
        n == region_list(*v).len(),
        n <= MAX_REGIONS,
{
    v.len()
}

/// Indexing an `ArrayVec` (through its slice): a copy of region `i`.
#[verifier::external_body]
fn region_at(v: &ArrayVec<MapRegion, 512>, i: usize) -> (r: MapRegion)
    requires
        i < region_list(*v).len(),
    ensures
        r == region_list(*v)[i as int],
{
    v[i]
}

/// Assigning through the index of an `ArrayVec` (its mutable slice): region `i` is replaced
/// by `r`, the others stay.
#[verifier::external_body]
fn region_set(v: &mut ArrayVec<MapRegion, 512>, i: usize, r: MapRegion)
    requires
        i < region_list(*old(v)).len(),
    ensures
        region_list(*final(v)) == region_list(*old(v)).update(i as int, r),
{
    v[i] = r;
}

/// `ArrayVec::push`, which panics when the vector is full: `r` is added at the end.
#[verifier::external_body]
fn region_push(v: &mut ArrayVec<MapRegion, 512>, r: MapRegion)
    requires
        region_list(*old(v)).len() < MAX_REGIONS,
    ensures
        region_list(*final(v)) == region_list(*old(v)).push(r),
{
    v.push(r);
}

/// A 48-bit virtual address in canonical form: where bit 47 is set, bits 48 to 63 are set too.
pub open spec fn canonical_form(addr: u64) -> u64 {
    if addr & 0x8000_0000_0000u64 != 0 {
        addr | 0xFFFF_0000_0000_0000u64
    } else {
        addr
    }
}

/// The canonical form of a 48-bit virtual address.
pub fn canonicalize(addr: u64) -> (r: u64)
    ensures
        r == canonical_form(addr),
{
    if addr & 0x8000_0000_0000u64 != 0 {
        addr | 0xFFFF_0000_0000_0000
    } else {
        addr
    }
}

/// The page at `va`, of `size` bytes, continues region `last`: virtually and physically, and
/// with the same flags.
pub open spec fn continues(last: MapRegion, va: u64, phys: u64, size: u64, flags: u64) -> bool {
    &&& last.virt_start + last.size == va
    &&& last.phys_start + last.size == phys
    &&& last.flags == flags
}

/// The regions after one more mapped page, met in address order: the last region grows where
/// the page continues it, else the page starts a region of its own.
pub open spec fn with_page(regions: Seq<MapRegion>, va: u64, phys: u64, size: u64, flags: u64) -> Seq<MapRegion> {
    if regions.len() > 0 && continues(regions.last(), va, phys, size, flags) {
        regions.update(regions.len() - 1, MapRegion { size: (regions.last().size + size) as u64, ..regions.last() })
    } else {
        regions.push(MapRegion { virt_start: va, phys_start: phys, size, flags })
    }
}

/// A memory map without regions.
pub fn empty_regions() -> (v: ArrayVec<MapRegion, 512>)
    ensures
        region_list(v) == Seq::<MapRegion>::empty(),
{
    region_list_new()
}

/// The number of regions of a memory map.
pub fn regions_len(regions: &ArrayVec<MapRegion, 512>) -> (n: usize)
    ensures
        n == region_list(*regions).len(),
        n <= MAX_REGIONS,
{
    region_count(regions)
}

/// Whether `record_page` can take the page of `size` bytes at `va`, backed by `phys`: a page
/// that continues the last region must not make it larger than `u64::MAX` bytes, and one that
/// starts a region needs room for it.
pub open spec fn page_fits(regions: Seq<MapRegion>, va: u64, phys: u64, size: u64, flags: u64) -> bool {
    if regions.len() > 0 && continues(regions.last(), va, phys, size, flags) {
        regions.last().size + size <= u64::MAX
    } else {
        regions.len() < MAX_REGIONS
    }
}

/// Records the page as `record_page` does where it fits (and says so); otherwise leaves the
/// map as it is and answers `false`.
pub fn try_record_page(regions: &mut ArrayVec<MapRegion, 512>, va: u64, phys: u64, size: u64, flags: u64) -> (r: bool)
    ensures
        r == page_fits(region_list(*old(regions)), va, phys, size, flags),
        r ==> region_list(*final(regions)) == with_page(region_list(*old(regions)), va, phys, size, flags),
        !r ==> region_list(*final(regions)) == region_list(*old(regions)),
{
    let n = region_count(regions);
    if n > 0 {
        let last = region_at(regions, n - 1);
        let virt_end = last.virt_start.checked_add(last.size);
        let phys_end = last.phys_start.checked_add(last.size);
        if virt_end == Some(va) && phys_end == Some(phys) && last.flags == flags {
            if last.size.checked_add(size).is_none() {
                return false;
            }
        } else if n >= MAX_REGIONS {
            return false;
        }
    }
    record_page(regions, va, phys, size, flags);
    true
}

/// Records a mapped page of `size` bytes at `va`, backed by `phys`, met in address order
/// during a walk of the page tables. A page that starts a region of its own needs room for
/// it: the map holds at most `MAX_REGIONS`.
pub fn record_page(regions: &mut ArrayVec<MapRegion, 512>, va: u64, phys: u64, size: u64, flags: u64)
    requires
        page_fits(region_list(*old(regions)), va, phys, size, flags),
    ensures
        region_list(*final(regions)) == with_page(region_list(*old(regions)), va, phys, size, flags),
{
    let n = region_count(regions);
    if n > 0 {
        let last = region_at(regions, n - 1);
        let virt_end = last.virt_start.checked_add(last.size);
        let phys_end = last.phys_start.checked_add(last.size);
        if virt_end == Some(va) && phys_end == Some(phys) && last.flags == flags {
            region_set(regions, n - 1, MapRegion { size: last.size + size, ..last });
            return;
        }
    }
    region_push(regions, MapRegion { virt_start: va, phys_start: phys, size, flags });
}

} // verus!
