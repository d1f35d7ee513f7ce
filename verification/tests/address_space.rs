use lilith::address_space::{PageBacking, UserAddressSpace, PAGE_PRESENT, PAGE_USER_ACCESSIBLE, PAGE_WRITABLE, USER_PAGE_FLAGS};
use lilith::memory::PHYSICAL_MEMORY_OFFSET;

#[test]
fn page_table_address_is_its_physical_address() {
    let a = UserAddressSpace::from_page_table(PHYSICAL_MEMORY_OFFSET + 0x5000);
    assert_eq!(a.page_table_address(), 0x5000);
}

#[test]
fn faults_inside_a_mapping_get_their_page() {
    let mut a = UserAddressSpace::from_page_table(PHYSICAL_MEMORY_OFFSET);
    a.add_mapping(0x40_0000, 0x3000);
    a.add_mapping(0x7FFF_0000_0000, 1048576);
    assert_eq!(a.fault_page(0x40_0000), Some(PageBacking { page: 0x40_0000, flags: USER_PAGE_FLAGS }));
    assert_eq!(a.fault_page(0x40_1234), Some(PageBacking { page: 0x40_1000, flags: USER_PAGE_FLAGS }));
    assert_eq!(a.fault_page(0x40_2FFF), Some(PageBacking { page: 0x40_2000, flags: USER_PAGE_FLAGS }));
    assert_eq!(a.fault_page(0x40_3000), None);
    assert_eq!(a.fault_page(0x3F_FFFF), None);
    assert_eq!(a.fault_page(0x7FFF_0000_0008), Some(PageBacking { page: 0x7FFF_0000_0000, flags: USER_PAGE_FLAGS }));
}

#[test]
fn kernel_addresses_are_never_demand_paged() {
    let mut a = UserAddressSpace::from_page_table(PHYSICAL_MEMORY_OFFSET);
    a.add_mapping(0, usize::MAX);
    assert_eq!(a.fault_page(0xFFFF_8000_0000_1000), None);
    assert_eq!(a.fault_page(0x1000), Some(PageBacking { page: 0x1000, flags: USER_PAGE_FLAGS }));
}

#[test]
fn user_pages_are_present_writable_and_reachable_from_user_code() {
    assert_eq!(USER_PAGE_FLAGS, PAGE_PRESENT | PAGE_WRITABLE | PAGE_USER_ACCESSIBLE);
}
