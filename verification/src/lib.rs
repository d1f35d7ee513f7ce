pub mod banded_region;
pub mod boot_alloc;
pub mod geometry;
pub mod id_vec;
pub mod interrupts;
pub mod memory;
pub mod multiboot;
pub mod ramfs;
pub mod sched;
pub mod surface;
pub mod tasks;
pub mod util;
pub mod vesa;
pub mod vga_buffer;
pub mod virtual_alloc;
pub mod window;
pub mod buddy;
pub mod debug_info;
pub mod slub;
pub mod address_space;
pub mod sync;
pub mod rbtree;
pub mod user;
