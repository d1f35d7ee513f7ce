# lilith

The data structures, allocators and scheduling decisions of a small x86-64 kernel, written in
Verus and proved against their contracts. What touches the hardware (port I/O, descriptor
tables, page tables, context switches, assembly entry points) is not here: the kernel performs
it around these functions, which take and give plain values.

## Layout

- `src/geometry.rs`, `src/banded_region.rs`, `src/surface.rs`, `src/window.rs`: rectangles,
  regions kept as bands of runs, pixel surfaces and the window manager's screen.
- `src/boot_alloc.rs`, `src/buddy.rs`, `src/slub.rs`, `src/virtual_alloc.rs`, `src/memory.rs`:
  the boot-time memory map, the buddy page allocator, the slab allocator, the virtual span
  allocator, the direct map, and the kernel allocator that falls back from the direct map to
  the virtual allocation area.
- `src/address_space.rs`, `src/debug_info.rs`, `src/user.rs`: user address spaces and demand
  paging, the summary of the page tables into mapped regions, and loading ELF programs into a
  user address space.
- `src/sched.rs`, `src/tasks.rs`, `src/sync.rs`, `src/interrupts.rs`: the thread scheduler,
  wait queues and timers, the executor of asynchronous tasks, interrupt guards, interrupt
  dispatch and system calls.
- `src/rbtree.rs`, `src/id_vec.rs`: a red-black tree and a vector of reusable identifiers.
- `src/multiboot.rs`, `src/ramfs.rs`, `src/vesa.rs`, `src/vga_buffer.rs`: the boot loader's
  information, the initial file system image, the graphics mode and text output.
- `app/main.rs`: the host tool that packs files into a file system image.
- `tests/`: tests of the library on concrete values.
