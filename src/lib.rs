//! Memory-management core of a small x86_64 kernel: the physical frame
//! supplier, the planning of the heap's page mappings, and three heap
//! allocation strategies (bump, linked-list, fixed-size-block), each with
//! its contract proved.
pub mod align;
pub mod allocator;
pub mod interrupts;
pub mod memory;
pub mod qemu;
pub mod task;
pub mod vga_buffer;
