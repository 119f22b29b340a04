//! A slab allocator in the style of Linux SLUB, modelled over plain
//! addresses, with the small kernel helpers around it: a VGA text terminal
//! and a physical-frame allocator driven by the boot memory map.
pub mod memory;
pub mod slab;
pub mod vga_buffer;
