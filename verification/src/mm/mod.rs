//! Memory management: physical memory, the frame allocator, page tables, map
//! areas and address spaces.
pub mod address;
pub mod phys;
pub mod frame_allocator;
pub mod page_table;
pub mod table_tree;
pub mod user_check;
pub mod user_memory;
pub mod user_write;
pub mod elf;
pub mod elf_check;
pub mod map_area;
pub mod memory_set;
pub mod spaces;
pub mod rights;
pub mod budget;
pub mod setup;
pub mod setup_check;
