//! What the processor is programmed with to enter the kernel: segments, gates,
//! the task state segment, the registers of the `syscall` instruction, and the
//! first page tables.
pub mod context;
pub mod gdt;
pub mod idt;
pub mod msr;
pub mod paging;
pub mod tss;
