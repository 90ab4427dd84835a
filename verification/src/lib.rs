//! A small AArch64 teaching kernel, with its page tables, physical frame
//! allocator, process table, ELF loader and file-system image builder
//! written as verified functions over a model of the machine.

pub mod memory;
pub mod virtual_memory;
pub mod pt_spec;
pub mod process;
pub mod elf;
pub mod exec;
pub mod mkfs;
pub mod scheduler;
pub mod log;
pub mod irq;
pub mod virtio;
pub mod sh;
pub mod boot;
