//! The bootloader.

pub mod elf;
pub mod file;
pub mod graphics;
pub mod handoff;
pub mod memory;
