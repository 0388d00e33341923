//! The verified core of a UEFI bootloader and a small x86_64 kernel.
//!
//! Everything here is computed on plain values: the parts that touch
//! firmware, I/O ports and raw memory live in the programs built around
//! this library.

pub mod align;
pub mod boot_info;
pub mod bootloader;
pub mod kernel;
pub mod qemu_exit;
pub mod ram;
pub mod xtask;
