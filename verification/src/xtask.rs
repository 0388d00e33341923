//! The build tool: boots the staged image in QEMU and judges the outcome.

pub mod command;
pub mod image;
pub mod keys;
pub mod qemu;
pub mod screen;
pub mod verdict;
