//! The kernel.

pub mod boot;
pub mod console;
pub mod font;
pub mod frame;
pub mod frame_supply;
pub mod free_list;
pub mod gdt;
pub mod growable;
pub mod heap;
pub mod heap_check;
pub mod heap_room;
pub mod heap_words;
pub mod idt;
pub mod interrupts;
pub mod keyboard;
pub mod layout;
pub mod paint;
pub mod pic;
pub mod pit;
pub mod port;
pub mod ps2;
pub mod serial;
