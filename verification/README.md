# rust_bl

The verified core of a UEFI bootloader and a small x86_64 kernel, and the
programs built around it.

`src/` is a library. Everything in it is computed on plain values and proved
with Verus against the contracts that stand beside it. Firmware calls, I/O
ports, raw memory and processes are left to `app/`.

## Layout

```
src/boot_info.rs     the handoff from bootloader to kernel; walking the memory map
src/align.rs         rounding to multiples of an alignment
src/ram.rs           word access to identity-mapped memory
src/qemu_exit.rs     the guest's exit codes
src/bootloader/      ELF loading, the kernel's stack, the region array, the framebuffer
src/kernel/          frame allocator, heap, console, descriptor tables, drivers, boot decisions
src/xtask/           booting in QEMU: command line, keystrokes, screen capture, verdicts
app/                 the three programs: bootloader, kernel, and the build tool
tests/               the library's tests
```

## What is proved

- **Memory map.** The usable runs of a map are exactly the whole pages of its
  conventional memory, without the page at address zero.
- **Frame allocator.** Each free frame is handed out once, a freed frame is the
  next one out, and a contiguous request strands no frame. The free stack lives
  in the free frames themselves, and the proof covers those words.
- **Heap.** First fit with splitting and merging in both directions. The free
  list is determined by what is handed out, so an idle heap is one block again.
  Allocations are disjoint, aligned, and keep their contents.
- **ELF loader.** Each malformed image has its error, before any page is asked
  for where the header is at fault. A kernel that loads lies inside the span
  that is reported, and so does its entry point.
- **Console.** What every byte does to every pixel and to the cursor.
- **Devices.** What is written to which port, in what order. The keyboard
  controller's setup ends, whatever the controller answers.

The heap and the frame allocator read and write memory through the trait
`WordMemory`. `RamWindow` implements it on a buffer; the kernel implements it
on physical memory.
