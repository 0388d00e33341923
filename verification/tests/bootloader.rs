use rust_bl::boot_info::{MemoryRegion, PixelFormatKind};
use rust_bl::bootloader::file::{EndOfFile, FileRead, ReadStep};
use rust_bl::bootloader::graphics::{describe_framebuffer, GopPixelFormat};
use rust_bl::bootloader::handoff::{fill_regions, kernel_stack_top, store_region};
use rust_bl::bootloader::memory::{region_array, REGION_CAPACITY};
use rust_bl::qemu_exit::QemuExitCode;

#[test]
fn the_stack_top_is_biased_for_a_jump() {
    let top = kernel_stack_top(0x10_0000);
    assert_eq!(top, 0x10_fff8);
    assert_eq!(top % 16, 8);
    let unaligned = kernel_stack_top(0x10_0007);
    assert_eq!(unaligned, 0x10_fff8);
    assert_eq!(kernel_stack_top(0x10_0010), 0x11_0008);
}

fn region(start: u64) -> MemoryRegion {
    MemoryRegion::new(start, 1, 7)
}

fn starts(regions: &[MemoryRegion]) -> Vec<u64> {
    regions.iter().map(|region| region.start).collect()
}

#[test]
fn the_memory_map_is_copied_as_far_as_it_fits() {
    let map = [region(1), region(2), region(3)];
    let mut small = [region(0); 2];
    assert_eq!(fill_regions(&map, &mut small), 2);
    assert_eq!(starts(&small), vec![1, 2]);
    let mut large = [region(9); 5];
    assert_eq!(fill_regions(&map, &mut large), 3);
    assert_eq!(starts(&large), vec![1, 2, 3, 9, 9]);
    assert_eq!(fill_regions(&map, &mut []), 0);
    assert_eq!(fill_regions(&[], &mut large), 0);
}

#[test]
fn a_full_array_takes_no_more() {
    let mut regions = [region(0); 1];
    assert!(store_region(&mut regions, 0, region(5)));
    assert!(!store_region(&mut regions, 1, region(6)));
    assert_eq!(starts(&regions), vec![5]);
}

#[test]
fn the_region_array_is_rounded_up_to_pages() {
    assert_eq!(region_array(REGION_CAPACITY), (2, 341));
    assert_eq!(region_array(0), (0, 0));
    assert_eq!(region_array(1), (1, 170));
    assert_eq!(region_array(170), (1, 170));
    assert_eq!(region_array(171), (2, 341));
}

#[test]
fn only_drawable_formats_are_described() {
    let describe = |format| describe_framebuffer(0x8000_0000, 100, (1280, 800), 1280, format);
    assert!(describe(GopPixelFormat::Bitmask).is_none());
    assert!(describe(GopPixelFormat::BltOnly).is_none());
    let rgb = describe(GopPixelFormat::Rgb).unwrap();
    assert_eq!(rgb.pixel_format(), Some(PixelFormatKind::Rgb));
    let bgr = describe(GopPixelFormat::Bgr).unwrap();
    assert_eq!(bgr.pixel_format(), Some(PixelFormatKind::Bgr));
    assert_eq!((bgr.addr, bgr.size), (0x8000_0000, 100));
    assert_eq!((bgr.width, bgr.height, bgr.stride, bgr.bytes_per_pixel), (1280, 800, 1280, 4));
    let wide = describe_framebuffer(0, 0, (0x1_0000_0005, 6), 7, GopPixelFormat::Rgb).unwrap();
    assert_eq!((wide.width, wide.height, wide.stride), (5, 6, 7));
}

#[test]
fn a_file_is_read_until_it_is_whole() {
    let mut read = FileRead::new(10);
    assert_eq!(read.next(), ReadStep::ReadFrom(0));
    assert_eq!(read.absorb(4), Ok(()));
    assert_eq!(read.next(), ReadStep::ReadFrom(4));
    assert_eq!(read.absorb(6), Ok(()));
    assert_eq!(read.next(), ReadStep::Complete);
    assert_eq!(FileRead::new(0).next(), ReadStep::Complete);
}

#[test]
fn a_file_that_ends_early_is_an_error() {
    let mut read = FileRead::new(10);
    assert_eq!(read.absorb(9), Ok(()));
    assert_eq!(read.absorb(0), Err(EndOfFile));
}

#[test]
fn the_two_reports_write_different_values() {
    assert_eq!(QemuExitCode::Success.value(), 0x10);
    assert_eq!(QemuExitCode::Failed.value(), 0x11);
    assert_eq!((QemuExitCode::Success.value() << 1) | 1, 33);
    assert_eq!((QemuExitCode::Failed.value() << 1) | 1, 35);
}
