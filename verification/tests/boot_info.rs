use rust_bl::boot_info::{
    BootInfo, FrameBufferInfo, FrameRun, MemoryRegion, PixelFormatKind, UsableRegions,
    BOOT_INFO_MAGIC, BOOT_INFO_VERSION,
};

/// A UEFI type that is not CONVENTIONAL. 2 is LOADER_DATA, which is exactly
/// what the bootloader marks the kernel image, stack, and `BootInfo` as.
const LOADER_DATA: u32 = 2;

#[test]
fn skips_regions_that_are_not_conventional() {
    let regions = [
        MemoryRegion::new(0x1000, 4, LOADER_DATA),
        MemoryRegion::new(0x5000, 4, MemoryRegion::CONVENTIONAL),
    ];
    let mut runs = UsableRegions::new(&regions);
    assert_eq!(runs.next(), Some(FrameRun { start: 0x5000, frames: 4 }));
    assert_eq!(runs.next(), None);
}

#[test]
fn never_yields_the_frame_at_physical_zero() {
    // A run starting at 0 must be trimmed to start at 0x1000, so an
    // allocated frame address is never null.
    let regions = [MemoryRegion::new(0, 2, MemoryRegion::CONVENTIONAL)];
    let mut runs = UsableRegions::new(&regions);
    assert_eq!(runs.next(), Some(FrameRun { start: 0x1000, frames: 1 }));
    assert_eq!(runs.next(), None);
}

#[test]
fn clamps_an_unaligned_span_inward() {
    // 0x1800..0x3800 contains exactly one whole aligned frame.
    let regions = [MemoryRegion::new(0x1800, 2, MemoryRegion::CONVENTIONAL)];
    let mut runs = UsableRegions::new(&regions);
    assert_eq!(runs.next(), Some(FrameRun { start: 0x2000, frames: 1 }));
    assert_eq!(runs.next(), None);
}

#[test]
fn drops_a_span_that_rounds_away_to_nothing() {
    // 0x1800..0x2800 straddles a boundary but contains no whole frame.
    let regions = [MemoryRegion::new(0x1800, 1, MemoryRegion::CONVENTIONAL)];
    assert_eq!(UsableRegions::new(&regions).next(), None);
}

#[test]
fn yields_every_usable_region_in_order() {
    let regions = [
        MemoryRegion::new(0x2000, 3, MemoryRegion::CONVENTIONAL),
        MemoryRegion::new(0x9000, 1, LOADER_DATA),
        MemoryRegion::new(0xa000, 2, MemoryRegion::CONVENTIONAL),
    ];
    let mut runs = UsableRegions::new(&regions);
    assert_eq!(runs.next(), Some(FrameRun { start: 0x2000, frames: 3 }));
    assert_eq!(runs.next(), Some(FrameRun { start: 0xa000, frames: 2 }));
    assert_eq!(runs.next(), None);
}

#[test]
fn an_empty_map_yields_nothing() {
    assert_eq!(UsableRegions::new(&[]).next(), None);
}

#[test]
fn skips_a_descriptor_whose_span_overflows() {
    // A malformed descriptor must be skipped, not trusted and not panicked
    // on: this data crosses a binary boundary.
    let regions = [MemoryRegion::new(u64::MAX - 0xfff, u64::MAX, MemoryRegion::CONVENTIONAL)];
    assert_eq!(UsableRegions::new(&regions).next(), None);
}

#[test]
fn skips_a_descriptor_whose_end_overflows() {
    let regions = [
        MemoryRegion::new(u64::MAX - 0xfff, 1, MemoryRegion::CONVENTIONAL),
        MemoryRegion::new(0x3000, 1, MemoryRegion::CONVENTIONAL),
    ];
    let mut runs = UsableRegions::new(&regions);
    assert_eq!(runs.next(), Some(FrameRun { start: 0x3000, frames: 1 }));
    assert_eq!(runs.next(), None);
}

#[test]
fn an_exhausted_walk_stays_exhausted() {
    let regions = [MemoryRegion::new(0x2000, 1, MemoryRegion::CONVENTIONAL)];
    let mut runs = UsableRegions::new(&regions);
    assert!(runs.next().is_some());
    assert_eq!(runs.next(), None);
    assert_eq!(runs.next(), None);
}

#[test]
fn pixel_formats_round_trip_through_their_numbers() {
    assert_eq!(PixelFormatKind::from_u32(0), Some(PixelFormatKind::Rgb));
    assert_eq!(PixelFormatKind::from_u32(1), Some(PixelFormatKind::Bgr));
    assert_eq!(PixelFormatKind::from_u32(2), None);
    assert_eq!(PixelFormatKind::from_u32(u32::MAX), None);
    assert_eq!(PixelFormatKind::from_u32(PixelFormatKind::Rgb.to_u32()), Some(PixelFormatKind::Rgb));
    assert_eq!(PixelFormatKind::from_u32(PixelFormatKind::Bgr.to_u32()), Some(PixelFormatKind::Bgr));
}

fn framebuffer() -> FrameBufferInfo {
    FrameBufferInfo::new(0x8000_0000, 4_096_000, 1280, 800, 1280, 4, PixelFormatKind::Bgr)
}

#[test]
fn a_framebuffer_keeps_what_it_was_made_of() {
    let info = framebuffer();
    assert_eq!(info.addr, 0x8000_0000);
    assert_eq!(info.size, 4_096_000);
    assert_eq!((info.width, info.height, info.stride), (1280, 800, 1280));
    assert_eq!(info.bytes_per_pixel, 4);
    assert_eq!(info.pixel_format_raw, 1);
    assert_eq!(info.pixel_format(), Some(PixelFormatKind::Bgr));
}

#[test]
fn a_new_handoff_is_valid() {
    let info = BootInfo::new(framebuffer(), 0x1000, 3, 0x20_0000, 0x1_1000);
    assert!(info.is_valid());
    assert_eq!(info.magic, BOOT_INFO_MAGIC);
    assert_eq!(info.version, BOOT_INFO_VERSION);
    assert_eq!(info.memory_regions_ptr, 0x1000);
    assert_eq!(info.memory_regions_len, 3);
    assert_eq!(info.kernel_base, 0x20_0000);
    assert_eq!(info.kernel_size, 0x1_1000);
}

#[test]
fn a_handoff_with_a_wrong_field_is_invalid() {
    let good = BootInfo::new(framebuffer(), 0, 0, 0, 0);
    let mut magic = good;
    magic.magic = 0;
    assert!(!magic.is_valid());
    let mut version = good;
    version.version = 2;
    assert!(!version.is_valid());
    let mut format = good;
    format.framebuffer.pixel_format_raw = 7;
    assert!(!format.is_valid());
}

#[test]
fn only_conventional_memory_is_usable() {
    assert!(MemoryRegion::new(0, 1, 7).is_usable());
    assert!(!MemoryRegion::new(0, 1, 2).is_usable());
}
