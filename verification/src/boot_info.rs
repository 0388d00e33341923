//! What the bootloader tells the kernel.
//!
//! The two are separately built programs, so the handoff is one versioned
//! value that the kernel checks before trusting anything in it.

use crate::align::checked_next_multiple_of;
use vstd::prelude::*;

verus! {

/// Sanity value the kernel checks on entry; spells "RUSTB_L0".
pub const BOOT_INFO_MAGIC: u64 = 0x5255_5354_425f_4c30;

/// Bumped whenever the layout of [`BootInfo`] changes incompatibly.
pub const BOOT_INFO_VERSION: u32 = 1;

/// The only page size this project deals in. UEFI reports region sizes in
/// units of this, and the kernel's frame allocator hands out exactly this.
pub const PAGE_SIZE: u64 = 4096;

/// How pixels are laid out in the framebuffer. Mirrors the two directly
/// drawable UEFI formats; the bootloader rejects the others.
#[derive(Clone, Copy, Debug, PartialEq, Eq, Structural)]
pub enum PixelFormatKind {
    /// 32 bits per pixel, byte order R, G, B, reserved.
    Rgb,
    /// 32 bits per pixel, byte order B, G, R, reserved.
    Bgr,
}

impl PixelFormatKind {
    /// The number that stands for this format in a [`FrameBufferInfo`].
    pub open spec fn raw(self) -> u32 {
        match self {
            PixelFormatKind::Rgb => 0,
            PixelFormatKind::Bgr => 1,
        }
    }

    /// The number that stands for this format in a [`FrameBufferInfo`].
    pub fn to_u32(self) -> (raw: u32)
        ensures
            raw == self.raw(),
    {
        match self {
            PixelFormatKind::Rgb => 0,
            PixelFormatKind::Bgr => 1,
        }
    }

    /// Checked conversion from the raw number stored in a
    /// [`FrameBufferInfo`].
    pub fn from_u32(value: u32) -> (format: Option<Self>)
        ensures
            format == format_of_raw(value),
    {
        match value {
            0 => Some(PixelFormatKind::Rgb),
            1 => Some(PixelFormatKind::Bgr),
            _ => None,
        }
    }
}

/// The format a raw number stands for, if it stands for one.
pub open spec fn format_of_raw(value: u32) -> Option<PixelFormatKind> {
    if value == PixelFormatKind::Rgb.raw() {
        Some(PixelFormatKind::Rgb)
    } else if value == PixelFormatKind::Bgr.raw() {
        Some(PixelFormatKind::Bgr)
    } else {
        None
    }
}

/// Storing a format as a number and reading it back gives the same format,
/// and no other number reads back as that format.
pub proof fn pixel_format_round_trip(format: PixelFormatKind, value: u32)
    ensures
        format_of_raw(format.raw()) == Some(format),
        format_of_raw(value) == Some(format) ==> value == format.raw(),
{
}

/// Everything the kernel needs to draw to the screen.
#[derive(Clone, Copy, Debug)]
pub struct FrameBufferInfo {
    /// Physical address of the first pixel.
    pub addr: u64,
    /// Total size of the framebuffer in bytes.
    pub size: u64,
    pub width: u32,
    pub height: u32,
    /// Pixels per scanline. May exceed `width`: always use this, not
    /// `width`, to step between rows.
    pub stride: u32,
    pub bytes_per_pixel: u32,
    /// Raw number of a [`PixelFormatKind`], so that a corrupted value can
    /// never be an invalid enum.
    pub pixel_format_raw: u32,
}

impl FrameBufferInfo {
    pub fn new(
        addr: u64,
        size: u64,
        width: u32,
        height: u32,
        stride: u32,
        bytes_per_pixel: u32,
        pixel_format: PixelFormatKind,
    ) -> (info: Self)
        ensures
            info == (FrameBufferInfo {
                addr,
                size,
                width,
                height,
                stride,
                bytes_per_pixel,
                pixel_format_raw: pixel_format.raw(),
            }),
    {
        FrameBufferInfo {
            addr,
            size,
            width,
            height,
            stride,
            bytes_per_pixel,
            pixel_format_raw: pixel_format.to_u32(),
        }
    }

    /// The pixel format, or `None` if the raw number stands for none.
    pub fn pixel_format(&self) -> (format: Option<PixelFormatKind>)
        ensures
            format == format_of_raw(self.pixel_format_raw),
    {
        PixelFormatKind::from_u32(self.pixel_format_raw)
    }
}

/// One entry of the UEFI memory map.
#[derive(Clone, Copy, Debug)]
pub struct MemoryRegion {
    pub start: u64,
    pub pages: u64,
    /// The raw UEFI memory type. Only [`MemoryRegion::CONVENTIONAL`] is
    /// free for the kernel to use.
    pub kind: u32,
}

impl MemoryRegion {
    pub const CONVENTIONAL: u32 = 7;

    pub fn new(start: u64, pages: u64, kind: u32) -> (region: Self)
        ensures
            region == (MemoryRegion { start, pages, kind }),
    {
        MemoryRegion { start, pages, kind }
    }

    pub fn is_usable(&self) -> (usable: bool)
        ensures
            usable == (self.kind == Self::CONVENTIONAL),
    {
        self.kind == Self::CONVENTIONAL
    }
}

/// A contiguous, page-aligned span of physical memory that is free for the
/// kernel to use.
#[derive(Clone, Copy, Debug, PartialEq, Eq, Structural)]
pub struct FrameRun {
    pub start: u64,
    pub frames: u64,
}

/// `addr` starts a whole page that lies inside `region`.
pub open spec fn holds_page(region: MemoryRegion, addr: int) -> bool {
    &&& addr % (PAGE_SIZE as int) == 0
    &&& region.start <= addr
    &&& addr + PAGE_SIZE <= region.start + region.pages * PAGE_SIZE
}

/// The pages of `run`, as their start addresses.
pub open spec fn in_run(run: FrameRun, addr: int) -> bool {
    &&& addr % (PAGE_SIZE as int) == 0
    &&& run.start <= addr < run.start + run.frames * PAGE_SIZE
}

/// The run of usable frames in one region: none for a region that is not
/// conventional memory or whose span leaves the 64-bit address space, else
/// the region rounded inward to pages, without the page at address zero.
pub open spec fn run_of(region: MemoryRegion) -> Option<FrameRun> {
    let page = PAGE_SIZE as int;
    let floor = if region.start < PAGE_SIZE { page } else { region.start as int };
    let start = crate::align::align_up(floor, page);
    let end = crate::align::align_down(region.start + region.pages * PAGE_SIZE, page);
    if region.kind != MemoryRegion::CONVENTIONAL {
        None
    } else if region.start + region.pages * PAGE_SIZE > u64::MAX {
        None
    } else if end <= start {
        None
    } else {
        Some(FrameRun { start: start as u64, frames: ((end - start) / page) as u64 })
    }
}

/// The runs of a memory map, in the order of its regions.
pub open spec fn usable_runs(regions: Seq<MemoryRegion>) -> Seq<FrameRun>
    decreases regions.len(),
{
    if regions.len() == 0 {
        Seq::empty()
    } else {
        match run_of(regions[0]) {
            Some(run) => seq![run] + usable_runs(regions.drop_first()),
            None => usable_runs(regions.drop_first()),
        }
    }
}

/// The run of a region holds exactly the whole pages of that region, the
/// page at address zero left out; it starts on a page boundary, is not
/// empty, and ends inside the 64-bit address space.
#[verifier::spinoff_prover]
pub proof fn run_holds_the_pages_of_its_region(region: MemoryRegion, addr: int)
    requires
        region.kind == MemoryRegion::CONVENTIONAL,
        region.start + region.pages * PAGE_SIZE <= u64::MAX,
    ensures
        holds_page(region, addr) && addr != 0 <==> (run_of(region) is Some && in_run(
            run_of(region)->0,
            addr,
        )),
        run_of(region) matches Some(run) ==> well_formed_run(run),
{
    run_is_well_formed(region);
    let page = PAGE_SIZE as int;
    let span_end = region.start + region.pages * PAGE_SIZE;
    let floor = if region.start < PAGE_SIZE { page } else { region.start as int };
    let start = crate::align::align_up(floor, page);
    let end = crate::align::align_down(span_end, page);
    crate::align::lemma_align(floor, page);
    crate::align::lemma_align(span_end, page);
    if addr % page == 0 {
        crate::align::lemma_align_tight(floor, page, addr);
        crate::align::lemma_align_tight(span_end, page, addr + page);
    }
}

/// A run starts on a page boundary past address zero, holds at least one
/// frame, and ends inside the 64-bit address space.
pub open spec fn well_formed_run(run: FrameRun) -> bool {
    &&& run.start % PAGE_SIZE == 0
    &&& run.start >= PAGE_SIZE
    &&& run.frames > 0
    &&& run.start + run.frames * PAGE_SIZE <= u64::MAX
}

/// Every run that a region yields is page aligned, holds at least one
/// frame, never starts at address zero, and comes from conventional memory
/// inside that region.
pub proof fn run_is_well_formed(region: MemoryRegion)
    ensures
        run_of(region) matches Some(run) ==> {
            &&& well_formed_run(run)
            &&& region.kind == MemoryRegion::CONVENTIONAL
            &&& region.start <= run.start
            &&& run.start + run.frames * PAGE_SIZE <= region.start + region.pages * PAGE_SIZE
        },
{
    let page = PAGE_SIZE as int;
    let span_end = region.start + region.pages * PAGE_SIZE;
    let floor = if region.start < PAGE_SIZE { page } else { region.start as int };
    crate::align::lemma_align(floor, page);
    crate::align::lemma_align(span_end, page);
}

/// What [`run_is_well_formed`] says of one run, for every run of a map.
pub proof fn runs_are_well_formed(regions: Seq<MemoryRegion>)
    ensures
        forall|i: int|
            0 <= i < usable_runs(regions).len() ==> well_formed_run(
                #[trigger] usable_runs(regions)[i],
            ),
    decreases regions.len(),
{
    if regions.len() > 0 {
        runs_are_well_formed(regions.drop_first());
        run_is_well_formed(regions[0]);
        let rest = usable_runs(regions.drop_first());
        assert forall|i: int| 0 <= i < usable_runs(regions).len() implies well_formed_run(
            #[trigger] usable_runs(regions)[i],
        ) by {
            if run_of(regions[0]) is Some {
                if i > 0 {
                    assert(usable_runs(regions)[i] == rest[i - 1]);
                }
            } else {
                assert(usable_runs(regions)[i] == rest[i]);
            }
        }
    }
}

/// Walks the usable, page-aligned runs of a UEFI memory map.
#[derive(Clone, Copy, Debug)]
pub struct UsableRegions<'a> {
    regions: &'a [MemoryRegion],
    index: usize,
}

impl<'a> UsableRegions<'a> {
    /// The walk has not left the map.
    pub closed spec fn wf(&self) -> bool {
        self.index <= self.regions@.len()
    }

    /// The runs still to come.
    pub closed spec fn view(&self) -> Seq<FrameRun> {
        usable_runs(self.regions@.skip(self.index as int))
    }

    pub fn new(regions: &'a [MemoryRegion]) -> (runs: Self)
        ensures
            runs.wf(),
            runs@ == usable_runs(regions@),
    {
        assert(regions@.skip(0) == regions@);
        UsableRegions { regions, index: 0 }
    }

    /// The next run, or `None` once the map is used up.
    pub fn next(&mut self) -> (run: Option<FrameRun>)
        requires
            old(self).wf(),
        ensures
            final(self).wf(),
            match run {
                Some(run) => old(self)@.len() > 0 && run == old(self)@[0] && final(self)@
                    == old(self)@.drop_first(),
                None => old(self)@.len() == 0 && final(self)@ == old(self)@,
            },
    {
        let ghost runs = self@;
        while self.index < self.regions.len()
            invariant
                self.wf(),
                self@ == runs,
                runs == old(self)@,
            decreases self.regions@.len() - self.index,
        {
            let ghost rest = self.regions@.skip(self.index as int);
            let region: MemoryRegion = self.regions[self.index];
            self.index += 1;
            proof {
                assert(rest.drop_first() == self.regions@.skip(self.index as int));
                assert(rest[0] == region);
                crate::align::lemma_align(
                    region.start + region.pages * PAGE_SIZE,
                    PAGE_SIZE as int,
                );
                let floor = if region.start < PAGE_SIZE {
                    PAGE_SIZE as int
                } else {
                    region.start as int
                };
                crate::align::lemma_align(floor, PAGE_SIZE as int);
                assert(runs == usable_runs(rest));
            }

            if !region.is_usable() {
                continue;
            }
            // This data crossed a program boundary and is not trusted. A
            // descriptor whose span overflows is skipped rather than wrapped
            // around into a bogus low run.

            let span: u64 = match region.pages.checked_mul(PAGE_SIZE) {
                Some(span) => span,
                None => continue,
            };
            let end: u64 = match region.start.checked_add(span) {
                Some(end) => end,
                None => continue,
            };

            // Never yield the frame at physical 0: a null frame would make
            // "no frame" and "the first frame" indistinguishable.
            let floor: u64 = if region.start < PAGE_SIZE {
                PAGE_SIZE
            } else {
                region.start
            };
            let start: u64 = match checked_next_multiple_of(floor, PAGE_SIZE) {
                Some(start) => start,
                None => continue,
            };
            let end: u64 = end - (end % PAGE_SIZE);

            // Rounding inward can consume the whole region.
            if end <= start {
                continue;
            }
            let run = FrameRun { start, frames: (end - start) / PAGE_SIZE };
            assert(run_of(region) == Some(run));
            assert(runs.drop_first() == self@);
            return Some(run);
        }
        assert(self.regions@.skip(self.index as int) == Seq::<MemoryRegion>::empty());
        None
    }
}

/// The root handoff value. The bootloader keeps it in memory that outlives
/// the firmware's boot services.
#[derive(Clone, Copy, Debug)]
pub struct BootInfo {
    pub magic: u64,
    pub version: u32,
    pub framebuffer: FrameBufferInfo,
    /// Address of an array of [`MemoryRegion`], valid for
    /// `memory_regions_len` entries.
    pub memory_regions_ptr: u64,
    pub memory_regions_len: u64,
    /// Lowest physical address of the loaded kernel image, and its span.
    pub kernel_base: u64,
    pub kernel_size: u64,
}

impl BootInfo {
    pub fn new(
        framebuffer: FrameBufferInfo,
        memory_regions_ptr: u64,
        memory_regions_len: u64,
        kernel_base: u64,
        kernel_size: u64,
    ) -> (info: Self)
        ensures
            info == (BootInfo {
                magic: BOOT_INFO_MAGIC,
                version: BOOT_INFO_VERSION,
                framebuffer,
                memory_regions_ptr,
                memory_regions_len,
                kernel_base,
                kernel_size,
            }),
    {
        BootInfo {
            magic: BOOT_INFO_MAGIC,
            version: BOOT_INFO_VERSION,
            framebuffer,
            memory_regions_ptr,
            memory_regions_len,
            kernel_base,
            kernel_size,
        }
    }

    /// The kernel may trust this value.
    pub open spec fn valid(self) -> bool {
        &&& self.magic == BOOT_INFO_MAGIC
        &&& self.version == BOOT_INFO_VERSION
        &&& format_of_raw(self.framebuffer.pixel_format_raw) is Some
    }

    /// True if this value came from a bootloader built against a compatible
    /// version of this library, and its pixel format is a known one. The
    /// kernel must not read anything else in it unless this is true.
    pub fn is_valid(&self) -> (valid: bool)
        ensures
            valid == self.valid(),
    {
        self.magic == BOOT_INFO_MAGIC && self.version == BOOT_INFO_VERSION
            && self.framebuffer.pixel_format().is_some()
    }
}

/// What the bootloader builds, the kernel accepts, whatever the numbers
/// filled in.
pub proof fn a_new_boot_info_is_valid(
    format: PixelFormatKind,
    info: BootInfo,
)
    requires
        info.magic == BOOT_INFO_MAGIC,
        info.version == BOOT_INFO_VERSION,
        info.framebuffer.pixel_format_raw == format.raw(),
    ensures
        info.valid(),
{
}

/// In the handoff the number 0 stands for red first and 1 for blue first,
/// and no other number stands for a format.
pub proof fn two_numbers_stand_for_formats(value: u32)
    ensures
        format_of_raw(value) == Some(PixelFormatKind::Rgb) <==> value == 0,
        format_of_raw(value) == Some(PixelFormatKind::Bgr) <==> value == 1,
        format_of_raw(value) is None <==> value >= 2,
        PixelFormatKind::Rgb.raw() == 0,
        PixelFormatKind::Bgr.raw() == 1,
{
}

/// A handoff is trusted exactly if it spells the magic, has the first
/// version, and names a known format; nothing else in it matters.
pub proof fn a_handoff_is_trusted_for_three_numbers(info: BootInfo, other: BootInfo)
    ensures
        info.valid() <==> info.magic == 0x5255_5354_425f_4c30 && info.version == 1
            && info.framebuffer.pixel_format_raw <= 1,
        info.magic == other.magic && info.version == other.version
            && info.framebuffer.pixel_format_raw == other.framebuffer.pixel_format_raw ==> (
        info.valid() <==> other.valid()),
{
}

/// Memory of any other kind, and a region that leaves the address space, has
/// no run; a region that has a whole page past address zero has one.
pub proof fn a_region_has_a_run_if_it_has_a_page(region: MemoryRegion, page: int)
    ensures
        region.kind != 7 ==> run_of(region) is None,
        region.start + region.pages * 4096 >= 0x1_0000_0000_0000_0000 ==> run_of(region) is None,
        region.kind == 7 && region.start + region.pages * 4096 < 0x1_0000_0000_0000_0000 && page
            % 4096 == 0 && page >= 4096 && region.start <= page && page + 4096 <= region.start
            + region.pages * 4096 ==> run_of(region) is Some && run_of(region)->0.start <= page
            && page < run_of(region)->0.start + run_of(region)->0.frames * 4096,
        run_of(region) matches Some(run) ==> {
            &&& run.start % 4096 == 0
            &&& run.start >= 4096
            &&& run.start >= region.start
            &&& run.frames > 0
            &&& run.start + run.frames * 4096 <= region.start + region.pages * 4096
        },
{
    run_is_well_formed(region);
    if region.kind == MemoryRegion::CONVENTIONAL && region.start + region.pages * PAGE_SIZE
        <= u64::MAX {
        run_holds_the_pages_of_its_region(region, page);
    }
}

/// The runs of a map are those of its regions, in their order: a map in two
/// parts has the runs of the one and then those of the other, and a map of
/// one region has the run of that region.
pub proof fn the_runs_of_a_map_follow_its_regions(
    one: Seq<MemoryRegion>,
    two: Seq<MemoryRegion>,
    region: MemoryRegion,
)
    ensures
        usable_runs(one + two) == usable_runs(one) + usable_runs(two),
        usable_runs(seq![region]) == (match run_of(region) {
            Some(run) => seq![run],
            None => Seq::empty(),
        }),
    decreases one.len(),
{
    reveal_with_fuel(usable_runs, 2);
    assert(seq![region].drop_first() =~= Seq::<MemoryRegion>::empty());
    assert(usable_runs(seq![region]) =~= (match run_of(region) {
        Some(run) => seq![run],
        None => Seq::empty(),
    }));
    if one.len() == 0 {
        assert(one + two =~= two);
        assert(usable_runs(one) + usable_runs(two) =~= usable_runs(two));
    } else {
        the_runs_of_a_map_follow_its_regions(one.drop_first(), two, region);
        assert((one + two).drop_first() =~= one.drop_first() + two);
        assert(usable_runs(one + two) =~= usable_runs(one) + usable_runs(two));
    }
}

} // verus!
