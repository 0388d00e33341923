//! A minimal ELF64 loader.
//!
//! Only what a static, non-relocatable x86-64 kernel needs: validate the
//! header, walk the program headers, and place every `PT_LOAD` segment at
//! the physical address it asked for. No relocations, no dynamic linking, no
//! section headers: a linked `ET_EXEC` image needs none of them.
//!
//! Claiming pages is the firmware's business. [`Loader`] decides, segment by
//! segment, what to claim and when the load is over or the image is bad; its
//! caller claims the pages and has [`load_segment`] fill them.

use vstd::prelude::*;

verus! {

/// 4 KiB, the only page size this loader uses.
pub const PAGE_SIZE: u64 = 4096;

/// `ELFCLASS64`.
const CLASS_64: u8 = 2;

/// `ELFDATA2LSB`.
const LITTLE_ENDIAN: u8 = 1;

/// `ET_EXEC`.
const EXECUTABLE: u16 = 2;

/// `EM_X86_64`.
const X86_64: u16 = 0x3e;

/// `PT_LOAD`.
const LOADABLE: u32 = 1;

/// The size of the ELF header.
pub const EHDR_SIZE: u64 = 64;

/// The size of one program header.
pub const PHDR_SIZE: u64 = 56;

/// Why an image was not loaded.
#[derive(Debug, Clone, Copy, PartialEq, Eq, Structural)]
pub enum ElfError {
    TooSmall,
    BadMagic,
    Not64Bit,
    NotLittleEndian,
    NotExecutable,
    WrongArchitecture,
    BadProgramHeaders,
    /// A segment claimed more bytes in the file than the file contains, or
    /// more memory than there are addresses.
    SegmentOutOfBounds,
    /// `p_filesz` exceeded `p_memsz`, which is malformed.
    SegmentTooLarge,
    /// No `PT_LOAD` segments at all: nothing to load.
    NoLoadableSegments,
    /// The firmware refused the pages the segment asked for.
    AllocationFailed,
    /// The entry point lies outside everything that was loaded.
    EntryOutOfRange,
}

/// Where a loaded kernel ended up in physical memory.
#[derive(Debug, Clone, Copy, PartialEq, Eq, Structural)]
pub struct LoadedKernel {
    /// Virtual (here: physical, under the identity mapping) entry point.
    pub entry: u64,
    /// Lowest address of any loaded segment, rounded down to a page.
    pub base: u64,
    /// Span from `base` to the end of the highest segment.
    pub size: u64,
}

/// One `PT_LOAD` program header, after parsing.
#[derive(Debug, Clone, Copy, PartialEq, Eq, Structural)]
pub struct LoadSegment {
    pub offset: u64,
    pub vaddr: u64,
    pub filesz: u64,
    pub memsz: u64,
}

/// Pages to claim, at exactly this address.
#[derive(Debug, Clone, Copy, PartialEq, Eq, Structural)]
pub struct PageRequest {
    pub start: u64,
    pub pages: u64,
}

/// What the loader needs of the ELF header.
#[derive(Debug, Clone, Copy, PartialEq, Eq, Structural)]
pub struct ElfHeader {
    pub entry: u64,
    pub phoff: u64,
    pub phentsize: u16,
    pub phnum: u16,
}

/// The little-endian 16-bit number at `at`.
pub open spec fn le16(bytes: Seq<u8>, at: int) -> int {
    bytes[at] + bytes[at + 1] * 0x100
}

/// The little-endian 32-bit number at `at`.
pub open spec fn le32(bytes: Seq<u8>, at: int) -> int {
    le16(bytes, at) + le16(bytes, at + 2) * 0x1_0000
}

/// The little-endian 64-bit number at `at`.
pub open spec fn le64(bytes: Seq<u8>, at: int) -> int {
    le32(bytes, at) + le32(bytes, at + 4) * 0x1_0000_0000
}

/// Read the little-endian `u16` at `offset`, or `None` if the slice is too
/// short.
pub fn read_u16(bytes: &[u8], offset: u64) -> (value: Option<u16>)
    ensures
        match value {
            Some(value) => offset + 2 <= bytes@.len() && value == le16(bytes@, offset as int),
            None => offset + 2 > bytes@.len(),
        },
{
    let len: u64 = bytes.len() as u64;
    if len < 2 || offset > len - 2 {
        return None;
    }
    let at: usize = offset as usize;
    Some(bytes[at] as u16 + bytes[at + 1] as u16 * 0x100)
}

/// Read the little-endian `u32` at `offset`, or `None` if the slice is too
/// short.
pub fn read_u32(bytes: &[u8], offset: u64) -> (value: Option<u32>)
    ensures
        match value {
            Some(value) => offset + 4 <= bytes@.len() && value == le32(bytes@, offset as int),
            None => offset + 4 > bytes@.len(),
        },
{
    let len: u64 = bytes.len() as u64;
    if len < 4 || offset > len - 4 {
        return None;
    }
    match (read_u16(bytes, offset), read_u16(bytes, offset + 2)) {
        (Some(low), Some(high)) => Some(low as u32 + high as u32 * 0x1_0000),
        _ => None,
    }
}

/// Read the little-endian `u64` at `offset`, or `None` if the slice is too
/// short.
pub fn read_u64(bytes: &[u8], offset: u64) -> (value: Option<u64>)
    ensures
        match value {
            Some(value) => offset + 8 <= bytes@.len() && value == le64(bytes@, offset as int),
            None => offset + 8 > bytes@.len(),
        },
{
    let len: u64 = bytes.len() as u64;
    if len < 8 || offset > len - 8 {
        return None;
    }
    match (read_u32(bytes, offset), read_u32(bytes, offset + 4)) {
        (Some(low), Some(high)) => Some(low as u64 + high as u64 * 0x1_0000_0000),
        _ => None,
    }
}

/// The image starts with the ELF magic.
pub open spec fn has_magic(image: Seq<u8>) -> bool {
    image[0] == 0x7f && image[1] == 0x45 && image[2] == 0x4c && image[3] == 0x46
}

/// What the ELF header of an image says, or why it is refused.
pub open spec fn header_of(image: Seq<u8>) -> Result<ElfHeader, ElfError> {
    if image.len() < EHDR_SIZE {
        Err(ElfError::TooSmall)
    } else if !has_magic(image) {
        Err(ElfError::BadMagic)
    } else if image[4] != 2 {
        Err(ElfError::Not64Bit)
    } else if image[5] != 1 {
        Err(ElfError::NotLittleEndian)
    } else if le16(image, 16) != 2 {
        Err(ElfError::NotExecutable)
    } else if le16(image, 18) != 0x3e {
        Err(ElfError::WrongArchitecture)
    } else if le16(image, 54) != PHDR_SIZE {
        Err(ElfError::BadProgramHeaders)
    } else {
        Ok(
            ElfHeader {
                entry: le64(image, 24) as u64,
                phoff: le64(image, 32) as u64,
                phentsize: le16(image, 54) as u16,
                phnum: le16(image, 56) as u16,
            },
        )
    }
}

/// Validate the ELF header.
pub fn parse_header(image: &[u8]) -> (header: Result<ElfHeader, ElfError>)
    ensures
        header == header_of(image@),
{
    if (image.len() as u64) < EHDR_SIZE {
        return Err(ElfError::TooSmall);
    }
    if image[0] != 0x7f || image[1] != 0x45 || image[2] != 0x4c || image[3] != 0x46 {
        return Err(ElfError::BadMagic);
    }
    if image[4] != CLASS_64 {
        return Err(ElfError::Not64Bit);
    }
    if image[5] != LITTLE_ENDIAN {
        return Err(ElfError::NotLittleEndian);
    }
    let kind: u16 = match read_u16(image, 16) {
        Some(kind) => kind,
        None => return Err(ElfError::TooSmall),
    };
    if kind != EXECUTABLE {
        // A position-independent kernel would need relocations, which this
        // loader does not process.
        return Err(ElfError::NotExecutable);
    }
    let machine: u16 = match read_u16(image, 18) {
        Some(machine) => machine,
        None => return Err(ElfError::TooSmall),
    };
    if machine != X86_64 {
        return Err(ElfError::WrongArchitecture);
    }
    match (
        read_u64(image, 24),
        read_u64(image, 32),
        read_u16(image, 54),
        read_u16(image, 56),
    ) {
        (Some(entry), Some(phoff), Some(phentsize), Some(phnum)) => {
            if phentsize as u64 != PHDR_SIZE {
                return Err(ElfError::BadProgramHeaders);
            }
            Ok(ElfHeader { entry, phoff, phentsize, phnum })
        },
        _ => Err(ElfError::TooSmall),
    }
}

/// What the loadable program header at byte `base` of the image says.
pub open spec fn fields_at(image: Seq<u8>, base: int) -> LoadSegment {
    LoadSegment {
        offset: le64(image, base + 8) as u64,
        vaddr: le64(image, base + 16) as u64,
        filesz: le64(image, base + 32) as u64,
        memsz: le64(image, base + 40) as u64,
    }
}

/// What program header `index` asks for: a segment, nothing if it is not
/// loadable, or a reason to refuse the image.
#[verifier::opaque]
pub open spec fn segment_of(image: Seq<u8>, header: ElfHeader, index: int) -> Result<
    Option<LoadSegment>,
    ElfError,
> {
    let base = header.phoff + index * PHDR_SIZE;
    let segment = fields_at(image, base);
    if base + PHDR_SIZE > image.len() {
        Err(ElfError::BadProgramHeaders)
    } else if le32(image, base) != 1 {
        Ok(None)
    } else if segment.filesz > segment.memsz {
        Err(ElfError::SegmentTooLarge)
    } else if segment.offset + segment.filesz > image.len() {
        Err(ElfError::SegmentOutOfBounds)
    } else if segment.vaddr + segment.memsz > u64::MAX {
        Err(ElfError::SegmentOutOfBounds)
    } else {
        Ok(Some(segment))
    }
}

/// A segment that a program header asks for has its bytes in the file, no
/// more of them than it takes in memory, and ends inside the address space.
pub proof fn a_segment_is_backed_and_addressable(
    image: Seq<u8>,
    header: ElfHeader,
    index: int,
    segment: LoadSegment,
)
    requires
        segment_of(image, header, index) == Ok::<Option<LoadSegment>, ElfError>(Some(segment)),
    ensures
        segment.filesz <= segment.memsz,
        segment.offset + segment.filesz <= image.len(),
        segment.addressable(),
{
    reveal(segment_of);
}

/// Read program header `index`.
pub fn read_segment(image: &[u8], header: &ElfHeader, index: u16) -> (segment: Result<
    Option<LoadSegment>,
    ElfError,
>)
    requires
        header.phentsize == PHDR_SIZE,
    ensures
        segment == segment_of(image@, *header, index as int),
        segment matches Ok(Some(segment)) ==> {
            &&& segment.filesz <= segment.memsz
            &&& segment.offset + segment.filesz <= image@.len()
            &&& segment.addressable()
        },
{
    proof {
        reveal(segment_of);
    }
    let len: u64 = image.len() as u64;

    // A crafted `e_phoff` must not be able to wrap the computation and land
    // somewhere bogus but in bounds.
    let base: u64 = match header.phoff.checked_add(index as u64 * header.phentsize as u64) {
        Some(base) => base,
        None => return Err(ElfError::BadProgramHeaders),
    };

    // The whole header must be present before any of its fields is read.
    let header_end: u64 = match base.checked_add(PHDR_SIZE) {
        Some(end) => end,
        None => return Err(ElfError::BadProgramHeaders),
    };
    if header_end > len {
        return Err(ElfError::BadProgramHeaders);
    }
    match read_u32(image, base) {
        Some(kind) => {
            if kind != LOADABLE {
                return Ok(None);
            }
        },
        None => return Err(ElfError::BadProgramHeaders),
    }
    let segment = match (
        read_u64(image, base + 8),
        read_u64(image, base + 16),
        read_u64(image, base + 32),
        read_u64(image, base + 40),
    ) {
        (Some(offset), Some(vaddr), Some(filesz), Some(memsz)) => LoadSegment {
            offset,
            vaddr,
            filesz,
            memsz,
        },
        _ => return Err(ElfError::BadProgramHeaders),
    };
    if segment.filesz > segment.memsz {
        return Err(ElfError::SegmentTooLarge);
    }
    match segment.offset.checked_add(segment.filesz) {
        Some(file_end) => {
            if file_end > len {
                return Err(ElfError::SegmentOutOfBounds);
            }
        },
        None => return Err(ElfError::SegmentOutOfBounds),
    }
    match segment.vaddr.checked_add(segment.memsz) {
        Some(_) => Ok(Some(segment)),
        None => Err(ElfError::SegmentOutOfBounds),
    }
}

/// Round an address down to its page.
pub fn align_down(value: u64) -> (page: u64)
    ensures
        page == crate::align::align_down(value as int, PAGE_SIZE as int),
{
    assert(value & !(0xfffu64) == value - value % 4096) by (bit_vector);
    value & !(0xfffu64)
}

impl LoadSegment {
    /// The page the segment starts in.
    pub open spec fn page_start(self) -> int {
        crate::align::align_down(self.vaddr as int, PAGE_SIZE as int)
    }

    /// How far into its first page the segment starts.
    pub open spec fn padding(self) -> int {
        (self.vaddr % PAGE_SIZE) as int
    }

    /// One past the segment's last byte in memory.
    pub open spec fn end(self) -> int {
        self.vaddr + self.memsz
    }

    /// The segment's memory ends inside the address space.
    pub open spec fn addressable(self) -> bool {
        self.end() <= u64::MAX
    }

    /// The pages the segment needs: none if it is empty and starts a page,
    /// else all from its first page to its end.
    pub open spec fn request(self) -> Option<PageRequest> {
        if self.padding() + self.memsz == 0 {
            None
        } else {
            Some(
                PageRequest {
                    start: self.page_start() as u64,
                    pages: ((self.padding() + self.memsz + PAGE_SIZE - 1) / PAGE_SIZE as int) as u64,
                },
            )
        }
    }
}

/// The pages `segment` needs, if it needs any.
///
/// `p_vaddr` need not be page aligned, but the firmware hands out whole
/// pages, so the request starts at the page the segment starts in. A legal
/// but empty segment needs no pages at all: the firmware rejects a count of
/// zero. A segment that is longer than the address space is refused here
/// too, whoever calls.
pub fn page_request(segment: &LoadSegment) -> (request: Result<Option<PageRequest>, ElfError>)
    ensures
        request == (if segment.padding() + segment.memsz > u64::MAX {
            Err(ElfError::SegmentOutOfBounds)
        } else {
            Ok(segment.request())
        }),
{
    let page_start: u64 = align_down(segment.vaddr);
    let padding: u64 = segment.vaddr - page_start;
    let total: u64 = match padding.checked_add(segment.memsz) {
        Some(total) => total,
        None => return Err(ElfError::SegmentOutOfBounds),
    };
    if total == 0 {
        return Ok(None);
    }
    let pages: u64 = (total - 1) / PAGE_SIZE + 1;
    assert((total + PAGE_SIZE - 1) / PAGE_SIZE as int == pages);
    Ok(Some(PageRequest { start: page_start, pages }))
}

/// A segment's pages start at its page, hold all of it, and end less than
/// one page after it.
pub proof fn request_covers_the_segment(segment: LoadSegment)
    requires
        segment.addressable(),
    ensures
        segment.request() matches Some(request) ==> {
            &&& request.start % PAGE_SIZE == 0
            &&& request.pages > 0
            &&& request.start <= segment.vaddr
            &&& segment.vaddr < request.start + PAGE_SIZE
            &&& segment.end() <= request.start + request.pages * PAGE_SIZE
            &&& request.start + request.pages * PAGE_SIZE < segment.end() + PAGE_SIZE
        },
        segment.request() is None ==> segment.memsz == 0,
{
}

/// What the pages of a segment hold once it is placed: its bytes from the
/// file at its own address, and zeros before and after them.
pub open spec fn placed_bytes(image: Seq<u8>, segment: LoadSegment, len: nat) -> Seq<u8> {
    Seq::new(
        len,
        |i: int|
            if segment.padding() <= i < segment.padding() + segment.filesz {
                image[segment.offset + i - segment.padding()]
            } else {
                0u8
            },
    )
}

/// Put one segment into place, once the firmware has answered the request
/// for its pages; `pages` is what it granted.
///
/// Everything is zeroed first. That covers the padding at the front, the
/// `.bss` tail at the back and any gap in between. Then the file's bytes go
/// in at the segment's own address.
pub fn load_segment(image: &[u8], segment: &LoadSegment, granted: bool, pages: &mut [u8]) -> (outcome:
    Result<(), ElfError>)
    requires
        segment.filesz <= segment.memsz,
        segment.offset + segment.filesz <= image@.len(),
        segment.padding() + segment.memsz <= u64::MAX && granted ==> (segment.request() matches Some(
            request,
        ) ==> old(pages)@.len() == request.pages * PAGE_SIZE),
    ensures
        outcome == (if segment.padding() + segment.memsz > u64::MAX {
            Err(ElfError::SegmentOutOfBounds)
        } else if segment.request() is Some && !granted {
            Err(ElfError::AllocationFailed)
        } else {
            Ok(())
        }),
        final(pages)@ == (if outcome is Ok && segment.request() is Some {
            placed_bytes(image@, *segment, old(pages)@.len())
        } else {
            old(pages)@
        }),
{
    match page_request(segment) {
        Err(error) => return Err(error),
        Ok(None) => return Ok(()),
        Ok(Some(_)) => {},
    }
    if !granted {
        return Err(ElfError::AllocationFailed);
    }
    let len: usize = pages.len();
    let mut i: usize = 0;
    while i < len
        invariant
            i <= len,
            len == pages@.len(),
            len == old(pages)@.len(),
            forall|k: int| 0 <= k < i ==> #[trigger] pages@[k] == 0,
        decreases len - i,
    {
        pages[i] = 0;
        i += 1;
    }
    let padding: u64 = segment.vaddr - align_down(segment.vaddr);
    let ghost placed = placed_bytes(image@, *segment, len as nat);
    let image_len: usize = image.len();
    let mut done: u64 = 0;
    while done < segment.filesz
        invariant
            done <= segment.filesz,
            len == pages@.len(),
            len == old(pages)@.len(),
            padding == segment.padding(),
            padding + segment.filesz <= len,
            segment.offset + segment.filesz <= image_len,
            image_len == image@.len(),
            placed == placed_bytes(image@, *segment, len as nat),
            forall|k: int|
                0 <= k < len ==> #[trigger] pages@[k] == (if k < padding + done {
                    placed[k]
                } else {
                    0
                }),
        decreases segment.filesz - done,
    {
        let to: usize = (padding + done) as usize;
        let from: usize = (segment.offset + done) as usize;
        pages[to] = image[from];
        done = done + 1;
    }
    assert(pages@ =~= placed);
    Ok(())
}

/// The lowest page and the highest end loaded so far, if anything is.
pub open spec fn widened(span: Option<(u64, u64)>, segment: LoadSegment) -> (u64, u64) {
    let start = segment.page_start() as u64;
    let end = segment.end() as u64;
    match span {
        None => (start, end),
        Some((lowest, highest)) => (
            if start < lowest { start } else { lowest },
            if end > highest { end } else { highest },
        ),
    }
}

/// What a load ends in from program header `index` on, if the firmware
/// grants `granted` more page requests and refuses the next.
pub open spec fn outcome_from(
    image: Seq<u8>,
    header: ElfHeader,
    index: int,
    span: Option<(u64, u64)>,
    granted: int,
) -> Result<LoadedKernel, ElfError>
    decreases header.phnum - index,
{
    if index >= header.phnum {
        match span {
            None => Err(ElfError::NoLoadableSegments),
            Some((lowest, highest)) => if lowest <= header.entry < highest {
                Ok(
                    LoadedKernel {
                        entry: header.entry,
                        base: lowest,
                        size: (highest - lowest) as u64,
                    },
                )
            } else {
                Err(ElfError::EntryOutOfRange)
            },
        }
    } else {
        match segment_of(image, header, index) {
            Err(error) => Err(error),
            Ok(None) => outcome_from(image, header, index + 1, span, granted),
            Ok(Some(segment)) => if segment.request() is None {
                outcome_from(image, header, index + 1, Some(widened(span, segment)), granted)
            } else if granted <= 0 {
                Err(ElfError::AllocationFailed)
            } else {
                outcome_from(image, header, index + 1, Some(widened(span, segment)), granted - 1)
            },
        }
    }
}

/// What loading an image ends in, if the firmware grants the first `granted`
/// page requests.
pub open spec fn load_outcome(image: Seq<u8>, granted: int) -> Result<LoadedKernel, ElfError> {
    match header_of(image) {
        Err(error) => Err(error),
        Ok(header) => outcome_from(image, header, 0, None, granted),
    }
}

/// The segments that are put into place from program header `index` on, in
/// order, if the firmware grants `granted` more page requests and refuses
/// the next. A segment that needs no pages has nothing to place.
pub open spec fn placed_from(
    image: Seq<u8>,
    header: ElfHeader,
    index: int,
    granted: int,
) -> Seq<LoadSegment>
    decreases header.phnum - index,
{
    if index >= header.phnum {
        Seq::empty()
    } else {
        match segment_of(image, header, index) {
            Err(_) => Seq::empty(),
            Ok(None) => placed_from(image, header, index + 1, granted),
            Ok(Some(segment)) => if segment.request() is None {
                placed_from(image, header, index + 1, granted)
            } else if granted <= 0 {
                Seq::empty()
            } else {
                seq![segment] + placed_from(image, header, index + 1, granted - 1)
            },
        }
    }
}

/// The segments that loading an image puts into place, if the firmware
/// grants the first `granted` page requests.
pub open spec fn placed_segments(image: Seq<u8>, granted: int) -> Seq<LoadSegment> {
    match header_of(image) {
        Err(_) => Seq::empty(),
        Ok(header) => placed_from(image, header, 0, granted),
    }
}

/// The first program header from `index` on that asks for a segment or is
/// refused, or the number of headers if there is none.
pub open spec fn next_loadable(image: Seq<u8>, header: ElfHeader, index: int) -> int
    decreases header.phnum - index,
{
    if index >= header.phnum {
        header.phnum as int
    } else if segment_of(image, header, index) == Ok::<Option<LoadSegment>, ElfError>(None) {
        next_loadable(image, header, index + 1)
    } else {
        index
    }
}

/// A load in progress.
pub struct Loader {
    header: ElfHeader,
    index: u16,
    span: Option<(u64, u64)>,
}

/// What a load needs next.
#[derive(Debug, Clone, Copy, PartialEq, Eq, Structural)]
pub enum LoadStep {
    /// Claim the pages of this segment, if it needs any, and place it.
    Place(LoadSegment),
    /// Everything is in place.
    Finished(LoadedKernel),
    /// The image is bad.
    Rejected(ElfError),
}

impl Loader {
    /// The loader's state makes sense.
    pub closed spec fn wf(&self) -> bool {
        &&& self.header.phentsize == PHDR_SIZE
        &&& self.index <= self.header.phnum
        &&& self.span matches Some((lowest, highest)) ==> lowest <= highest
    }

    /// What the load will end in, if the firmware grants `granted` more page
    /// requests.
    pub closed spec fn outcome(&self, image: Seq<u8>, granted: int) -> Result<
        LoadedKernel,
        ElfError,
    > {
        outcome_from(image, self.header, self.index as int, self.span, granted)
    }

    /// The segments that will still be put into place, if the firmware
    /// grants `granted` more page requests.
    pub closed spec fn placed(&self, image: Seq<u8>, granted: int) -> Seq<LoadSegment> {
        placed_from(image, self.header, self.index as int, granted)
    }

    /// What the ELF header says.
    pub closed spec fn header(&self) -> ElfHeader {
        self.header
    }

    /// The next program header to read.
    pub closed spec fn position(&self) -> int {
        self.index as int
    }

    /// Start loading `image`.
    pub fn new(image: &[u8]) -> (loader: Result<Loader, ElfError>)
        ensures
            match loader {
                Ok(loader) => {
                    &&& loader.wf()
                    &&& header_of(image@) == Ok::<ElfHeader, ElfError>(loader.header())
                    &&& loader.position() == 0
                    &&& forall|granted: int| #[trigger]
                        loader.outcome(image@, granted) == load_outcome(image@, granted)
                    &&& forall|granted: int| #[trigger]
                        loader.placed(image@, granted) == placed_segments(image@, granted)
                },
                Err(error) => header_of(image@) == Err::<ElfHeader, ElfError>(error),
            },
    {
        match parse_header(image) {
            Ok(header) => Ok(Loader { header, index: 0, span: None }),
            Err(error) => Err(error),
        }
    }

    /// Read on to the next segment to place, or to the end.
    pub fn next(&mut self, image: &[u8]) -> (step: LoadStep)
        requires
            old(self).wf(),
        ensures
            final(self).wf(),
            final(self).header() == old(self).header(),
            match step {
                LoadStep::Place(segment) => {
                    let at = next_loadable(image@, old(self).header(), old(self).position());
                    &&& segment_of(image@, old(self).header(), at) == Ok::<
                        Option<LoadSegment>,
                        ElfError,
                    >(Some(segment))
                    &&& old(self).position() <= at < final(self).header().phnum
                    &&& final(self).position() == at + 1
                    &&& segment.filesz <= segment.memsz
                    &&& segment.offset + segment.filesz <= image@.len()
                    &&& segment.addressable()
                    &&& forall|granted: int| #[trigger]
                        old(self).outcome(image@, granted) == (if segment.request() is None {
                            final(self).outcome(image@, granted)
                        } else if granted <= 0 {
                            Err(ElfError::AllocationFailed)
                        } else {
                            final(self).outcome(image@, granted - 1)
                        })
                    &&& forall|granted: int| #[trigger]
                        old(self).placed(image@, granted) == (if segment.request() is None {
                            final(self).placed(image@, granted)
                        } else if granted <= 0 {
                            Seq::empty()
                        } else {
                            seq![segment] + final(self).placed(image@, granted - 1)
                        })
                },
                LoadStep::Finished(kernel) => {
                    &&& forall|granted: int| #[trigger]
                        old(self).outcome(image@, granted) == Ok::<LoadedKernel, ElfError>(kernel)
                    &&& forall|granted: int| #[trigger]
                        old(self).placed(image@, granted) == Seq::<LoadSegment>::empty()
                },
                LoadStep::Rejected(error) => {
                    &&& forall|granted: int| #[trigger]
                        old(self).outcome(image@, granted) == Err::<LoadedKernel, ElfError>(error)
                    &&& forall|granted: int| #[trigger]
                        old(self).placed(image@, granted) == Seq::<LoadSegment>::empty()
                },
            },
    {
        while self.index < self.header.phnum
            invariant
                self.wf(),
                self.header == old(self).header,
                old(self).position() <= self.position(),
                next_loadable(image@, self.header, self.index as int) == next_loadable(
                    image@,
                    self.header,
                    old(self).index as int,
                ),
                forall|granted: int| #[trigger]
                    old(self).outcome(image@, granted) == self.outcome(image@, granted),
                forall|granted: int| #[trigger]
                    old(self).placed(image@, granted) == self.placed(image@, granted),
            decreases self.header.phnum - self.index,
        {
            let ghost here = *self;
            let found = read_segment(image, &self.header, self.index);
            self.index = self.index + 1;
            match found {
                Err(error) => return LoadStep::Rejected(error),
                Ok(None) => {
                    assert forall|granted: int| #[trigger]
                        old(self).outcome(image@, granted) == self.outcome(image@, granted) by {
                        assert(old(self).outcome(image@, granted) == here.outcome(image@, granted));
                    }
                    assert forall|granted: int| #[trigger]
                        old(self).placed(image@, granted) == self.placed(image@, granted) by {
                        assert(old(self).placed(image@, granted) == here.placed(image@, granted));
                    }
                },
                Ok(Some(segment)) => {
                    let seg_start: u64 = align_down(segment.vaddr);
                    let seg_end: u64 = segment.vaddr + segment.memsz;
                    self.span = match self.span {
                        None => Some((seg_start, seg_end)),
                        Some((lowest, highest)) => Some(
                            (
                                if seg_start < lowest {
                                    seg_start
                                } else {
                                    lowest
                                },
                                if seg_end > highest {
                                    seg_end
                                } else {
                                    highest
                                },
                            ),
                        ),
                    };
                    proof {
                        assert(self.span == Some(widened(here.span, segment)));
                        assert forall|granted: int| #[trigger]
                            old(self).outcome(image@, granted) == (if segment.request() is None {
                                self.outcome(image@, granted)
                            } else if granted <= 0 {
                                Err(ElfError::AllocationFailed)
                            } else {
                                self.outcome(image@, granted - 1)
                            }) by {
                            assert(old(self).outcome(image@, granted) == here.outcome(
                                image@,
                                granted,
                            ));
                        }
                        assert forall|granted: int| #[trigger]
                            old(self).placed(image@, granted) == (if segment.request() is None {
                                self.placed(image@, granted)
                            } else if granted <= 0 {
                                Seq::empty()
                            } else {
                                seq![segment] + self.placed(image@, granted - 1)
                            }) by {
                            assert(old(self).placed(image@, granted) == here.placed(
                                image@,
                                granted,
                            ));
                        }
                    }
                    return LoadStep::Place(segment);
                },
            }
        }
        match self.span {
            None => LoadStep::Rejected(ElfError::NoLoadableSegments),
            Some((lowest, highest)) => {
                if lowest <= self.header.entry && self.header.entry < highest {
                    LoadStep::Finished(
                        LoadedKernel {
                            entry: self.header.entry,
                            base: lowest,
                            size: highest - lowest,
                        },
                    )
                } else {
                    LoadStep::Rejected(ElfError::EntryOutOfRange)
                }
            },
        }
    }
}

/// The pages the firmware granted are as many as were asked for, request by
/// request.
pub open spec fn as_requested(image: Seq<u8>, granted: Seq<Vec<u8>>) -> bool {
    let placed = placed_segments(image, granted.len() as int);
    forall|k: int|
        0 <= k < placed.len() ==> (#[trigger] granted[k])@.len() == placed[k].request()->0.pages
            * PAGE_SIZE
}

/// Walk every `PT_LOAD` segment of `image`, put each into its pages, and
/// report where the kernel lands.
///
/// `granted` holds the pages that the firmware grants, one buffer for each
/// request in order; it refuses the request after the last. Whatever the
/// load ends in, each segment that got its pages is in them, and the other
/// buffers are as they were.
pub fn load_kernel(image: &[u8], granted: &mut Vec<Vec<u8>>) -> (kernel: Result<
    LoadedKernel,
    ElfError,
>)
    requires
        as_requested(image@, old(granted)@),
    ensures
        kernel == load_outcome(image@, old(granted)@.len() as int),
        final(granted)@.len() == old(granted)@.len(),
        ({
            let placed = placed_segments(image@, old(granted)@.len() as int);
            &&& placed.len() <= old(granted)@.len()
            &&& forall|k: int|
                0 <= k < placed.len() ==> (#[trigger] final(granted)@[k])@ == placed_bytes(
                    image@,
                    placed[k],
                    old(granted)@[k]@.len(),
                )
            &&& forall|k: int|
                placed.len() <= k < old(granted)@.len() ==> #[trigger] final(granted)@[k]
                    == old(granted)@[k]
        }),
{
    let ghost before = granted@;
    let ghost total = before.len() as int;
    let ghost placed = placed_segments(image@, total);
    let ghost mut done = Seq::<LoadSegment>::empty();
    let mut loader = match Loader::new(image) {
        Ok(loader) => loader,
        Err(error) => return Err(error),
    };
    assert(done + loader.placed(image@, total) =~= placed);
    let mut used: usize = 0;
    loop
        invariant
            loader.wf(),
            before == old(granted)@,
            total == before.len(),
            placed == placed_segments(image@, total),
            as_requested(image@, before),
            granted@.len() == total,
            used <= total,
            used == done.len(),
            loader.outcome(image@, total - used) == load_outcome(image@, total),
            placed == done + loader.placed(image@, total - used),
            forall|k: int|
                0 <= k < used ==> (#[trigger] granted@[k])@ == placed_bytes(
                    image@,
                    placed[k],
                    before[k]@.len(),
                ),
            forall|k: int| used <= k < total ==> #[trigger] granted@[k] == before[k],
        decreases loader.header().phnum - loader.position(),
    {
        let ghost here = loader;
        let step = loader.next(image);
        assert(here.outcome(image@, total - used) == load_outcome(image@, total));
        assert(placed == done + here.placed(image@, total - used));
        match step {
            LoadStep::Place(segment) => {
                match page_request(&segment) {
                    Ok(Some(_)) => {
                        if used == granted.len() {
                            assert(placed =~= done);
                            return Err(ElfError::AllocationFailed);
                        }
                        proof {
                            let rest = loader.placed(image@, total - used - 1);
                            assert(placed[used as int] == segment) by {
                                assert((done + (seq![segment] + rest))[used as int] == segment);
                            }
                            assert(granted@[used as int] == before[used as int]);
                            assert(placed =~= done.push(segment) + rest);
                            done = done.push(segment);
                        }
                        match load_segment(image, &segment, true, granted[used].as_mut_slice()) {
                            Ok(()) => {},
                            Err(error) => return Err(error),
                        }
                        used = used + 1;
                    },
                    Ok(None) => {},
                    Err(error) => return Err(error),
                }
            },
            LoadStep::Finished(kernel) => {
                assert(placed =~= done);
                return Ok(kernel);
            },
            LoadStep::Rejected(error) => {
                assert(placed =~= done);
                return Err(error);
            },
        }
    }
}

/// Program header `i` is sound, and the segment it asks for, if any, lies
/// between these two addresses.
pub open spec fn loaded_within(
    image: Seq<u8>,
    header: ElfHeader,
    i: int,
    lowest: int,
    end: int,
) -> bool {
    match segment_of(image, header, i) {
        Err(_) => false,
        Ok(None) => true,
        Ok(Some(segment)) => lowest <= segment.page_start() && segment.end() <= end,
    }
}

/// Program header `i` asks for a segment whose first page is this one.
pub open spec fn starts_at(image: Seq<u8>, header: ElfHeader, i: int, page: int) -> bool {
    segment_of(image, header, i) matches Ok(Some(segment)) && segment.page_start() == page
}

/// Program header `i` asks for a segment that ends here.
pub open spec fn ends_at(image: Seq<u8>, header: ElfHeader, i: int, end: int) -> bool {
    segment_of(image, header, i) matches Ok(Some(segment)) && segment.end() == end
}

/// What the rest of a successful load says: every header was sound, every
/// segment lies inside the result, and the result's bounds are those of the
/// span so far or of a segment.
#[verifier::spinoff_prover]
proof fn lemma_outcome_from(
    image: Seq<u8>,
    header: ElfHeader,
    index: int,
    span: Option<(u64, u64)>,
    granted: int,
    kernel: LoadedKernel,
)
    requires
        0 <= index,
        outcome_from(image, header, index, span, granted) == Ok::<LoadedKernel, ElfError>(kernel),
    ensures
        kernel.entry == header.entry,
        kernel.base <= kernel.entry < kernel.base + kernel.size,
        forall|i: int|
            index <= i < header.phnum ==> #[trigger] loaded_within(
                image,
                header,
                i,
                kernel.base as int,
                kernel.base + kernel.size,
            ),
        span matches Some((lowest, highest)) ==> kernel.base <= lowest && highest <= kernel.base
            + kernel.size,
        (span matches Some((lowest, highest)) && kernel.base == lowest) || exists|i: int|
            index <= i < header.phnum && #[trigger] starts_at(
                image,
                header,
                i,
                kernel.base as int,
            ),
        (span matches Some((lowest, highest)) && kernel.base + kernel.size == highest) || exists|
            i: int,
        |
            index <= i < header.phnum && #[trigger] ends_at(
                image,
                header,
                i,
                kernel.base + kernel.size,
            ),
    decreases header.phnum - index,
{
    if index < header.phnum {
        let base = kernel.base as int;
        let end = kernel.base + kernel.size;
        match segment_of(image, header, index) {
            Err(_) => {},
            Ok(None) => {
                lemma_outcome_from(image, header, index + 1, span, granted, kernel);
                assert(loaded_within(image, header, index, base, end));
            },
            Ok(Some(segment)) => {
                a_segment_is_backed_and_addressable(image, header, index, segment);
                let wider = Some(widened(span, segment));
                if segment.request() is None {
                    lemma_outcome_from(image, header, index + 1, wider, granted, kernel);
                } else {
                    lemma_outcome_from(image, header, index + 1, wider, granted - 1, kernel);
                }
                assert(loaded_within(image, header, index, base, end));
                if segment.page_start() == base {
                    assert(starts_at(image, header, index, base));
                }
                if segment.end() == end {
                    assert(ends_at(image, header, index, end));
                }
            },
        }
    }
}

/// A kernel that is loaded was loaded whole: every program header was sound,
/// every segment lies between `base` and `base + size`, both bounds belong
/// to segments, `base` is a page, and the entry point lies between them.
#[verifier::spinoff_prover]
pub proof fn a_loaded_kernel_spans_its_segments(image: Seq<u8>, granted: int, kernel: LoadedKernel)
    requires
        load_outcome(image, granted) == Ok::<LoadedKernel, ElfError>(kernel),
    ensures
        header_of(image) is Ok,
        ({
            let header = header_of(image)->Ok_0;
            let end = kernel.base + kernel.size;
            &&& kernel.entry == header.entry
            &&& kernel.base <= kernel.entry < end
            &&& kernel.base % PAGE_SIZE == 0
            &&& forall|i: int|
                0 <= i < header.phnum ==> #[trigger] loaded_within(
                    image,
                    header,
                    i,
                    kernel.base as int,
                    end,
                )
            &&& exists|i: int|
                0 <= i < header.phnum && #[trigger] starts_at(image, header, i, kernel.base as int)
            &&& exists|i: int| 0 <= i < header.phnum && #[trigger] ends_at(image, header, i, end)
        }),
{
    let header = header_of(image)->Ok_0;
    lemma_outcome_from(image, header, 0, None, granted, kernel);
    let i = choose|i: int|
        0 <= i < header.phnum && #[trigger] starts_at(image, header, i, kernel.base as int);
    let segment = segment_of(image, header, i)->Ok_0->Some_0;
    crate::align::lemma_align(segment.vaddr as int, PAGE_SIZE as int);
}

/// A bad header is refused before any page is asked for: whatever the
/// firmware would have granted, the answer is the header's own error, and
/// memory is as it was.
pub proof fn a_bad_header_is_refused_first(
    image: Seq<u8>,
    granted: int,
    memory: spec_fn(int) -> u8,
)
    requires
        header_of(image) is Err,
    ensures
        load_outcome(image, granted) == Err::<LoadedKernel, ElfError>(header_of(image)->Err_0),
        placed_segments(image, granted) == Seq::<LoadSegment>::empty(),
        memory_with(image, memory, placed_segments(image, granted)) == memory,
{
}

/// The memory once `bytes` stand in it from `start` on.
pub open spec fn written(
    memory: spec_fn(int) -> u8,
    start: int,
    bytes: Seq<u8>,
) -> spec_fn(int) -> u8 {
    |addr: int|
        if start <= addr < start + bytes.len() {
            bytes[addr - start]
        } else {
            memory(addr)
        }
}

impl PageRequest {
    /// How many bytes the pages hold.
    pub open spec fn bytes(self) -> nat {
        (self.pages * PAGE_SIZE) as nat
    }

    /// The byte at `addr` lies in these pages.
    pub open spec fn covers(self, addr: int) -> bool {
        self.start <= addr < self.start + self.bytes()
    }
}

/// The memory once these segments are in their pages, one after the other.
pub open spec fn memory_with(
    image: Seq<u8>,
    memory: spec_fn(int) -> u8,
    placed: Seq<LoadSegment>,
) -> spec_fn(int) -> u8
    decreases placed.len(),
{
    if placed.len() == 0 {
        memory
    } else {
        let request = placed.last().request()->0;
        written(
            memory_with(image, memory, placed.drop_last()),
            request.start as int,
            placed_bytes(image, placed.last(), request.bytes()),
        )
    }
}

/// The byte at `addr` lies in the pages of segment `k` of these.
pub open spec fn in_pages_of(placed: Seq<LoadSegment>, k: int, addr: int) -> bool {
    placed[k].request()->0.covers(addr)
}

/// No page was granted twice.
pub open spec fn granted_once(placed: Seq<LoadSegment>) -> bool {
    forall|i: int, j: int, addr: int|
        0 <= i < placed.len() && 0 <= j < placed.len() && #[trigger] in_pages_of(placed, i, addr)
            && #[trigger] in_pages_of(placed, j, addr) ==> i == j
}

/// The segments that the program headers from `from` up to `to` ask pages
/// for, in order.
pub open spec fn paged_segments(
    image: Seq<u8>,
    header: ElfHeader,
    from: int,
    to: int,
) -> Seq<LoadSegment>
    decreases to - from,
{
    if from >= to {
        Seq::empty()
    } else {
        let rest = paged_segments(image, header, from + 1, to);
        match segment_of(image, header, from) {
            Ok(Some(segment)) if segment.request() is Some => seq![segment] + rest,
            _ => rest,
        }
    }
}

/// Where a load stops: it went through every program header below `at`, and
/// ends there in `outcome`. With no header left it has looked at them all;
/// else header `at` is bad, or asks for pages that are refused.
pub open spec fn stops_at(
    image: Seq<u8>,
    header: ElfHeader,
    at: int,
    refused: bool,
    outcome: Result<LoadedKernel, ElfError>,
) -> bool {
    if at < header.phnum {
        outcome matches Err(error) && match segment_of(image, header, at) {
            Err(bad) => error == bad,
            Ok(None) => false,
            Ok(Some(segment)) => segment.request() is Some && refused && error
                == ElfError::AllocationFailed,
        }
    } else {
        match outcome {
            Ok(_) => true,
            Err(error) => error == ElfError::NoLoadableSegments || error
                == ElfError::EntryOutOfRange,
        }
    }
}

/// Where the rest of a load stops, and what it places until then.
#[verifier::spinoff_prover]
proof fn lemma_placed_from(
    image: Seq<u8>,
    header: ElfHeader,
    index: int,
    span: Option<(u64, u64)>,
    granted: int,
) -> (at: int)
    requires
        0 <= index <= header.phnum,
        0 <= granted,
    ensures
        index <= at <= header.phnum,
        placed_from(image, header, index, granted) == paged_segments(image, header, index, at),
        placed_from(image, header, index, granted).len() <= granted,
        forall|i: int| index <= i < at ==> #[trigger] segment_of(image, header, i) is Ok,
        stops_at(
            image,
            header,
            at,
            placed_from(image, header, index, granted).len() == granted,
            outcome_from(image, header, index, span, granted),
        ),
    decreases header.phnum - index,
{
    if index >= header.phnum {
        index
    } else {
        match segment_of(image, header, index) {
            Err(_) => index,
            Ok(None) => lemma_placed_from(image, header, index + 1, span, granted),
            Ok(Some(segment)) => {
                let wider = Some(widened(span, segment));
                if segment.request() is None {
                    lemma_placed_from(image, header, index + 1, wider, granted)
                } else if granted <= 0 {
                    index
                } else {
                    lemma_placed_from(image, header, index + 1, wider, granted - 1)
                }
            },
        }
    }
}

/// A segment that a header asks pages for is among those that do.
proof fn lemma_paged_segment(
    image: Seq<u8>,
    header: ElfHeader,
    from: int,
    to: int,
    i: int,
    segment: LoadSegment,
) -> (k: int)
    requires
        from <= i < to,
        segment_of(image, header, i) == Ok::<Option<LoadSegment>, ElfError>(Some(segment)),
        segment.request() is Some,
    ensures
        0 <= k < paged_segments(image, header, from, to).len(),
        paged_segments(image, header, from, to)[k] == segment,
    decreases to - from,
{
    if i == from {
        0
    } else {
        let k = lemma_paged_segment(image, header, from + 1, to, i, segment);
        match segment_of(image, header, from) {
            Ok(Some(other)) if other.request() is Some => k + 1,
            _ => k,
        }
    }
}

/// Loading changes nothing outside the pages of the segments it places.
pub proof fn only_granted_pages_are_written(
    image: Seq<u8>,
    memory: spec_fn(int) -> u8,
    placed: Seq<LoadSegment>,
    addr: int,
)
    requires
        forall|k: int| 0 <= k < placed.len() ==> !#[trigger] in_pages_of(placed, k, addr),
    ensures
        memory_with(image, memory, placed)(addr) == memory(addr),
    decreases placed.len(),
{
    if placed.len() > 0 {
        let fewer = placed.drop_last();
        assert forall|k: int| 0 <= k < fewer.len() implies !#[trigger] in_pages_of(
            fewer,
            k,
            addr,
        ) by {
            assert(!in_pages_of(placed, k, addr));
        }
        only_granted_pages_are_written(image, memory, fewer, addr);
        assert(!in_pages_of(placed, placed.len() - 1, addr));
    }
}

/// What a segment's pages hold is not touched by placing the others.
proof fn lemma_memory_at(
    image: Seq<u8>,
    memory: spec_fn(int) -> u8,
    placed: Seq<LoadSegment>,
    k: int,
    addr: int,
)
    requires
        granted_once(placed),
        0 <= k < placed.len(),
        in_pages_of(placed, k, addr),
    ensures
        ({
            let request = placed[k].request()->0;
            memory_with(image, memory, placed)(addr) == placed_bytes(
                image,
                placed[k],
                request.bytes(),
            )[addr - request.start]
        }),
    decreases placed.len(),
{
    if k < placed.len() - 1 {
        let fewer = placed.drop_last();
        assert(!in_pages_of(placed, placed.len() - 1, addr));
        assert(in_pages_of(fewer, k, addr));
        assert(granted_once(fewer)) by {
            assert forall|i: int, j: int, a: int|
                0 <= i < fewer.len() && 0 <= j < fewer.len() && #[trigger] in_pages_of(fewer, i, a)
                    && #[trigger] in_pages_of(fewer, j, a) implies i == j by {
                assert(in_pages_of(placed, i, a) && in_pages_of(placed, j, a));
            }
        }
        lemma_memory_at(image, memory, fewer, k, addr);
    }
}

/// Once a load has succeeded, every loadable segment is in memory, as long as
/// no page was granted twice: its pages hold its bytes from the file at its
/// own address and zeros everywhere else. So the file's bytes are where the
/// header wants them, and the `.bss` tail behind them is zero.
#[verifier::spinoff_prover]
pub proof fn a_loaded_kernel_is_in_memory(
    image: Seq<u8>,
    granted: int,
    kernel: LoadedKernel,
    memory: spec_fn(int) -> u8,
    i: int,
    segment: LoadSegment,
)
    requires
        0 <= granted,
        load_outcome(image, granted) == Ok::<LoadedKernel, ElfError>(kernel),
        granted_once(placed_segments(image, granted)),
        0 <= i < header_of(image)->Ok_0.phnum,
        segment_of(image, header_of(image)->Ok_0, i) == Ok::<Option<LoadSegment>, ElfError>(
            Some(segment),
        ),
    ensures
        ({
            let after = memory_with(image, memory, placed_segments(image, granted));
            &&& segment.request() matches Some(request) ==> forall|j: int|
                0 <= j < request.bytes() ==> after(request.start + j) == #[trigger] placed_bytes(
                    image,
                    segment,
                    request.bytes(),
                )[j]
            &&& forall|j: int|
                0 <= j < segment.filesz ==> after(segment.vaddr + j) == #[trigger] image[segment.offset
                    + j]
            &&& forall|j: int|
                segment.filesz <= j < segment.memsz ==> #[trigger] after(segment.vaddr + j) == 0
        }),
{
    let header = header_of(image)->Ok_0;
    let placed = placed_segments(image, granted);
    let after = memory_with(image, memory, placed);
    let at = lemma_placed_from(image, header, 0, None, granted);
    a_segment_is_backed_and_addressable(image, header, i, segment);
    request_covers_the_segment(segment);
    if segment.request() is Some {
        let request = segment.request()->0;
        let k = lemma_paged_segment(image, header, 0, at, i, segment);
        let bytes = placed_bytes(image, segment, request.bytes());
        assert forall|j: int| 0 <= j < request.bytes() implies after(request.start + j)
            == #[trigger] bytes[j] by {
            assert(in_pages_of(placed, k, request.start + j));
            lemma_memory_at(image, memory, placed, k, request.start + j);
        }
        assert(request.start + segment.padding() == segment.vaddr);
        assert forall|j: int| 0 <= j < segment.filesz implies after(segment.vaddr + j)
            == #[trigger] image[segment.offset + j] by {
            assert(after(request.start + (segment.padding() + j)) == bytes[segment.padding() + j]);
        }
        assert forall|j: int| segment.filesz <= j < segment.memsz implies #[trigger] after(
            segment.vaddr + j,
        ) == 0 by {
            assert(after(request.start + (segment.padding() + j)) == bytes[segment.padding() + j]);
        }
    }
}

/// A load that fails past the ELF header has placed the segments of lower
/// headers, and nothing else: header `at` is the one it fails at, or there
/// is none left. All headers below it were sound, those that ask for pages
/// got them and were placed, and the failing one wrote nothing: memory
/// differs from what it was in the pages of those segments only.
pub proof fn a_failed_load_placed_only_lower_segments(
    image: Seq<u8>,
    granted: int,
    error: ElfError,
    memory: spec_fn(int) -> u8,
) -> (at: int)
    requires
        0 <= granted,
        header_of(image) is Ok,
        load_outcome(image, granted) == Err::<LoadedKernel, ElfError>(error),
    ensures
        ({
            let header = header_of(image)->Ok_0;
            let placed = placed_segments(image, granted);
            &&& 0 <= at <= header.phnum
            &&& stops_at(
                image,
                header,
                at,
                placed.len() == granted,
                Err::<LoadedKernel, ElfError>(error),
            )
            &&& forall|i: int| 0 <= i < at ==> #[trigger] segment_of(image, header, i) is Ok
            &&& placed == paged_segments(image, header, 0, at)
            &&& placed.len() <= granted
            &&& forall|addr: int|
                (forall|k: int| 0 <= k < placed.len() ==> !#[trigger] in_pages_of(placed, k, addr))
                    ==> #[trigger] memory_with(image, memory, placed)(addr) == memory(addr)
        }),
{
    let header = header_of(image)->Ok_0;
    let placed = placed_segments(image, granted);
    assert forall|addr: int|
        (forall|k: int| 0 <= k < placed.len() ==> !#[trigger] in_pages_of(placed, k, addr)) implies
        #[trigger] memory_with(image, memory, placed)(addr) == memory(addr) by {
        only_granted_pages_are_written(image, memory, placed, addr);
    }
    lemma_placed_from(image, header, 0, None, granted)
}

/// The number that `len` bytes from `at` on spell, the lowest byte first.
pub open spec fn number_at(bytes: Seq<u8>, at: int, len: nat) -> int
    decreases len,
{
    if len == 0 {
        0
    } else {
        bytes[at] + 0x100 * number_at(bytes, at + 1, (len - 1) as nat)
    }
}

/// Numbers are read from the lowest byte up.
pub proof fn numbers_are_little_endian(bytes: Seq<u8>, at: int)
    ensures
        le16(bytes, at) == number_at(bytes, at, 2),
        le32(bytes, at) == number_at(bytes, at, 4),
        le64(bytes, at) == number_at(bytes, at, 8),
        0 <= number_at(bytes, at, 2) < 0x1_0000,
        0 <= number_at(bytes, at, 4) < 0x1_0000_0000,
        0 <= number_at(bytes, at, 8) < 0x1_0000_0000_0000_0000,
{
    reveal_with_fuel(number_at, 9);
    assert(at + 1 + 1 == at + 2 && at + 2 + 1 == at + 3 && at + 3 + 1 == at + 4);
    assert(at + 4 + 1 == at + 5 && at + 5 + 1 == at + 6 && at + 6 + 1 == at + 7);
}

/// An ELF header is accepted exactly if its bytes say: the magic, 64 bits,
/// little endian, executable, x86-64, and program headers of 56 bytes. Its
/// entry point, and the place and number of its program headers, are those
/// in its bytes.
pub proof fn a_header_is_judged_by_its_bytes(image: Seq<u8>)
    ensures
        header_of(image) is Ok <==> {
            &&& image.len() >= 64
            &&& image[0] == 0x7f && image[1] == 0x45 && image[2] == 0x4c && image[3] == 0x46
            &&& image[4] == 2
            &&& image[5] == 1
            &&& image[16] == 2 && image[17] == 0
            &&& image[18] == 0x3e && image[19] == 0
            &&& image[54] == 56 && image[55] == 0
        },
        header_of(image) matches Ok(header) ==> {
            &&& header.entry == number_at(image, 24, 8)
            &&& header.phoff == number_at(image, 32, 8)
            &&& header.phentsize == 56
            &&& header.phnum == number_at(image, 56, 2)
        },
{
    numbers_are_little_endian(image, 24);
    numbers_are_little_endian(image, 32);
    numbers_are_little_endian(image, 56);
}

/// A header is refused for the first thing that is wrong with its bytes.
pub proof fn a_header_is_refused_for_its_first_fault(image: Seq<u8>, error: ElfError)
    requires
        header_of(image) == Err::<ElfHeader, ElfError>(error),
    ensures
        error == ElfError::TooSmall <==> image.len() < 64,
        image.len() >= 64 ==> {
            let magic = image[0] == 0x7f && image[1] == 0x45 && image[2] == 0x4c && image[3]
                == 0x46;
            &&& error == ElfError::BadMagic <==> !magic
            &&& error == ElfError::Not64Bit <==> magic && image[4] != 2
            &&& error == ElfError::NotLittleEndian <==> magic && image[4] == 2 && image[5] != 1
            &&& error == ElfError::NotExecutable <==> magic && image[4] == 2 && image[5] == 1 && !(
            image[16] == 2 && image[17] == 0)
            &&& error == ElfError::WrongArchitecture <==> magic && image[4] == 2 && image[5] == 1
                && image[16] == 2 && image[17] == 0 && !(image[18] == 0x3e && image[19] == 0)
            &&& error == ElfError::BadProgramHeaders <==> magic && image[4] == 2 && image[5] == 1
                && image[16] == 2 && image[17] == 0 && image[18] == 0x3e && image[19] == 0
        },
{
}

/// Where program header `index` starts in the image.
pub open spec fn header_start(image: Seq<u8>, index: int) -> int {
    number_at(image, 32, 8) + 56 * index
}

/// Program header `index` lies inside the image and is of the loadable type,
/// whatever else it says.
pub open spec fn asks_to_be_loaded(image: Seq<u8>, index: int) -> bool {
    let start = header_start(image, index);
    &&& start + 56 <= image.len()
    &&& image[start] == 1 && image[start + 1] == 0 && image[start + 2] == 0 && image[start + 3] == 0
}

/// A loadable program header is never skipped: it is refused, for a reason
/// in its numbers, or it asks for a segment with exactly those numbers,
/// whatever its other bytes are. A header of another type asks for nothing,
/// and one that leaves the image is refused.
#[verifier::spinoff_prover]
pub proof fn a_loadable_header_is_never_skipped(image: Seq<u8>, index: int)
    requires
        header_of(image) is Ok,
        0 <= index,
    ensures
        ({
            let start = header_start(image, index);
            let segment = segment_of(image, header_of(image)->Ok_0, index);
            let offset = number_at(image, start + 8, 8);
            let vaddr = number_at(image, start + 16, 8);
            let filesz = number_at(image, start + 32, 8);
            let memsz = number_at(image, start + 40, 8);
            &&& start + 56 > image.len() ==> segment == Err::<Option<LoadSegment>, ElfError>(
                ElfError::BadProgramHeaders,
            )
            &&& start + 56 <= image.len() && !asks_to_be_loaded(image, index) ==> segment == Ok::<
                Option<LoadSegment>,
                ElfError,
            >(None)
            &&& asks_to_be_loaded(image, index) ==> segment == (if filesz > memsz {
                Err(ElfError::SegmentTooLarge)
            } else if offset + filesz > image.len() || vaddr + memsz >= 0x1_0000_0000_0000_0000 {
                Err(ElfError::SegmentOutOfBounds)
            } else {
                Ok::<Option<LoadSegment>, ElfError>(
                    Some(
                        LoadSegment {
                            offset: offset as u64,
                            vaddr: vaddr as u64,
                            filesz: filesz as u64,
                            memsz: memsz as u64,
                        },
                    ),
                )
            })
        }),
{
    reveal(segment_of);
    let start = header_start(image, index);
    a_header_is_judged_by_its_bytes(image);
    numbers_are_little_endian(image, start);
    numbers_are_little_endian(image, start + 8);
    numbers_are_little_endian(image, start + 16);
    numbers_are_little_endian(image, start + 32);
    numbers_are_little_endian(image, start + 40);
    reveal_with_fuel(number_at, 5);
    assert(start + 1 + 1 == start + 2 && start + 2 + 1 == start + 3);
}

/// The pages asked for are those that the segment touches, and no others: a
/// page lies among them exactly if it starts below the segment's end and
/// ends above its start. An empty segment touches the page it starts in,
/// unless it starts that page.
pub proof fn the_pages_are_those_the_segment_touches(segment: LoadSegment, page: int)
    requires
        segment.vaddr + segment.memsz < 0x1_0000_0000_0000_0000,
        page % 4096 == 0,
    ensures
        ({
            let asked = segment.request() is Some && segment.request()->0.start <= page
                < segment.request()->0.start + segment.request()->0.pages * 4096;
            &&& segment.memsz > 0 ==> (asked <==> page < segment.vaddr + segment.memsz && page
                + 4096 > segment.vaddr)
            &&& segment.memsz == 0 ==> (asked <==> page < segment.vaddr < page + 4096)
        }),
{
}

/// A load that succeeds has every loadable header's bytes in memory, as long
/// as no page was granted twice: the file's bytes where the header wants
/// them, and zeros behind them up to the size it wants. They lie inside the
/// kernel's span, and the entry point is the one in the image.
#[verifier::spinoff_prover]
pub proof fn every_loadable_header_is_in_memory(
    image: Seq<u8>,
    granted: int,
    kernel: LoadedKernel,
    memory: spec_fn(int) -> u8,
    index: int,
    j: int,
)
    requires
        0 <= granted,
        load_outcome(image, granted) == Ok::<LoadedKernel, ElfError>(kernel),
        granted_once(placed_segments(image, granted)),
        0 <= index < number_at(image, 56, 2),
        asks_to_be_loaded(image, index),
    ensures
        ({
            let start = header_start(image, index);
            let offset = number_at(image, start + 8, 8);
            let vaddr = number_at(image, start + 16, 8);
            let filesz = number_at(image, start + 32, 8);
            let memsz = number_at(image, start + 40, 8);
            let after = memory_with(image, memory, placed_segments(image, granted));
            &&& filesz <= memsz
            &&& offset + filesz <= image.len()
            &&& 0 <= j < filesz ==> after(vaddr + j) == image[offset + j]
            &&& filesz <= j < memsz ==> after(vaddr + j) == 0
            &&& kernel.base <= vaddr && vaddr + memsz <= kernel.base + kernel.size
            &&& kernel.entry == number_at(image, 24, 8)
            &&& kernel.base <= kernel.entry < kernel.base + kernel.size
        }),
{
    let header = header_of(image)->Ok_0;
    a_header_is_judged_by_its_bytes(image);
    a_loadable_header_is_never_skipped(image, index);
    let start = header_start(image, index);
    numbers_are_little_endian(image, start + 8);
    numbers_are_little_endian(image, start + 16);
    numbers_are_little_endian(image, start + 32);
    numbers_are_little_endian(image, start + 40);
    a_loaded_kernel_spans_its_segments(image, granted, kernel);
    assert(loaded_within(
        image,
        header,
        index,
        kernel.base as int,
        kernel.base + kernel.size,
    ));
    let segment = segment_of(image, header, index)->Ok_0->Some_0;
    crate::align::lemma_align(segment.vaddr as int, PAGE_SIZE as int);
    a_loaded_kernel_is_in_memory(image, granted, kernel, memory, index, segment);
    if 0 <= j < segment.filesz {
        let after = memory_with(image, memory, placed_segments(image, granted));
        assert(after(segment.vaddr + j) == image[segment.offset + j]);
    }
}

/// The rest of the pages that a loaded segment got is zero.
#[verifier::spinoff_prover]
pub proof fn the_rest_of_a_page_is_zero(
    image: Seq<u8>,
    granted: int,
    kernel: LoadedKernel,
    memory: spec_fn(int) -> u8,
    index: int,
    segment: LoadSegment,
    addr: int,
)
    requires
        0 <= granted,
        load_outcome(image, granted) == Ok::<LoadedKernel, ElfError>(kernel),
        granted_once(placed_segments(image, granted)),
        0 <= index < number_at(image, 56, 2),
        segment_of(image, header_of(image)->Ok_0, index) == Ok::<Option<LoadSegment>, ElfError>(
            Some(segment),
        ),
        segment.request() is Some,
        segment.request()->0.start <= addr < segment.request()->0.start
            + segment.request()->0.pages * 4096,
        !(segment.vaddr <= addr < segment.vaddr + segment.filesz),
    ensures
        memory_with(image, memory, placed_segments(image, granted))(addr) == 0,
{
    let request = segment.request()->0;
    a_header_is_judged_by_its_bytes(image);
    a_segment_is_backed_and_addressable(image, header_of(image)->Ok_0, index, segment);
    a_loaded_kernel_is_in_memory(image, granted, kernel, memory, index, segment);
    request_covers_the_segment(segment);
    let after = memory_with(image, memory, placed_segments(image, granted));
    let bytes = placed_bytes(image, segment, request.bytes());
    assert(after(request.start + (addr - request.start)) == bytes[addr - request.start]);
}

/// Program header `i` asks for a segment whose first page is at or below the
/// address.
pub open spec fn reaches_down_to(image: Seq<u8>, header: ElfHeader, i: int, addr: int) -> bool {
    segment_of(image, header, i) matches Ok(Some(segment)) && segment.vaddr - segment.vaddr % 4096
        <= addr
}

/// Program header `i` asks for a segment that ends above the address.
pub open spec fn reaches_above(image: Seq<u8>, header: ElfHeader, i: int, addr: int) -> bool {
    segment_of(image, header, i) matches Ok(Some(segment)) && addr < segment.vaddr + segment.memsz
}

/// When the rest of a load succeeds.
#[verifier::spinoff_prover]
proof fn lemma_load_succeeds(
    image: Seq<u8>,
    header: ElfHeader,
    index: int,
    span: Option<(u64, u64)>,
    granted: int,
)
    requires
        0 <= index <= header.phnum,
        0 <= granted,
        span matches Some((lowest, highest)) ==> lowest <= highest,
    ensures
        outcome_from(image, header, index, span, granted) is Ok <==> {
            &&& forall|i: int|
                index <= i < header.phnum ==> #[trigger] segment_of(image, header, i) is Ok
            &&& paged_segments(image, header, index, header.phnum as int).len() <= granted
            &&& ((span matches Some((lowest, highest)) && lowest <= header.entry) || exists|i: int|
                index <= i < header.phnum && #[trigger] reaches_down_to(
                    image,
                    header,
                    i,
                    header.entry as int,
                ))
            &&& ((span matches Some((lowest, highest)) && header.entry < highest) || exists|i: int|
                index <= i < header.phnum && #[trigger] reaches_above(
                    image,
                    header,
                    i,
                    header.entry as int,
                ))
        },
    decreases header.phnum - index,
{
    let entry = header.entry as int;
    if index < header.phnum {
        let found = segment_of(image, header, index);
        match found {
            Err(_) => {},
            Ok(None) => {
                lemma_load_succeeds(image, header, index + 1, span, granted);
                lemma_reach_step(image, header, index, entry);
            },
            Ok(Some(segment)) => {
                a_segment_is_backed_and_addressable(image, header, index, segment);
                let wider = Some(widened(span, segment));
                lemma_reach_step(image, header, index, entry);
                if segment.request() is None {
                    lemma_load_succeeds(image, header, index + 1, wider, granted);
                } else if granted > 0 {
                    lemma_load_succeeds(image, header, index + 1, wider, granted - 1);
                }
            },
        }
        assert((forall|i: int|
            index <= i < header.phnum ==> #[trigger] segment_of(image, header, i) is Ok) <==> (
        found is Ok && forall|i: int|
            index + 1 <= i < header.phnum ==> #[trigger] segment_of(image, header, i) is Ok));
    }
}

/// Some header from `index` on reaches the entry point if header `index`
/// does, or a later one.
proof fn lemma_reach_step(image: Seq<u8>, header: ElfHeader, index: int, entry: int)
    requires
        0 <= index < header.phnum,
    ensures
        (exists|i: int|
            index <= i < header.phnum && #[trigger] reaches_down_to(image, header, i, entry)) <==> (
        reaches_down_to(image, header, index, entry) || exists|i: int|
            index + 1 <= i < header.phnum && #[trigger] reaches_down_to(image, header, i, entry)),
        (exists|i: int|
            index <= i < header.phnum && #[trigger] reaches_above(image, header, i, entry)) <==> (
        reaches_above(image, header, index, entry) || exists|i: int|
            index + 1 <= i < header.phnum && #[trigger] reaches_above(image, header, i, entry)),
{
}

/// An image loads exactly if its header is sound, every program header is,
/// as many page requests are granted as its segments make, and its entry
/// point lies between the first page of some segment and the end of some
/// segment.
pub proof fn a_sound_image_loads(image: Seq<u8>, granted: int)
    requires
        0 <= granted,
    ensures
        load_outcome(image, granted) is Ok <==> header_of(image) is Ok && {
            let header = header_of(image)->Ok_0;
            &&& forall|i: int| 0 <= i < header.phnum ==> #[trigger] segment_of(image, header, i) is Ok
            &&& paged_segments(image, header, 0, header.phnum as int).len() <= granted
            &&& exists|i: int|
                0 <= i < header.phnum && #[trigger] reaches_down_to(
                    image,
                    header,
                    i,
                    header.entry as int,
                )
            &&& exists|i: int|
                0 <= i < header.phnum && #[trigger] reaches_above(
                    image,
                    header,
                    i,
                    header.entry as int,
                )
        },
{
    if header_of(image) is Ok {
        lemma_load_succeeds(image, header_of(image)->Ok_0, 0, None, granted);
    }
}

/// A loaded kernel starts at the lowest page of its segments and ends where
/// the highest of them ends: no smaller span holds them all.
pub proof fn a_kernel_spans_no_more_than_its_segments(
    image: Seq<u8>,
    granted: int,
    kernel: LoadedKernel,
    low: int,
    high: int,
)
    requires
        load_outcome(image, granted) == Ok::<LoadedKernel, ElfError>(kernel),
        forall|i: int|
            0 <= i < number_at(image, 56, 2) ==> (#[trigger] segment_of(
                image,
                header_of(image)->Ok_0,
                i,
            ) matches Ok(Some(segment)) ==> low <= segment.vaddr - segment.vaddr % 4096
                && segment.vaddr + segment.memsz <= high),
    ensures
        low <= kernel.base,
        kernel.base + kernel.size <= high,
        kernel.base % 4096 == 0,
{
    let header = header_of(image)->Ok_0;
    a_header_is_judged_by_its_bytes(image);
    a_loaded_kernel_spans_its_segments(image, granted, kernel);
    let first = choose|i: int|
        0 <= i < header.phnum && #[trigger] starts_at(image, header, i, kernel.base as int);
    let last = choose|i: int|
        0 <= i < header.phnum && #[trigger] ends_at(image, header, i, kernel.base + kernel.size);
    assert(segment_of(image, header, first) is Ok);
    assert(segment_of(image, header, last) is Ok);
}

/// The next header that matters is the first one from `index` on that asks
/// for a segment or is refused: no header in between does either.
pub proof fn no_segment_is_passed_over(image: Seq<u8>, header: ElfHeader, index: int, i: int)
    requires
        0 <= index <= header.phnum,
    ensures
        index <= next_loadable(image, header, index) <= header.phnum,
        index <= i < next_loadable(image, header, index) ==> segment_of(image, header, i) == Ok::<
            Option<LoadSegment>,
            ElfError,
        >(None),
        i == next_loadable(image, header, index) && i < header.phnum ==> segment_of(
            image,
            header,
            i,
        ) != Ok::<Option<LoadSegment>, ElfError>(None),
    decreases header.phnum - index,
{
    if index < header.phnum && segment_of(image, header, index) == Ok::<
        Option<LoadSegment>,
        ElfError,
    >(None) {
        no_segment_is_passed_over(image, header, index + 1, i);
    }
}

/// What the rest of a load says if it goes through every header and fails.
#[verifier::spinoff_prover]
proof fn lemma_fails_at_the_end(
    image: Seq<u8>,
    header: ElfHeader,
    index: int,
    span: Option<(u64, u64)>,
    granted: int,
    error: ElfError,
)
    requires
        0 <= index <= header.phnum,
        0 <= granted,
        outcome_from(image, header, index, span, granted) == Err::<LoadedKernel, ElfError>(error),
        forall|i: int| index <= i < header.phnum ==> #[trigger] segment_of(image, header, i) is Ok,
        paged_segments(image, header, index, header.phnum as int).len() <= granted,
    ensures
        error == ElfError::NoLoadableSegments <==> span is None && forall|i: int|
            index <= i < header.phnum ==> #[trigger] segment_of(image, header, i) == Ok::<
                Option<LoadSegment>,
                ElfError,
            >(None),
        error != ElfError::NoLoadableSegments ==> error == ElfError::EntryOutOfRange,
    decreases header.phnum - index,
{
    if index < header.phnum {
        match segment_of(image, header, index) {
            Err(_) => {},
            Ok(None) => {
                lemma_fails_at_the_end(image, header, index + 1, span, granted, error);
            },
            Ok(Some(segment)) => {
                let wider = Some(widened(span, segment));
                if segment.request() is None {
                    lemma_fails_at_the_end(image, header, index + 1, wider, granted, error);
                } else {
                    lemma_fails_at_the_end(image, header, index + 1, wider, granted - 1, error);
                }
            },
        }
    }
}

/// An image whose headers are all sound, and whose segments all get their
/// pages, fails only for having no segment at all, or for an entry point
/// outside them.
pub proof fn a_sound_image_fails_for_its_entry_point_alone(
    image: Seq<u8>,
    granted: int,
    error: ElfError,
)
    requires
        0 <= granted,
        header_of(image) is Ok,
        load_outcome(image, granted) == Err::<LoadedKernel, ElfError>(error),
        ({
            let header = header_of(image)->Ok_0;
            &&& forall|i: int| 0 <= i < header.phnum ==> #[trigger] segment_of(image, header, i) is Ok
            &&& paged_segments(image, header, 0, header.phnum as int).len() <= granted
        }),
    ensures
        ({
            let header = header_of(image)->Ok_0;
            let nothing = forall|i: int|
                0 <= i < header.phnum ==> #[trigger] segment_of(image, header, i) == Ok::<
                    Option<LoadSegment>,
                    ElfError,
                >(None);
            &&& nothing ==> error == ElfError::NoLoadableSegments
            &&& !nothing ==> error == ElfError::EntryOutOfRange
        }),
{
    lemma_fails_at_the_end(image, header_of(image)->Ok_0, 0, None, granted, error);
}

} // verus!
