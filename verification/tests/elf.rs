use rust_bl::bootloader::elf::{
    align_down, load_kernel, load_segment, page_request, parse_header, read_u16, read_u32,
    read_u64, ElfError, LoadSegment, LoadStep, LoadedKernel, Loader, PageRequest,
};

fn put(image: &mut Vec<u8>, at: usize, bytes: &[u8]) {
    for (i, byte) in bytes.iter().enumerate() {
        image[at + i] = *byte;
    }
}

/// An image with these loadable segments, as (offset, vaddr, filesz, memsz).
fn image(entry: u64, segments: &[(u64, u64, u64, u64)]) -> Vec<u8> {
    let mut image = vec![0u8; 64 + 56 * segments.len() + 0x100];
    put(&mut image, 0, &[0x7f, b'E', b'L', b'F', 2, 1]);
    put(&mut image, 16, &2u16.to_le_bytes());
    put(&mut image, 18, &0x3eu16.to_le_bytes());
    put(&mut image, 24, &entry.to_le_bytes());
    put(&mut image, 32, &64u64.to_le_bytes());
    put(&mut image, 54, &56u16.to_le_bytes());
    put(&mut image, 56, &(segments.len() as u16).to_le_bytes());
    for (i, (offset, vaddr, filesz, memsz)) in segments.iter().enumerate() {
        let base = 64 + 56 * i;
        put(&mut image, base, &1u32.to_le_bytes());
        put(&mut image, base + 8, &offset.to_le_bytes());
        put(&mut image, base + 16, &vaddr.to_le_bytes());
        put(&mut image, base + 32, &filesz.to_le_bytes());
        put(&mut image, base + 40, &memsz.to_le_bytes());
    }
    image
}

/// Load `image` with `granted` requests of one page granted.
fn load(image: &[u8], granted: usize) -> Result<LoadedKernel, ElfError> {
    load_kernel(image, &mut vec![vec![0xaa; 0x1000]; granted])
}

#[test]
fn numbers_are_little_endian_and_bounded() {
    let bytes = [1, 2, 3, 4, 5, 6, 7, 8, 9];
    assert_eq!(read_u16(&bytes, 0), Some(0x0201));
    assert_eq!(read_u16(&bytes, 7), Some(0x0908));
    assert_eq!(read_u16(&bytes, 8), None);
    assert_eq!(read_u32(&bytes, 1), Some(0x0504_0302));
    assert_eq!(read_u32(&bytes, 6), None);
    assert_eq!(read_u64(&bytes, 1), Some(0x0908_0706_0504_0302));
    assert_eq!(read_u64(&bytes, 2), None);
    assert_eq!(read_u64(&bytes, u64::MAX), None);
    assert_eq!(read_u16(&[], 0), None);
}

#[test]
fn a_kernel_loads_where_its_segments_say() {
    let image = image(
        0x20_1000,
        &[(0, 0x20_0000, 0x10, 0x10), (0x10, 0x20_1234, 0x20, 0x100), (0, 0x20_3000, 0, 0x2000)],
    );
    assert_eq!(
        load_kernel(&image, &mut vec![vec![0; 0x1000], vec![0; 0x1000], vec![0; 0x2000]]),
        Ok(LoadedKernel { entry: 0x20_1000, base: 0x20_0000, size: 0x5000 })
    );
}

#[test]
fn a_loaded_kernel_has_every_segment_in_its_pages() {
    let image = image(
        0x20_1234,
        &[
            (0, 0x20_0000, 4, 0x10),
            (0, 0x30_0000, 0, 0),
            (1, 0x20_1234, 3, 0x100),
            (0, 0x20_3ff0, 0, 0x20),
        ],
    );
    let mut pages = vec![vec![0xaa; 0x1000], vec![0xaa; 0x1000], vec![0xaa; 0x2000], vec![0xaa; 5]];
    assert!(load_kernel(&image, &mut pages).is_ok());
    assert_eq!(pages[0][..6], [0x7f, b'E', b'L', b'F', 0, 0]);
    assert!(pages[0][4..].iter().all(|byte| *byte == 0));
    assert!(pages[1][..0x234].iter().all(|byte| *byte == 0));
    assert_eq!(pages[1][0x234..0x239], [b'E', b'L', b'F', 0, 0]);
    assert!(pages[1][0x237..].iter().all(|byte| *byte == 0));
    assert!(pages[2].iter().all(|byte| *byte == 0));
    // Nobody asked for the last buffer.
    assert_eq!(pages[3], vec![0xaa; 5]);
}

#[test]
fn a_failed_load_leaves_only_lower_segments_behind() {
    // The third header is bad.
    let broken =
        image(0x20_0000, &[(0, 0x20_0000, 1, 1), (1, 0x20_1000, 1, 1), (0, 0x20_2000, 2, 1)]);
    let mut pages = vec![vec![0xaa; 0x1000]; 3];
    assert_eq!(load_kernel(&broken, &mut pages), Err(ElfError::SegmentTooLarge));
    assert_eq!((pages[0][0], pages[0][1]), (0x7f, 0));
    assert_eq!((pages[1][0], pages[1][1]), (b'E', 0));
    assert_eq!(pages[2], vec![0xaa; 0x1000]);
    // The second request is refused.
    let mut pages = vec![vec![0xaa; 0x1000]];
    assert_eq!(load_kernel(&broken, &mut pages), Err(ElfError::AllocationFailed));
    assert_eq!((pages[0][0], pages[0][1]), (0x7f, 0));
    // The header is bad.
    let mut bad = broken.clone();
    bad[0] = 0;
    let mut pages = vec![vec![0xaa; 0x1000]; 3];
    assert_eq!(load_kernel(&bad, &mut pages), Err(ElfError::BadMagic));
    assert_eq!(pages, vec![vec![0xaa; 0x1000]; 3]);
}

#[test]
fn a_refused_page_request_ends_the_load() {
    let image = image(0x20_0000, &[(0, 0x20_0000, 0, 0x10), (0, 0x20_1000, 0, 0x10)]);
    assert_eq!(load(&image, 0), Err(ElfError::AllocationFailed));
    assert_eq!(load(&image, 1), Err(ElfError::AllocationFailed));
    assert!(load(&image, 2).is_ok());
}

#[test]
fn an_empty_segment_needs_no_pages() {
    let image = image(0x20_0000, &[(0, 0x20_0000, 0, 0x10), (0, 0x30_0000, 0, 0)]);
    assert_eq!(
        load(&image, 1),
        Ok(LoadedKernel { entry: 0x20_0000, base: 0x20_0000, size: 0x10_0000 })
    );
}

#[test]
fn headers_that_are_not_loadable_are_skipped() {
    let mut image = image(0x20_0000, &[(0, 0x90_0000, 0, 0x10), (0, 0x20_0000, 0, 0x10)]);
    put(&mut image, 64, &2u32.to_le_bytes());
    assert_eq!(
        load(&image, 1),
        Ok(LoadedKernel { entry: 0x20_0000, base: 0x20_0000, size: 0x10 })
    );
}

#[test]
fn every_bad_header_has_its_error() {
    let good = image(0x20_0000, &[(0, 0x20_0000, 0, 0x10)]);
    assert!(parse_header(&good).is_ok());
    let broken = |at: usize, byte: u8| {
        let mut bad = good.clone();
        bad[at] = byte;
        load(&bad, 9)
    };
    assert_eq!(load(&good[..63], 9), Err(ElfError::TooSmall));
    assert_eq!(broken(0, 0), Err(ElfError::BadMagic));
    assert_eq!(broken(3, 0), Err(ElfError::BadMagic));
    assert_eq!(broken(4, 1), Err(ElfError::Not64Bit));
    assert_eq!(broken(5, 2), Err(ElfError::NotLittleEndian));
    assert_eq!(broken(16, 3), Err(ElfError::NotExecutable));
    assert_eq!(broken(18, 0x28), Err(ElfError::WrongArchitecture));
    assert_eq!(broken(54, 57), Err(ElfError::BadProgramHeaders));
    assert_eq!(broken(56, 0), Err(ElfError::NoLoadableSegments));
}

#[test]
fn program_headers_must_lie_inside_the_image() {
    let good = image(0x20_0000, &[(0, 0x20_0000, 0, 0x10)]);
    let mut far = good.clone();
    put(&mut far, 32, &(good.len() as u64 - 55).to_le_bytes());
    assert_eq!(load(&far, 9), Err(ElfError::BadProgramHeaders));
    let mut wrapping = good.clone();
    put(&mut wrapping, 32, &(u64::MAX - 3).to_le_bytes());
    assert_eq!(load(&wrapping, 9), Err(ElfError::BadProgramHeaders));
    let mut more = good;
    put(&mut more, 56, &200u16.to_le_bytes());
    assert_eq!(load(&more, 9), Err(ElfError::BadProgramHeaders));
}

#[test]
fn every_bad_segment_has_its_error() {
    let place = |segment| load(&image(0x20_0000, &[segment]), 9);
    assert_eq!(place((0, 0x20_0000, 0x11, 0x10)), Err(ElfError::SegmentTooLarge));
    assert_eq!(place((0, 0x20_0000, 0x1000, 0x1000)), Err(ElfError::SegmentOutOfBounds));
    assert_eq!(place((u64::MAX, 0x20_0000, 1, 1)), Err(ElfError::SegmentOutOfBounds));
    assert_eq!(place((0, u64::MAX, 0, 2)), Err(ElfError::SegmentOutOfBounds));
}

#[test]
fn the_entry_point_must_lie_in_what_was_loaded() {
    let segments = [(0, 0x20_0000, 0, 0x1000)];
    assert_eq!(load(&image(0x1f_ffff, &segments), 9), Err(ElfError::EntryOutOfRange));
    assert_eq!(load(&image(0x20_1000, &segments), 9), Err(ElfError::EntryOutOfRange));
    assert!(load(&image(0x20_0fff, &segments), 9).is_ok());
}

#[test]
fn a_bad_header_is_noticed_before_any_page_is_asked_for() {
    let mut bad = image(0x20_0000, &[(0, 0x20_0000, 0, 0x10)]);
    bad[0] = 0;
    assert_eq!(load(&bad, 0), Err(ElfError::BadMagic));
}

#[test]
fn the_loader_goes_segment_by_segment() {
    let image = image(0x20_0000, &[(0, 0x20_0000, 4, 8), (4, 0x20_1000, 2, 2)]);
    let mut loader = match Loader::new(&image) {
        Ok(loader) => loader,
        Err(_) => panic!("the header is sound"),
    };
    assert_eq!(
        loader.next(&image),
        LoadStep::Place(LoadSegment { offset: 0, vaddr: 0x20_0000, filesz: 4, memsz: 8 })
    );
    assert_eq!(
        loader.next(&image),
        LoadStep::Place(LoadSegment { offset: 4, vaddr: 0x20_1000, filesz: 2, memsz: 2 })
    );
    assert_eq!(
        loader.next(&image),
        LoadStep::Finished(LoadedKernel { entry: 0x20_0000, base: 0x20_0000, size: 0x1002 })
    );
}

#[test]
fn page_requests_cover_the_segment() {
    let segment = |vaddr, memsz| LoadSegment { offset: 0, vaddr, filesz: 0, memsz };
    assert_eq!(page_request(&segment(0x1000, 0)), Ok(None));
    assert_eq!(
        page_request(&segment(0x1000, 1)),
        Ok(Some(PageRequest { start: 0x1000, pages: 1 }))
    );
    assert_eq!(
        page_request(&segment(0x1000, 0x1001)),
        Ok(Some(PageRequest { start: 0x1000, pages: 2 }))
    );
    assert_eq!(
        page_request(&segment(0x1fff, 2)),
        Ok(Some(PageRequest { start: 0x1000, pages: 2 }))
    );
    assert_eq!(
        page_request(&segment(0x1001, 0)),
        Ok(Some(PageRequest { start: 0x1000, pages: 1 }))
    );
    assert_eq!(page_request(&segment(1, u64::MAX)), Err(ElfError::SegmentOutOfBounds));
    assert_eq!(align_down(0x1fff), 0x1000);
    assert_eq!(align_down(u64::MAX), u64::MAX - 0xfff);
}

#[test]
fn a_segment_is_placed_between_zeros() {
    let image: Vec<u8> = (1..=32).collect();
    let segment = LoadSegment { offset: 4, vaddr: 0x1003, filesz: 3, memsz: 0x1000 };
    let mut pages = vec![0xaau8; 0x2000];
    assert_eq!(load_segment(&image, &segment, true, &mut pages), Ok(()));
    assert_eq!(pages[..8], [0, 0, 0, 5, 6, 7, 0, 0]);
    assert!(pages[8..].iter().all(|byte| *byte == 0));
}

#[test]
fn a_refused_segment_leaves_memory_alone() {
    let segment = LoadSegment { offset: 0, vaddr: 0x1000, filesz: 0, memsz: 1 };
    let mut pages = vec![0xaau8; 4];
    assert_eq!(
        load_segment(&[], &segment, false, &mut pages),
        Err(ElfError::AllocationFailed)
    );
    assert_eq!(pages, vec![0xaau8; 4]);
    let empty = LoadSegment { offset: 0, vaddr: 0x1000, filesz: 0, memsz: 0 };
    assert_eq!(load_segment(&[], &empty, false, &mut pages), Ok(()));
    assert_eq!(pages, vec![0xaau8; 4]);
    let long = LoadSegment { offset: 0, vaddr: 1, filesz: 0, memsz: u64::MAX };
    assert_eq!(
        load_segment(&[], &long, true, &mut pages),
        Err(ElfError::SegmentOutOfBounds)
    );
}
