//! The corrupted kernel image that the failure-path test boots.

use crate::bootloader::elf::{header_of, load_outcome, ElfError, ElfHeader, EHDR_SIZE};
use vstd::prelude::*;

verus! {

/// An image with `XXXX` in place of its first four bytes.
pub open spec fn without_magic(image: Seq<u8>) -> Seq<u8> {
    seq![0x58u8, 0x58, 0x58, 0x58] + image.skip(4)
}

/// Replace the four-byte ELF magic, so that the loader's very first check is
/// the one that trips. `None` if the image is too small to corrupt.
pub fn corrupt_magic(image: &[u8]) -> (corrupted: Option<Vec<u8>>)
    ensures
        match corrupted {
            Some(bytes) => image@.len() >= 4 && bytes@ == without_magic(image@),
            None => image@.len() < 4,
        },
{
    if image.len() < 4 {
        return None;
    }
    let mut bytes: Vec<u8> = Vec::new();
    let mut i: usize = 0;
    while i < image.len()
        invariant
            i <= image@.len(),
            bytes@.len() == i,
            forall|k: int|
                0 <= k < i ==> #[trigger] bytes@[k] == (if k < 4 { 0x58u8 } else { image@[k] }),
        decreases image@.len() - i,
    {
        bytes.push(
            if i < 4 {
                0x58
            } else {
                image[i]
            },
        );
        i += 1;
    }
    assert(bytes@ =~= without_magic(image@));
    Some(bytes)
}

/// The loader rejects every corrupted image before it asks for a single
/// page, whatever the image held: for its magic, or because it is too small
/// to have a header at all.
pub proof fn a_corrupted_image_is_rejected(image: Seq<u8>, granted: int)
    requires
        image.len() >= 4,
    ensures
        header_of(without_magic(image)) == Err::<ElfHeader, ElfError>(
            if image.len() >= EHDR_SIZE {
                ElfError::BadMagic
            } else {
                ElfError::TooSmall
            },
        ),
        load_outcome(without_magic(image), granted) is Err,
{
    assert(without_magic(image)[0] == 0x58);
}

/// A corrupted image is as long as it was, and differs in its first four
/// bytes alone, none of which is left from the magic.
pub proof fn only_the_magic_is_corrupted(image: Seq<u8>, i: int)
    requires
        image.len() >= 4,
        0 <= i < image.len(),
    ensures
        without_magic(image).len() == image.len(),
        i >= 4 ==> without_magic(image)[i] == image[i],
        i < 4 ==> without_magic(image)[i] == 0x58,
{
}

} // verus!
