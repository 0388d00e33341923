//! Describing the linear framebuffer of the Graphics Output Protocol.

use crate::boot_info::{FrameBufferInfo, PixelFormatKind};
use vstd::prelude::*;

verus! {

/// The pixel formats the firmware can report.
#[derive(Clone, Copy, Debug, PartialEq, Eq, Structural)]
pub enum GopPixelFormat {
    Rgb,
    Bgr,
    Bitmask,
    BltOnly,
}

/// The drawable format behind a firmware format, if it is one.
pub open spec fn drawable(format: GopPixelFormat) -> Option<PixelFormatKind> {
    match format {
        GopPixelFormat::Rgb => Some(PixelFormatKind::Rgb),
        GopPixelFormat::Bgr => Some(PixelFormatKind::Bgr),
        GopPixelFormat::Bitmask => None,
        GopPixelFormat::BltOnly => None,
    }
}

/// The drawable format behind a firmware format, if it is one: whether there
/// is a framebuffer to look at at all.
pub fn drawable_format(format: GopPixelFormat) -> (kind: Option<PixelFormatKind>)
    ensures
        kind == drawable(format),
{
    match format {
        GopPixelFormat::Rgb => Some(PixelFormatKind::Rgb),
        GopPixelFormat::Bgr => Some(PixelFormatKind::Bgr),
        GopPixelFormat::Bitmask | GopPixelFormat::BltOnly => None,
    }
}

/// Describe the current mode's framebuffer, or `None` if the mode is not
/// supported.
///
/// Only the two directly drawable formats are. Bitmask and blt-only modes
/// would need a conversion that the kernel does not have, so they are
/// refused rather than rendered as garbage. A dimension keeps its low 32
/// bits.
pub fn describe_framebuffer(
    addr: u64,
    size: u64,
    resolution: (u64, u64),
    stride: u64,
    format: GopPixelFormat,
) -> (info: Option<FrameBufferInfo>)
    ensures
        info == (match drawable(format) {
            None => None,
            Some(kind) => Some(
                FrameBufferInfo {
                    addr,
                    size,
                    width: (resolution.0 % 0x1_0000_0000) as u32,
                    height: (resolution.1 % 0x1_0000_0000) as u32,
                    stride: (stride % 0x1_0000_0000) as u32,
                    bytes_per_pixel: 4,
                    pixel_format_raw: kind.raw(),
                },
            ),
        }),
{
    let kind = match drawable_format(format) {
        Some(kind) => kind,
        None => return None,
    };
    Some(
        FrameBufferInfo::new(
            addr,
            size,
            (resolution.0 % 0x1_0000_0000) as u32,
            (resolution.1 % 0x1_0000_0000) as u32,
            (stride % 0x1_0000_0000) as u32,
            4,
            kind,
        ),
    )
}

/// A firmware format is drawable exactly if it is one of the two with four
/// plain bytes to a pixel, and it stays the format it was: red first or blue
/// first.
pub proof fn only_the_plain_formats_are_drawable(format: GopPixelFormat)
    ensures
        drawable(format) == Some(PixelFormatKind::Rgb) <==> format == GopPixelFormat::Rgb,
        drawable(format) == Some(PixelFormatKind::Bgr) <==> format == GopPixelFormat::Bgr,
        drawable(format) is None <==> format == GopPixelFormat::Bitmask || format
            == GopPixelFormat::BltOnly,
{
}

} // verus!
