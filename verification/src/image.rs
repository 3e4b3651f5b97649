//! Detection of the image container held in a raw cover blob.
//!
//! A blob is accepted only when it starts with one of the three supported
//! magic numbers; everything else is rejected by the transform stage.

use vstd::prelude::*;

verus! {

/// The image containers the pipeline accepts.
#[derive(Debug, Clone, Copy, PartialEq, Eq, Structural)]
pub enum ImageFormat {
    Jpeg,
    Png,
    Webp,
}

/// A JPEG payload: starts with FF D8 FF.
pub open spec fn is_jpeg(data: Seq<u8>) -> bool {
    data.len() >= 3 && data[0] == 0xffu8 && data[1] == 0xd8u8 && data[2] == 0xffu8
}

/// A PNG payload: starts with 89 50 4E 47.
pub open spec fn is_png(data: Seq<u8>) -> bool {
    data.len() >= 4 && data[0] == 0x89u8 && data[1] == 0x50u8 && data[2] == 0x4eu8 && data[3]
        == 0x47u8
}

/// A WebP payload: a RIFF container whose form type is WEBP.
pub open spec fn is_webp(data: Seq<u8>) -> bool {
    data.len() >= 12 && data[0] == 0x52u8 && data[1] == 0x49u8 && data[2] == 0x46u8 && data[3]
        == 0x46u8 && data[8] == 0x57u8 && data[9] == 0x45u8 && data[10] == 0x42u8 && data[11]
        == 0x50u8
}

/// What `ImageFormat::from_bytes` returns: blobs shorter than four bytes are
/// rejected outright, then the three magic numbers are tried in order.
pub open spec fn spec_format_of(data: Seq<u8>) -> Option<ImageFormat> {
    if data.len() < 4 {
        None
    } else if is_jpeg(data) {
        Some(ImageFormat::Jpeg)
    } else if is_png(data) {
        Some(ImageFormat::Png)
    } else if is_webp(data) {
        Some(ImageFormat::Webp)
    } else {
        None
    }
}

impl ImageFormat {
    /// Detect the format from the leading bytes of a raw image blob.
    pub fn from_bytes(data: &[u8]) -> (r: Option<ImageFormat>)
        ensures
            r == spec_format_of(data@),
    {
        if data.len() < 4 {
            return None;
        }
        if data[0] == 0xff && data[1] == 0xd8 && data[2] == 0xff {
            return Some(ImageFormat::Jpeg);
        }
        if data[0] == 0x89 && data[1] == 0x50 && data[2] == 0x4e && data[3] == 0x47 {
            return Some(ImageFormat::Png);
        }
        if data.len() >= 12 && data[0] == 0x52 && data[1] == 0x49 && data[2] == 0x46 && data[3]
            == 0x46 && data[8] == 0x57 && data[9] == 0x45 && data[10] == 0x42 && data[11] == 0x50 {
            return Some(ImageFormat::Webp);
        }
        None
    }

    /// The file extension used for covers stored in this format.
    pub open spec fn spec_extension(self) -> Seq<char> {
        match self {
            ImageFormat::Jpeg => "jpg"@,
            ImageFormat::Png => "png"@,
            ImageFormat::Webp => "webp"@,
        }
    }

    /// The file extension written after the item id in a stored cover's name.
    pub fn extension(&self) -> (r: &'static str)
        ensures
            r@ == self.spec_extension(),
    {
        match self {
            ImageFormat::Jpeg => "jpg",
            ImageFormat::Png => "png",
            ImageFormat::Webp => "webp",
        }
    }
}

} // verus!
