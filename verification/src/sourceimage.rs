//! Seed images: colours, and a decoded image with its header.

use vstd::prelude::*;
use crate::grid::{shape_fits, GridView, PixelGrid};

verus! {

/// One pixel: red, green and blue, eight bits each.
///
/// Colours are ordered channel by channel, red first.
#[derive(Copy, Clone, Hash, Debug, PartialEq, Eq, PartialOrd, Ord, Structural)]
pub struct RGB(pub u8, pub u8, pub u8);

impl RGB {
    /// Channel-by-channel (lexicographic) order.
    pub open spec fn precedes(self, other: RGB) -> bool {
        self.0 < other.0 || (self.0 == other.0 && (self.1 < other.1 || (self.1 == other.1
            && self.2 < other.2)))
    }

    /// The colour as one number, red in the highest byte.
    pub open spec fn key(self) -> int {
        self.0 as int * 65536 + self.1 as int * 256 + self.2 as int
    }

    /// The colour as one number, red in the highest byte.
    pub fn sort_key(&self) -> (k: u32)
        ensures
            k == self.key(),
            k < 0x100_0000,
    {
        (self.0 as u32) * 65536 + (self.1 as u32) * 256 + (self.2 as u32)
    }

    /// The colour that a key stands for.
    pub fn from_sort_key(k: u32) -> (c: RGB)
        requires
            k < 0x100_0000,
        ensures
            c.key() == k,
    {
        RGB((k / 65536) as u8, ((k / 256) % 256) as u8, (k % 256) as u8)
    }

    /// Keys are ordered as the colours are, and equal keys mean equal colours.
    pub proof fn lemma_key_order(a: RGB, b: RGB)
        ensures
            a.precedes(b) <==> a.key() < b.key(),
            a == b <==> a.key() == b.key(),
    {
    }
}

/// How the samples of a decoded image are laid out.
#[derive(Copy, Clone, Debug, PartialEq, Eq, Structural)]
pub enum ColorType {
    Grayscale,
    RGB,
    Indexed,
    GrayscaleAlpha,
    RGBA,
}

/// The number of bits of one sample.
#[derive(Copy, Clone, Debug, PartialEq, Eq, Structural)]
pub enum BitDepth {
    One,
    Two,
    Four,
    Eight,
    Sixteen,
}

/// The header of a decoded image.
#[derive(Copy, Clone, Debug, PartialEq, Eq, Structural)]
pub struct ImageInfo {
    pub width: u32,
    pub height: u32,
    pub color_type: ColorType,
    pub bit_depth: BitDepth,
    pub line_size: usize,
}

/// A seed image: its pixels and the header it was decoded with.
#[derive(Debug)]
pub struct SeedImage {
    pub image_data: PixelGrid,
    pub image_info: ImageInfo,
}

/// Why a decoded frame is not a seed image.
#[derive(Copy, Clone, Debug, PartialEq, Eq, Structural)]
pub enum DecodeError {
    /// The frame does not hold three samples of eight bits for each pixel.
    WrongFormat { color_type: ColorType, bit_depth: BitDepth },
    /// The frame does not hold exactly the pixels that the header announces,
    /// or no grid of that size can exist.
    WrongSize,
}

/// The pixels that a run of bytes holds, three bytes each: red, green, blue.
pub open spec fn pixels_of(bytes: Seq<u8>) -> Seq<RGB> {
    Seq::new(bytes.len() / 3, |k: int| RGB(bytes[3 * k], bytes[3 * k + 1], bytes[3 * k + 2]))
}

/// The bytes of a run of pixels, three for each: red, green, blue.
pub open spec fn bytes_of(pixels: Seq<RGB>) -> Seq<u8> {
    Seq::new(
        3 * pixels.len(),
        |k: int|
            if k % 3 == 0 {
                pixels[k / 3].0
            } else if k % 3 == 1 {
                pixels[k / 3].1
            } else {
                pixels[k / 3].2
            },
    )
}

/// Writing pixels out as bytes and reading them back gives the same pixels.
pub proof fn lemma_pixels_round_trip(pixels: Seq<RGB>)
    ensures
        pixels_of(bytes_of(pixels)) == pixels,
{
}

/// Whether a frame with this header is one of three eight-bit samples per
/// pixel.
pub open spec fn is_rgb8(info: ImageInfo) -> bool {
    info.color_type == ColorType::RGB && info.bit_depth == BitDepth::Eight
}

/// Whether `frame` holds exactly the pixels of an image with this header and
/// a grid for them can exist.
pub open spec fn frame_fits(info: ImageInfo, frame: Seq<u8>) -> bool {
    frame.len() == 3 * (info.height as int * info.width as int) && shape_fits(
        info.height as nat,
        info.width as nat,
    )
}

impl ImageInfo {
    /// Accepts a header of three eight-bit samples per pixel, and refuses any
    /// other with its colour type and bit depth.
    pub fn check_format(&self) -> (checked: Result<(), DecodeError>)
        ensures
            match checked {
                Ok(_) => is_rgb8(*self),
                Err(fault) => !is_rgb8(*self) && fault == (DecodeError::WrongFormat {
                    color_type: self.color_type,
                    bit_depth: self.bit_depth,
                }),
            },
    {
        match (self.color_type, self.bit_depth) {
            (ColorType::RGB, BitDepth::Eight) => Ok(()),
            (color_type, bit_depth) => Err(DecodeError::WrongFormat { color_type, bit_depth }),
        }
    }
}

impl SeedImage {
    /// The seed image that a decoded frame holds.
    ///
    /// A frame of another format than three eight-bit samples per pixel is
    /// refused with its colour type and bit depth, and then a frame that does
    /// not hold `height * width` pixels.
    pub fn from_frame(info: ImageInfo, frame: &[u8]) -> (decoded: Result<SeedImage, DecodeError>)
        ensures
            match decoded {
                Ok(image) => {
                    &&& is_rgb8(info)
                    &&& frame_fits(info, frame@)
                    &&& image.image_info == info
                    &&& image.image_data@ == (GridView {
                        rows: info.height as nat,
                        cols: info.width as nat,
                        cells: pixels_of(frame@),
                    })
                },
                Err(DecodeError::WrongFormat { color_type, bit_depth }) => {
                    &&& !is_rgb8(info)
                    &&& color_type == info.color_type
                    &&& bit_depth == info.bit_depth
                },
                Err(DecodeError::WrongSize) => is_rgb8(info) && !frame_fits(info, frame@),
            },
    {
        match info.check_format() {
            Ok(_) => {},
            Err(fault) => {
                return Err(fault);
            },
        }
        if frame.len() % 3 != 0 {
            return Err(DecodeError::WrongSize);
        }
        let count: usize = frame.len() / 3;
        let mut pixels: Vec<RGB> = Vec::new();
        let mut at: usize = 0;
        while at < count
            invariant
                at <= count,
                frame@.len() == 3 * count,
                3 * count <= usize::MAX,
                pixels@.len() == at,
                forall|k: int| 0 <= k < at ==> pixels@[k] == pixels_of(frame@)[k],
            decreases count - at,
        {
            pixels.push(RGB(frame[3 * at], frame[3 * at + 1], frame[3 * at + 2]));
            at += 1;
        }
        assert(pixels@ =~= pixels_of(frame@));
        match PixelGrid::from_shape_vec((info.height as usize, info.width as usize), pixels) {
            Some(image_data) => Ok(SeedImage { image_data, image_info: info }),
            None => Err(DecodeError::WrongSize),
        }
    }

    /// The pixels as a frame of bytes, row after row, three bytes for each
    /// pixel: red, green, blue.
    pub fn to_frame(&self) -> (frame: Vec<u8>)
        ensures
            frame@ == bytes_of(self.image_data@.cells),
    {
        let pixels = self.image_data.to_vec();
        let mut frame: Vec<u8> = Vec::new();
        let mut at: usize = 0;
        while at < pixels.len()
            invariant
                at <= pixels@.len(),
                frame@.len() == 3 * at,
                forall|k: int| 0 <= k < 3 * at ==> frame@[k] == bytes_of(pixels@)[k],
            decreases pixels@.len() - at,
        {
            let pixel = pixels[at];
            frame.push(pixel.0);
            frame.push(pixel.1);
            frame.push(pixel.2);
            at += 1;
        }
        frame
    }
}

} // verus!
