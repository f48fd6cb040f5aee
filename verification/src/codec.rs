//! The compressed formats that image data passes through: zlib, read by
//! `flate2`, and PNG, written by `png`.

use std::io::Read;
use vstd::prelude::*;

use crate::text::decimal;

verus! {

/// The colour types that images are written in.
#[derive(Clone, Copy, Debug, PartialEq, Eq, Structural)]
pub enum ColorType {
    Grayscale,
    Rgb,
}

/// The number of bits in a sample.
#[derive(Clone, Copy, Debug, PartialEq, Eq, Structural)]
pub enum BitDepth {
    One,
    Two,
    Four,
    Eight,
    Sixteen,
}

impl ColorType {
    /// The number of samples in a pixel.
    pub open spec fn samples(self) -> nat {
        match self {
            ColorType::Grayscale => 1,
            ColorType::Rgb => 3,
        }
    }

    /// The number that a PNG file has for this colour type.
    pub open spec fn code(self) -> u8 {
        match self {
            ColorType::Grayscale => 0,
            ColorType::Rgb => 2,
        }
    }
}

impl BitDepth {
    /// The number of bits in a sample.
    pub open spec fn bits(self) -> u8 {
        match self {
            BitDepth::One => 1,
            BitDepth::Two => 2,
            BitDepth::Four => 4,
            BitDepth::Eight => 8,
            BitDepth::Sixteen => 16,
        }
    }
}

/// Why an image could not be written as a PNG file.
#[derive(Debug)]
pub enum PngError {
    /// The header was refused.
    Header(String),
    /// The pixels were refused.
    Data(String),
}

/// What comes of writing a PNG file.
pub enum PngOutcome {
    File(Seq<u8>),
    HeaderError(Seq<char>),
    DataError(Seq<char>),
}

/// What the result of writing a PNG file holds.
pub open spec fn png_outcome(r: Result<Vec<u8>, PngError>) -> PngOutcome {
    match r {
        Ok(bytes) => PngOutcome::File(bytes@),
        Err(PngError::Header(text)) => PngOutcome::HeaderError(text@),
        Err(PngError::Data(text)) => PngOutcome::DataError(text@),
    }
}

/// What a result of bytes or a message holds.
pub open spec fn bytes_or_text(r: Result<Vec<u8>, String>) -> Result<Seq<u8>, Seq<char>> {
    match r {
        Ok(bytes) => Ok(bytes@),
        Err(text) => Err(text@),
    }
}

/// What a zlib stream decompresses to, or the message of the error in it.
pub uninterp spec fn zlib_decoded(data: Seq<u8>) -> Result<Seq<u8>, Seq<char>>;

/// Reads a `flate2::read::ZlibDecoder` over `data` to its end. What comes out, or
/// the message of the error, is a function of the data.
#[verifier::external_body]
pub(crate) fn inflate(data: &Vec<u8>) -> (decoded: Result<Vec<u8>, String>)
    ensures
        bytes_or_text(decoded) == zlib_decoded(data@),
{
    let mut decoder = flate2::read::ZlibDecoder::new(&data[..]);
    let mut buf = Vec::new();
    match decoder.read_to_end(&mut buf) {
        Ok(_) => Ok(buf),
        Err(e) => Err(e.to_string()),
    }
}

/// The number of bytes in a row of pixels.
pub open spec fn row_bytes(width: u32, color: ColorType, depth: BitDepth) -> nat {
    ((width * color.samples() * depth.bits() + 7) / 8) as nat
}

/// Whether the size of an image can be computed on this machine.
pub open spec fn size_fits(width: u32, height: u32, color: ColorType, depth: BitDepth) -> bool {
    height > 0 ==> row_bytes(width, color, depth) < usize::MAX && row_bytes(width, color, depth)
        * height <= usize::MAX
}

/// A number as four bytes, the most significant first.
pub open spec fn big_endian(n: u32) -> Seq<u8> {
    seq![
        (n / 0x100_0000) as u8,
        (n / 0x1_0000 % 0x100) as u8,
        (n / 0x100 % 0x100) as u8,
        (n % 0x100) as u8,
    ]
}

/// The first bytes of a PNG file: its signature, and its `IHDR` chunk up to the
/// checksum.
pub open spec fn png_header(width: u32, height: u32, color: ColorType, depth: BitDepth) -> Seq<u8> {
    seq![137u8, 80, 78, 71, 13, 10, 26, 10, 0, 0, 0, 13, 73, 72, 68, 82] + big_endian(width)
        + big_endian(height) + seq![depth.bits(), color.code(), 0, 0, 0]
}

/// The PNG file for an image whose size and data agree.
pub uninterp spec fn png_file(
    width: u32,
    height: u32,
    color: ColorType,
    depth: BitDepth,
    data: Seq<u8>,
) -> Seq<u8>;

/// What comes of writing `data` as a PNG file. An image without pixels is
/// refused, and so is data of another length than the size asks for.
pub open spec fn png_written(
    width: u32,
    height: u32,
    color: ColorType,
    depth: BitDepth,
    data: Seq<u8>,
) -> PngOutcome {
    let size = row_bytes(width, color, depth) * height as nat;
    if width == 0 {
        PngOutcome::HeaderError("Zero width not allowed"@)
    } else if height == 0 {
        PngOutcome::HeaderError("Zero height not allowed"@)
    } else if data.len() != size {
        PngOutcome::DataError(
            "wrong data size, expected "@ + decimal(size) + " got "@ + decimal(data.len()),
        )
    } else {
        PngOutcome::File(png_file(width, height, color, depth, data))
    }
}

/// Writes one image with a `png::Encoder`: sets the colour type and the depth,
/// calls `write_header`, then `write_image_data`.
///
/// The header is refused where a side is zero, and the data where its length is
/// not that of the rows, with the messages that `png` has for these. A file that
/// comes out is a function of the arguments and starts with the signature and
/// the header chunk. `png` does not write colour with fewer than eight bits in a
/// sample, and computes the length of the data in a `usize`.
#[verifier::external_body]
pub(crate) fn write_png(
    width: u32,
    height: u32,
    color: ColorType,
    depth: BitDepth,
    data: &[u8],
) -> (written: Result<Vec<u8>, PngError>)
    requires
        size_fits(width, height, color, depth),
        color is Rgb ==> depth.bits() >= 8,
    ensures
        png_outcome(written) == png_written(width, height, color, depth, data@),
        written matches Ok(file) ==> file@ == png_file(width, height, color, depth, data@),
        written matches Ok(file) ==> file@.len() > 29 && file@.take(29) == png_header(
            width,
            height,
            color,
            depth,
        ),
{
    let mut buf = Vec::new();
    let mut encoder = png::Encoder::new(&mut buf, width, height);
    encoder.set_color(
        match color { ColorType::Grayscale => png::ColorType::Grayscale, ColorType::Rgb => png::ColorType::Rgb },
    );
    encoder.set_depth(
        match depth { BitDepth::One => png::BitDepth::One, BitDepth::Two => png::BitDepth::Two, BitDepth::Four => png::BitDepth::Four, BitDepth::Eight => png::BitDepth::Eight, BitDepth::Sixteen => png::BitDepth::Sixteen },
    );
    let mut writer = encoder.write_header().map_err(|e| PngError::Header(e.to_string()))?;
    writer.write_image_data(data).map_err(|e| PngError::Data(e.to_string()))?;
    drop(writer);
    Ok(buf)
}

} // verus!
