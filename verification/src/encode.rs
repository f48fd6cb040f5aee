//! Writing the image data of a document as PNG files.

use vstd::prelude::*;

use crate::cmyk::{channel_value, cmyk_to_rgb, lemma_pixel, rgb_pixels};
use crate::codec::{
    bytes_or_text, inflate, png_file, png_header, png_written, row_bytes, size_fits,
    write_png, zlib_decoded, BitDepth, ColorType, PngError, PngOutcome,
};
use crate::images::{ImageInfo, ImageView};
use crate::text::{decimal, opt_text, same_text};

verus! {

/// The colour type that an image is written in. Samples of fewer than eight bits
/// are packed gray values, since PNG has no colour of that depth.
pub open spec fn image_color(bits_per_component: u8, color_space: Seq<char>) -> ColorType {
    if bits_per_component < 8 || color_space == "DeviceGray"@ {
        ColorType::Grayscale
    } else {
        ColorType::Rgb
    }
}

/// The depth that an image is written in. A number of bits that PNG does not
/// have is taken for eight.
pub open spec fn image_depth(bits_per_component: u8) -> BitDepth {
    if bits_per_component == 1 {
        BitDepth::One
    } else if bits_per_component == 2 {
        BitDepth::Two
    } else if bits_per_component == 4 {
        BitDepth::Four
    } else if bits_per_component == 16 {
        BitDepth::Sixteen
    } else {
        BitDepth::Eight
    }
}

/// The number of bytes that the pixels of an image should have.
pub open spec fn expected_len(image: ImageView) -> nat {
    let samples = image_color(image.bits_per_component, image.color_space).samples();
    ((image.width * image.bits_per_component * samples + 7) / 8) as nat * image.height as nat
}

/// The pixels of an image whose decompressed data is `raw`.
pub open spec fn image_pixels(image: ImageView, raw: Seq<u8>) -> Seq<u8> {
    if image.color_space == "DeviceCMYK"@ {
        rgb_pixels(raw)
    } else {
        raw
    }
}

/// The pixels of an image without those that are too many.
pub open spec fn trimmed_pixels(image: ImageView, raw: Seq<u8>) -> Seq<u8> {
    let pixels = image_pixels(image, raw);
    if pixels.len() >= expected_len(image) {
        pixels.take(expected_len(image) as int)
    } else {
        pixels
    }
}

/// Whether the size of the PNG file's rows can be computed on this machine.
pub open spec fn png_size_fits(image: ImageView) -> bool {
    size_fits(
        image.width,
        image.height,
        image_color(image.bits_per_component, image.color_space),
        image_depth(image.bits_per_component),
    )
}

/// The PNG file for an image whose decompressed data is `raw`, or the message of
/// the error.
pub open spec fn png_of_data(image: ImageView, raw: Seq<u8>) -> Result<Seq<u8>, Seq<char>> {
    match png_written(
        image.width,
        image.height,
        image_color(image.bits_per_component, image.color_space),
        image_depth(image.bits_per_component),
        trimmed_pixels(image, raw),
    ) {
        PngOutcome::File(file) => Ok(file),
        PngOutcome::HeaderError(text) => Err("PNG header error: "@ + text),
        PngOutcome::DataError(text) => Err("PNG write error: "@ + text),
    }
}

/// The PNG file for an image, or the message of the error.
pub open spec fn png_of_image(image: ImageView) -> Result<Seq<u8>, Seq<char>> {
    if image.filter == Some("/FlateDecode"@) {
        match zlib_decoded(image.data) {
            Ok(raw) => png_of_data(image, raw),
            Err(text) => Err("FlateDecode error: "@ + text),
        }
    } else {
        png_of_data(image, image.data)
    }
}

/// Whether it can be said what comes of writing an image as a PNG file: the size
/// of the file's rows can be computed, or it is not needed, because the data
/// cannot be decompressed.
pub open spec fn is_encodable(image: ImageView) -> bool {
    png_size_fits(image) || (image.filter == Some("/FlateDecode"@) && zlib_decoded(
        image.data,
    ) is Err)
}

/// Whether the file for an image starts with the signature and the header chunk.
pub open spec fn has_png_header(image: ImageView, file: Seq<u8>) -> bool {
    file.len() > 29 && file.take(29) == png_header(
        image.width,
        image.height,
        image_color(image.bits_per_component, image.color_space),
        image_depth(image.bits_per_component),
    )
}

/// Whether an optional string holds the given text.
pub(crate) fn is_filter(filter: &Option<String>, name: &str) -> (yes: bool)
    ensures
        yes == (opt_text(*filter) == Some(name@)),
{
    match filter {
        Some(f) => same_text(f.as_str(), name),
        None => false,
    }
}

/// The depth for a number of bits.
fn depth_for(bits_per_component: u8) -> (depth: BitDepth)
    ensures
        depth == image_depth(bits_per_component),
{
    if bits_per_component == 1 {
        BitDepth::One
    } else if bits_per_component == 2 {
        BitDepth::Two
    } else if bits_per_component == 4 {
        BitDepth::Four
    } else if bits_per_component == 16 {
        BitDepth::Sixteen
    } else {
        BitDepth::Eight
    }
}

/// The colour type and the number of samples in a pixel.
fn color_for(bits_per_component: u8, color_space: &str) -> (color: (ColorType, u8))
    ensures
        color.0 == image_color(bits_per_component, color_space@),
        color.1 == color.0.samples(),
{
    if bits_per_component < 8 || same_text(color_space, "DeviceGray") {
        (ColorType::Grayscale, 1)
    } else {
        (ColorType::Rgb, 3)
    }
}

/// Puts a message behind the name of what failed.
fn message(what: &str, text: &String) -> (joined: String)
    ensures
        joined@ == what@ + text@,
{
    let mut joined = what.to_owned();
    joined.append(text.as_str());
    joined
}

/// Writes an image as a PNG file, from its decompressed data.
pub fn encode_data_to_png(img: &ImageInfo, raw: Vec<u8>) -> (png: Result<Vec<u8>, String>)
    requires
        png_size_fits(img@),
    ensures
        bytes_or_text(png) == png_of_data(img@, raw@),
        png matches Ok(file) ==> has_png_header(img@, file@),
{
    let (color, samples) = color_for(img.bits_per_component, img.color_space.as_str());
    let depth = depth_for(img.bits_per_component);
    let pixels: Vec<u8> = if same_text(img.color_space.as_str(), "DeviceCMYK") {
        cmyk_to_rgb(&raw)
    } else {
        raw
    };
    proof {
        let width = img.width as int;
        let bits = img.bits_per_component as int;
        assert(0 <= width * bits <= 0xffff_ffff * 255) by (nonlinear_arith)
            requires
                0 <= width <= 0xffff_ffff,
                0 <= bits <= 255,
        ;
        assert(0 <= (width * bits) * samples <= (0xffff_ffff * 255) * 3) by (nonlinear_arith)
            requires
                0 <= width * bits <= 0xffff_ffff * 255,
                0 <= samples <= 3,
        ;
    }
    let bits_per_row: u64 = img.width as u64 * img.bits_per_component as u64 * samples as u64;
    let bytes_per_row: u64 = (bits_per_row + 7) / 8;
    proof {
        let row = bytes_per_row as int;
        let height = img.height as int;
        assert(0 <= row * height <= 0xffff_ffff_ffff * 0xffff_ffff) by (nonlinear_arith)
            requires
                0 <= row <= 0xffff_ffff_ffff,
                0 <= height <= 0xffff_ffff,
        ;
    }
    let expected: u128 = bytes_per_row as u128 * img.height as u128;
    let keep: usize = if pixels.len() as u128 >= expected {
        expected as usize
    } else {
        pixels.len()
    };
    let data = vstd::slice::slice_subrange(pixels.as_slice(), 0, keep);
    assert(data@ =~= trimmed_pixels(img@, raw@));
    match write_png(img.width, img.height, color, depth, data) {
        Ok(file) => Ok(file),
        Err(PngError::Header(text)) => Err(message("PNG header error: ", &text)),
        Err(PngError::Data(text)) => Err(message("PNG write error: ", &text)),
    }
}

/// Writes an image as a PNG file. Its data is decompressed first if it went
/// through the `FlateDecode` filter; data with any other filter is taken as it
/// is.
pub fn encode_image_to_png(img: &ImageInfo) -> (png: Result<Vec<u8>, String>)
    requires
        is_encodable(img@),
    ensures
        bytes_or_text(png) == png_of_image(img@),
        png matches Ok(file) ==> has_png_header(img@, file@),
{
    if is_filter(&img.filter, "/FlateDecode") {
        match inflate(&img.data) {
            Ok(raw) => encode_data_to_png(img, raw),
            Err(text) => Err(message("FlateDecode error: ", &text)),
        }
    } else {
        let raw = img.data.clone();
        assert(raw@ =~= img.data@);
        encode_data_to_png(img, raw)
    }
}

/// The number of bits in a sample of the given depth.
fn bits_in(depth: BitDepth) -> (bits: u8)
    ensures
        bits == depth.bits(),
{
    match depth {
        BitDepth::One => 1,
        BitDepth::Two => 2,
        BitDepth::Four => 4,
        BitDepth::Eight => 8,
        BitDepth::Sixteen => 16,
    }
}

/// Whether the size of the PNG file's rows can be computed on this machine, for
/// an image of the given size and format.
pub fn png_fits(width: u32, height: u32, bits_per_component: u8, color_space: &str) -> (fits: bool)
    ensures
        fits == size_fits(
            width,
            height,
            image_color(bits_per_component, color_space@),
            image_depth(bits_per_component),
        ),
{
    let (_, samples) = color_for(bits_per_component, color_space);
    let bits: u8 = bits_in(depth_for(bits_per_component));
    proof {
        let w = width as int;
        assert(0 <= w * samples <= 0xffff_ffff * 3) by (nonlinear_arith)
            requires
                0 <= w <= 0xffff_ffff,
                0 <= samples <= 3,
        ;
        assert(0 <= (w * samples) * bits <= (0xffff_ffff * 3) * 16) by (nonlinear_arith)
            requires
                0 <= w * samples <= 0xffff_ffff * 3,
                0 <= bits <= 16,
        ;
    }
    let row: u64 = (width as u64 * samples as u64 * bits as u64 + 7) / 8;
    proof {
        let r = row as int;
        let h = height as int;
        assert(0 <= r * h <= 0xffff_ffff_ffff * 0xffff_ffff) by (nonlinear_arith)
            requires
                0 <= r <= 0xffff_ffff_ffff,
                0 <= h <= 0xffff_ffff,
        ;
    }
    height == 0 || ((row as u128) < usize::MAX as u128 && row as u128 * height as u128
        <= usize::MAX as u128)
}

/// Whether a PNG file can have samples of this many bits.
pub open spec fn is_png_depth(bits_per_component: u8) -> bool {
    bits_per_component == 1 || bits_per_component == 2 || bits_per_component == 4
        || bits_per_component == 8 || bits_per_component == 16
}

/// An image with samples of a depth that PNG has is written exactly if it has
/// pixels and its data is long enough for them.
pub proof fn lemma_png_written_iff(image: ImageView, raw: Seq<u8>)
    requires
        is_png_depth(image.bits_per_component),
    ensures
        png_of_data(image, raw) is Ok <==> image.width > 0 && image.height > 0 && image_pixels(
            image,
            raw,
        ).len() >= expected_len(image),
{
    let color = image_color(image.bits_per_component, image.color_space);
    let depth = image_depth(image.bits_per_component);
    let width = image.width as int;
    let bits = depth.bits() as int;
    let samples = color.samples() as int;
    assert(width * bits * samples == width * samples * bits) by (nonlinear_arith);
    assert(expected_len(image) == row_bytes(image.width, color, depth) * image.height as nat);
}

/// Data behind the last pixel makes no difference to the file.
pub proof fn lemma_surplus_ignored(image: ImageView, raw: Seq<u8>, surplus: Seq<u8>)
    requires
        image_pixels(image, raw).len() >= expected_len(image),
    ensures
        png_of_data(image, raw + surplus) == png_of_data(image, raw),
{
    let all = raw + surplus;
    assert(image_pixels(image, all).len() >= image_pixels(image, raw).len());
    assert(trimmed_pixels(image, all) =~= trimmed_pixels(image, raw));
}

/// What comes of writing an image that has pixels. Of the data as many bytes are
/// written as the image should have, from the front and in their order; CMYK data
/// is turned into RGB pixels first, each channel from its own ink and the black of
/// its pixel. Where these are as many as a PNG file of the colour type and depth
/// holds, the file is the one with these pixels; otherwise the message says how
/// many were expected and how many there were.
///
/// The colour type is gray for samples of fewer than eight bits and for
/// `DeviceGray`, and RGB for all else. The depth is the number of bits, or eight
/// where PNG does not have that number.
pub proof fn lemma_written_pixels(
    image: ImageView,
    raw: Seq<u8>,
    color: ColorType,
    samples: int,
    depth: BitDepth,
    bits: int,
) -> (data: Seq<u8>)
    requires
        image.width > 0,
        image.height > 0,
        image.bits_per_component < 8 || image.color_space == "DeviceGray"@ ==> color
            == ColorType::Grayscale && samples == 1,
        image.bits_per_component >= 8 && image.color_space != "DeviceGray"@ ==> color
            == ColorType::Rgb && samples == 3,
        image.bits_per_component == 1 ==> depth == BitDepth::One && bits == 1,
        image.bits_per_component == 2 ==> depth == BitDepth::Two && bits == 2,
        image.bits_per_component == 4 ==> depth == BitDepth::Four && bits == 4,
        image.bits_per_component == 16 ==> depth == BitDepth::Sixteen && bits == 16,
        !(image.bits_per_component == 1 || image.bits_per_component == 2
            || image.bits_per_component == 4 || image.bits_per_component == 16) ==> depth
            == BitDepth::Eight && bits == 8,
    ensures
        ({
            let wanted = ((image.width * image.bits_per_component * samples + 7) / 8)
                * image.height;
            let held = ((image.width * samples * bits + 7) / 8) * image.height;
            let given = if image.color_space == "DeviceCMYK"@ {
                (3 * (raw.len() / 4)) as int
            } else {
                raw.len() as int
            };
            &&& data.len() == if given < wanted {
                given
            } else {
                wanted
            }
            &&& image.color_space != "DeviceCMYK"@ ==> forall|i: int|
                #![trigger data[i]]
                0 <= i < data.len() ==> data[i] == raw[i]
            &&& image.color_space == "DeviceCMYK"@ ==> forall|i: int|
                #![trigger data[i]]
                0 <= i < data.len() ==> {
                    let ink = raw[4 * (i / 3) + i % 3];
                    let key = raw[4 * (i / 3) + 3];
                    let exact = (255 - ink) * (255 - key);
                    &&& data[i] <= exact / 255 <= data[i] + 1
                    &&& exact % 255 != 0 ==> data[i] == exact / 255
                    &&& data[i] == channel_value(ink, key)
                }
            &&& data.len() == held ==> png_of_data(image, raw) == Ok::<Seq<u8>, Seq<char>>(
                png_file(image.width, image.height, color, depth, data),
            )
            &&& data.len() != held ==> png_of_data(image, raw) == Err::<Seq<u8>, Seq<char>>(
                "PNG write error: "@ + ("wrong data size, expected "@ + decimal(held as nat)
                    + " got "@ + decimal(data.len())),
            )
        }),
{
    let data = trimmed_pixels(image, raw);
    let width = image.width as int;
    let height = image.height as int;
    let own = image.bits_per_component as int;
    assert(color.samples() == samples && depth.bits() == bits);
    assert(0 <= width * own) by (nonlinear_arith)
        requires
            width >= 0,
            own >= 0,
    ;
    assert(0 <= (width * own) * samples) by (nonlinear_arith)
        requires
            width * own >= 0,
            samples >= 0,
    ;
    let row = ((width * own) * samples + 7) / 8;
    assert(0 <= row * height) by (nonlinear_arith)
        requires
            row >= 0,
            height >= 0,
    ;
    assert(expected_len(image) == row * height);
    assert(0 <= width * samples) by (nonlinear_arith)
        requires
            width >= 0,
            samples >= 0,
    ;
    assert(0 <= (width * samples) * bits) by (nonlinear_arith)
        requires
            width * samples >= 0,
            bits >= 0,
    ;
    let held_row = ((width * samples) * bits + 7) / 8;
    assert(0 <= held_row * height) by (nonlinear_arith)
        requires
            held_row >= 0,
            height >= 0,
    ;
    assert(row_bytes(image.width, color, depth) == held_row);
    if image.color_space == "DeviceCMYK"@ {
        assert forall|i: int| #![trigger data[i]] 0 <= i < data.len() implies {
            let ink = raw[4 * (i / 3) + i % 3];
            let key = raw[4 * (i / 3) + 3];
            let exact = (255 - ink) * (255 - key);
            &&& data[i] <= exact / 255 <= data[i] + 1
            &&& exact % 255 != 0 ==> data[i] == exact / 255
            &&& data[i] == channel_value(ink, key)
        } by {
            lemma_pixel(raw, i / 3, i % 3);
            assert(3 * (i / 3) + i % 3 == i);
        }
    }
    data
}

/// An image without pixels is refused, whatever its data is, and its width is
/// looked at first.
pub proof fn lemma_no_pixels(image: ImageView, raw: Seq<u8>)
    ensures
        image.width == 0 ==> png_of_data(image, raw) == Err::<Seq<u8>, Seq<char>>(
            "PNG header error: "@ + "Zero width not allowed"@,
        ),
        image.width > 0 && image.height == 0 ==> png_of_data(image, raw) == Err::<
            Seq<u8>,
            Seq<char>,
        >("PNG header error: "@ + "Zero height not allowed"@),
{
}

/// Only `FlateDecode` is undone before an image is written; data that cannot be
/// decompressed is refused with the message of the error. All other data is
/// written as it is.
pub proof fn lemma_filter_undone(image: ImageView)
    ensures
        image.filter == Some("/FlateDecode"@) ==> (zlib_decoded(image.data) matches Ok(raw)
            ==> png_of_image(image) == png_of_data(image, raw)),
        image.filter == Some("/FlateDecode"@) ==> (zlib_decoded(image.data) matches Err(text)
            ==> png_of_image(image) == Err::<Seq<u8>, Seq<char>>("FlateDecode error: "@ + text)),
        image.filter != Some("/FlateDecode"@) ==> png_of_image(image) == png_of_data(
            image,
            image.data,
        ),
{
}

/// Two images of the same size and format with the same decompressed data become
/// the same file, whatever pages they are on and however they were stored.
pub proof fn lemma_png_from_size_and_format(a: ImageView, b: ImageView, raw: Seq<u8>)
    requires
        a.width == b.width,
        a.height == b.height,
        a.bits_per_component == b.bits_per_component,
        a.color_space == b.color_space,
    ensures
        png_of_data(a, raw) == png_of_data(b, raw),
{
}

/// The size of the rows of a PNG file can be computed where it fits into a `usize`:
/// that of one row with a byte to spare, and that of all rows.
pub proof fn lemma_png_size(image: ImageView, samples: int, bits: int)
    requires
        samples == if image.bits_per_component < 8 || image.color_space == "DeviceGray"@ {
            1int
        } else {
            3
        },
        bits == if image.bits_per_component == 1 || image.bits_per_component == 2
            || image.bits_per_component == 4 || image.bits_per_component == 16 {
            image.bits_per_component as int
        } else {
            8
        },
    ensures
        ({
            let row = (image.width * samples * bits + 7) / 8;
            &&& png_size_fits(image) <==> image.height == 0 || (row < usize::MAX && row
                * image.height <= usize::MAX)
            &&& is_encodable(image) <==> image.height == 0 || (row < usize::MAX && row
                * image.height <= usize::MAX) || (image.filter == Some("/FlateDecode"@)
                && zlib_decoded(image.data) is Err)
        }),
{
    let width = image.width as int;
    assert(0 <= width * samples) by (nonlinear_arith)
        requires
            width >= 0,
            samples >= 0,
    ;
    assert(0 <= (width * samples) * bits) by (nonlinear_arith)
        requires
            width * samples >= 0,
            bits >= 0,
    ;
}

} // verus!
