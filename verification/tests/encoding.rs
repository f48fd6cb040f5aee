use flate2::write::ZlibEncoder;
use flate2::Compression;
use pdf_lib::encode::{encode_data_to_png, encode_image_to_png, png_fits};
use pdf_lib::images::ImageInfo;
use std::io::{Cursor, Write};

fn image(width: u32, height: u32, bits: u8, color_space: &str, data: Vec<u8>) -> ImageInfo {
    ImageInfo {
        width,
        height,
        bits_per_component: bits,
        color_space: color_space.to_string(),
        filter: None,
        data,
        page: 1,
    }
}

fn deflated(data: &[u8]) -> Vec<u8> {
    let mut encoder = ZlibEncoder::new(Vec::new(), Compression::default());
    encoder.write_all(data).unwrap();
    encoder.finish().unwrap()
}

/// The size, format and pixels of a PNG file.
fn decoded(file: Vec<u8>) -> (u32, u32, png::ColorType, png::BitDepth, Vec<u8>) {
    let mut decoder = png::Decoder::new(Cursor::new(file));
    decoder.set_transformations(png::Transformations::IDENTITY);
    let mut reader = decoder.read_info().unwrap();
    let mut pixels = vec![0; reader.output_buffer_size().unwrap()];
    let frame = reader.next_frame(&mut pixels).unwrap();
    pixels.truncate(frame.buffer_size());
    (frame.width, frame.height, frame.color_type, frame.bit_depth, pixels)
}

#[test]
fn gray_image() {
    let file = encode_image_to_png(&image(2, 2, 8, "DeviceGray", vec![0, 85, 170, 255])).unwrap();
    assert_eq!(
        decoded(file),
        (2, 2, png::ColorType::Grayscale, png::BitDepth::Eight, vec![0, 85, 170, 255])
    );
}

#[test]
fn rgb_image() {
    let data = vec![1, 2, 3, 4, 5, 6];
    let file = encode_image_to_png(&image(2, 1, 8, "DeviceRGB", data.clone())).unwrap();
    assert_eq!(decoded(file), (2, 1, png::ColorType::Rgb, png::BitDepth::Eight, data));
}

#[test]
fn header_of_a_file() {
    let file = encode_image_to_png(&image(2, 1, 8, "DeviceRGB", vec![1, 2, 3, 4, 5, 6])).unwrap();
    assert_eq!(file[..8].to_vec(), vec![137, 80, 78, 71, 13, 10, 26, 10]);
    assert_eq!(file[8..29].to_vec(), vec![
        0, 0, 0, 13, 73, 72, 68, 82, 0, 0, 0, 2, 0, 0, 0, 1, 8, 2, 0, 0, 0,
    ]);
}

#[test]
fn unknown_color_space_is_rgb() {
    let data = vec![9, 8, 7];
    let file = encode_image_to_png(&image(1, 1, 8, "CalRGB", data.clone())).unwrap();
    assert_eq!(decoded(file), (1, 1, png::ColorType::Rgb, png::BitDepth::Eight, data));
}

#[test]
fn sixteen_bits_per_sample() {
    let data = vec![1, 2, 3, 4, 5, 6];
    let file = encode_image_to_png(&image(1, 1, 16, "DeviceRGB", data.clone())).unwrap();
    assert_eq!(decoded(file), (1, 1, png::ColorType::Rgb, png::BitDepth::Sixteen, data));
}

#[test]
fn packed_samples_are_gray() {
    for (bits, depth, row) in [
        (1, png::BitDepth::One, vec![0b1010_1010, 0b1100_0000]),
        (2, png::BitDepth::Two, vec![0x1b, 0x1b, 0xf0]),
        (4, png::BitDepth::Four, vec![0x12, 0x34, 0x56, 0x78, 0x9a]),
    ] {
        let mut data = row.clone();
        data.extend_from_slice(&row);
        let file = encode_image_to_png(&image(10, 2, bits, "DeviceRGB", data.clone())).unwrap();
        assert_eq!(decoded(file), (10, 2, png::ColorType::Grayscale, depth, data));
    }
}

#[test]
fn cmyk_image_is_written_as_rgb() {
    let data = vec![0, 0, 0, 0, 255, 0, 0, 0, 0, 0, 0, 255, 100, 100, 100, 50];
    let file = encode_image_to_png(&image(2, 2, 8, "DeviceCMYK", data)).unwrap();
    assert_eq!(
        decoded(file),
        (
            2,
            2,
            png::ColorType::Rgb,
            png::BitDepth::Eight,
            vec![255, 255, 255, 0, 255, 255, 0, 0, 0, 124, 124, 124]
        )
    );
}

#[test]
fn surplus_data_is_cut() {
    let exact = image(2, 1, 8, "DeviceGray", vec![7, 8]);
    let longer = image(2, 1, 8, "DeviceGray", vec![7, 8, 9, 10]);
    assert_eq!(encode_image_to_png(&exact), encode_image_to_png(&longer));
    let exact = image(1, 1, 8, "DeviceCMYK", vec![1, 2, 3, 4]);
    let longer = image(1, 1, 8, "DeviceCMYK", vec![1, 2, 3, 4, 5, 6, 7, 8, 9]);
    assert_eq!(encode_image_to_png(&exact), encode_image_to_png(&longer));
}

#[test]
fn too_little_data() {
    assert_eq!(
        encode_image_to_png(&image(2, 2, 8, "DeviceGray", vec![1, 2, 3])),
        Err("PNG write error: wrong data size, expected 4 got 3".to_string())
    );
    assert_eq!(
        encode_image_to_png(&image(5, 40, 8, "DeviceCMYK", vec![0; 44])),
        Err("PNG write error: wrong data size, expected 600 got 33".to_string())
    );
}

#[test]
fn image_without_pixels() {
    assert_eq!(
        encode_image_to_png(&image(0, 2, 8, "DeviceGray", vec![1])),
        Err("PNG header error: Zero width not allowed".to_string())
    );
    assert_eq!(
        encode_image_to_png(&image(2, 0, 8, "DeviceGray", vec![1])),
        Err("PNG header error: Zero height not allowed".to_string())
    );
    assert_eq!(
        encode_image_to_png(&image(0, 0, 8, "DeviceRGB", vec![])),
        Err("PNG header error: Zero width not allowed".to_string())
    );
}

#[test]
fn depth_that_png_does_not_have() {
    assert_eq!(
        encode_image_to_png(&image(8, 1, 3, "DeviceGray", vec![0; 100])),
        Err("PNG write error: wrong data size, expected 8 got 3".to_string())
    );
    assert_eq!(
        encode_image_to_png(&image(2, 1, 0, "DeviceGray", vec![0; 100])),
        Err("PNG write error: wrong data size, expected 2 got 0".to_string())
    );
    assert_eq!(
        encode_image_to_png(&image(1, 1, 12, "DeviceRGB", vec![0; 100])),
        Err("PNG write error: wrong data size, expected 3 got 5".to_string())
    );
    let file = encode_image_to_png(&image(1, 1, 3, "DeviceGray", vec![42, 1])).unwrap();
    assert_eq!(
        decoded(file),
        (1, 1, png::ColorType::Grayscale, png::BitDepth::Eight, vec![42])
    );
}

#[test]
fn compressed_data_is_decompressed_first() {
    let pixels = vec![10, 20, 30, 40, 50, 60];
    let plain = image(3, 2, 8, "DeviceGray", pixels.clone());
    let mut packed = image(3, 2, 8, "DeviceGray", deflated(&pixels));
    packed.filter = Some("/FlateDecode".to_string());
    assert_eq!(encode_image_to_png(&packed), encode_image_to_png(&plain));
    assert_eq!(encode_image_to_png(&packed), encode_data_to_png(&packed, pixels));
}

#[test]
fn other_filters_are_not_undone() {
    let mut img = image(2, 1, 8, "DeviceGray", vec![7, 8]);
    let plain = encode_image_to_png(&img);
    img.filter = Some("/LZWDecode".to_string());
    assert_eq!(encode_image_to_png(&img), plain);
}

#[test]
fn broken_compressed_data() {
    let mut img = image(2, 1, 8, "DeviceGray", vec![1, 2, 3, 4]);
    img.filter = Some("/FlateDecode".to_string());
    let message = encode_image_to_png(&img).unwrap_err();
    assert!(message.starts_with("FlateDecode error: "));
    assert!(message.len() > "FlateDecode error: ".len());
}

#[test]
fn sizes_that_can_be_computed() {
    assert!(png_fits(100, 100, 8, "DeviceRGB"));
    assert!(png_fits(u32::MAX, 0, 16, "DeviceRGB"));
    assert!(png_fits(u32::MAX, 1, 1, "DeviceGray"));
    assert!(!png_fits(u32::MAX, u32::MAX, 16, "DeviceRGB"));
}
