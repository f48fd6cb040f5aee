use flate2::write::ZlibEncoder;
use flate2::Compression;
use pdf_lib::encode::encode_image_to_png;
use pdf_lib::image::PdfImage;
use std::io::Write;

fn image(filter: Option<&str>, data: Vec<u8>) -> PdfImage {
    PdfImage {
        width: 2,
        height: 1,
        bits_per_component: 8,
        color_space: "DeviceGray".to_string(),
        page: 3,
        filter: filter.map(|name| name.to_string()),
        data,
    }
}

fn deflated(data: &[u8]) -> Vec<u8> {
    let mut encoder = ZlibEncoder::new(Vec::new(), Compression::default());
    encoder.write_all(data).unwrap();
    encoder.finish().unwrap()
}

#[test]
fn format_follows_the_filter() {
    assert_eq!(image(Some("/DCTDecode"), vec![]).format(), "jpeg");
    assert_eq!(image(Some("/JPXDecode"), vec![]).format(), "jp2");
    assert_eq!(image(Some("/FlateDecode"), vec![]).format(), "raw");
    assert_eq!(image(Some("DCTDecode"), vec![]).format(), "raw");
    assert_eq!(image(None, vec![]).format(), "raw");
}

#[test]
fn image_files_are_left_as_they_are() {
    for name in ["/DCTDecode", "/JPXDecode"] {
        let img = image(Some(name), vec![1, 2, 3]);
        assert!(img.is_file());
        assert_eq!(img.raw_bytes(), vec![1, 2, 3]);
        assert_eq!(img.to_png(), Ok(vec![1, 2, 3]));
    }
    assert!(!image(Some("/FlateDecode"), vec![]).is_file());
}

#[test]
fn raw_bytes_of_compressed_data() {
    let img = image(Some("/FlateDecode"), deflated(&[5, 6, 7]));
    assert_eq!(img.raw_bytes(), vec![5, 6, 7]);
}

#[test]
fn raw_bytes_of_broken_data() {
    let img = image(Some("/FlateDecode"), vec![1, 2, 3, 4]);
    assert_eq!(img.raw_bytes(), vec![1, 2, 3, 4]);
}

#[test]
fn raw_bytes_without_a_known_filter() {
    assert_eq!(image(None, vec![4, 5]).raw_bytes(), vec![4, 5]);
    assert_eq!(image(Some("/LZWDecode"), vec![4, 5]).raw_bytes(), vec![4, 5]);
}

#[test]
fn raw_bytes_for_each_outcome_of_decompression() {
    let img = image(Some("/FlateDecode"), vec![1, 2]);
    assert_eq!(img.raw_bytes_from(Ok(vec![9])), vec![9]);
    assert_eq!(img.raw_bytes_from(Err("broken".to_string())), vec![1, 2]);
    let jpeg = image(Some("/DCTDecode"), vec![1, 2]);
    assert_eq!(jpeg.raw_bytes_from(Ok(vec![9])), vec![1, 2]);
}

#[test]
fn png_of_pixels() {
    let img = image(Some("/FlateDecode"), deflated(&[5, 6]));
    assert!(img.png_fits());
    let file = img.to_png().unwrap();
    assert_eq!(file[1..4].to_vec(), b"PNG".to_vec());
    assert_eq!(img.to_png(), encode_image_to_png(&img.to_info()));
    assert_eq!(img.to_png(), image(None, vec![5, 6]).to_png());
}

#[test]
fn png_of_an_image_that_is_too_large() {
    let mut img = image(None, vec![5]);
    assert_eq!(img.to_png_if_it_fits(), Some(img.to_png()));
    img.width = u32::MAX;
    img.height = u32::MAX;
    img.bits_per_component = 16;
    img.color_space = "DeviceRGB".to_string();
    assert!(!img.png_fits());
    assert_eq!(img.to_png_if_it_fits(), None);
    img.filter = Some("/FlateDecode".to_string());
    img.data = deflated(&[1]);
    assert_eq!(img.to_png_if_it_fits(), None);
    img.data = vec![1, 2, 3, 4];
    let message = img.to_png_if_it_fits().unwrap().unwrap_err();
    assert!(message.starts_with("FlateDecode error: "));
    assert_eq!(img.to_png(), Err(message));
    img.filter = Some("/DCTDecode".to_string());
    assert_eq!(img.to_png_if_it_fits(), Some(Ok(vec![1, 2, 3, 4])));
}

#[test]
fn png_error_is_passed_on() {
    assert_eq!(
        image(None, vec![5]).to_png(),
        Err("PNG write error: wrong data size, expected 2 got 1".to_string())
    );
}

#[test]
fn stored_form_and_back() {
    let img = image(Some("/FlateDecode"), vec![1, 2, 3]);
    let again = PdfImage::from_info(img.to_info());
    assert_eq!(again.__repr__(), img.__repr__());
    assert_eq!(again.filter, img.filter);
    assert_eq!(again.data, img.data);
    assert_eq!(again.bits_per_component, 8);
    let copy = img.clone();
    assert_eq!(copy.data, img.data);
}

#[test]
fn description_of_an_image() {
    assert_eq!(
        image(None, vec![]).__repr__(),
        "PdfImage(2x1, DeviceGray, page=3, format=raw)"
    );
    let mut img = image(Some("/DCTDecode"), vec![]);
    img.width = u32::MAX;
    img.height = 0;
    img.page = 1234567890;
    img.color_space = "DeviceRGB".to_string();
    assert_eq!(
        img.__repr__(),
        "PdfImage(4294967295x0, DeviceRGB, page=1234567890, format=jpeg)"
    );
}
