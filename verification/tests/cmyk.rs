use pdf_lib::cmyk::{channel, cmyk_to_rgb};

/// The formula in double precision.
fn reference(ink: u8, key: u8) -> u8 {
    let c = ink as f64 / 255.0;
    let k = key as f64 / 255.0;
    ((1.0 - c) * (1.0 - k) * 255.0) as u8
}

#[test]
fn channel_agrees_with_double_precision_everywhere() {
    for ink in 0..=255u8 {
        for key in 0..=255u8 {
            assert_eq!(channel(ink, key), reference(ink, key), "ink {ink}, key {key}");
        }
    }
}

#[test]
fn channel_is_the_exact_quotient_or_one_less() {
    for ink in 0..=255u32 {
        for key in 0..=255u32 {
            let product = (255 - ink) * (255 - key);
            let exact = product / 255;
            let value = channel(ink as u8, key as u8) as u32;
            if product % 255 == 0 {
                assert!(value == exact || value + 1 == exact);
            } else {
                assert_eq!(value, exact);
            }
        }
    }
}

#[test]
fn white_and_black() {
    assert_eq!(channel(0, 0), 255);
    assert_eq!(channel(0, 255), 0);
    assert_eq!(channel(255, 0), 0);
    assert_eq!(channel(255, 255), 0);
    assert_eq!(channel(100, 50), 124);
}

#[test]
fn pixels_are_converted_one_by_one() {
    let cmyk = vec![0, 255, 0, 0, 0, 0, 0, 255, 100, 0, 255, 50];
    assert_eq!(cmyk_to_rgb(&cmyk), vec![255, 0, 255, 0, 0, 0, 124, channel(0, 50), 0]);
}

#[test]
fn bytes_behind_the_last_pixel_are_left_out() {
    assert_eq!(cmyk_to_rgb(&vec![0, 0, 0, 0, 9, 9, 9]), vec![255, 255, 255]);
    assert_eq!(cmyk_to_rgb(&vec![1, 2, 3]), Vec::<u8>::new());
    assert_eq!(cmyk_to_rgb(&Vec::new()), Vec::<u8>::new());
}
