use coinbath::display::{attribute, encode, mismatch, virtual_size, Format, Output, Size};

#[test]
fn output_parses_its_three_forms() {
    assert_eq!("none".parse::<Output>().unwrap(), Output::Nowhere);
    assert_eq!(
        "/dev/fb0".parse::<Output>().unwrap(),
        Output::Framebuffer("/dev/fb0".to_string())
    );
    assert_eq!("shot.png".parse::<Output>().unwrap(), Output::Png("shot.png".to_string()));
    assert!("fb0".parse::<Output>().is_err());
}

#[test]
fn size_parses_and_refuses_zero() {
    let size: Size = "1280x400".parse().unwrap();
    assert_eq!((size.width, size.height), (1280, 400));
    assert!("1280".parse::<Size>().is_err());
    assert!("0x400".parse::<Size>().is_err());
}

#[test]
fn each_refused_argument_has_its_words() {
    assert_eq!(
        Output::parse("fb0").unwrap_err(),
        "fb0: expected none, a .png path, or a device path"
    );
    assert_eq!(Size::parse("1280").unwrap_err(), "1280: expected WIDTHxHEIGHT");
    assert_eq!(Size::parse("0x400").unwrap_err(), "0x400: a side is zero");
    assert_eq!(
        Size::parse("x400").unwrap_err(),
        "x400: cannot parse integer from empty string"
    );
    assert_eq!(Size::parse("12x4o").unwrap_err(), "12x4o: invalid digit found in string");
    assert_eq!(
        Size::parse("1x9999999999").unwrap_err(),
        "1x9999999999: number too large to fit in target type"
    );
}

fn two_by_one() -> Vec<u8> {
    vec![255, 0, 0, 255, 0, 0, 255, 255]
}

#[test]
fn rgb565_packs_red_and_blue_at_the_device_stride() {
    let bytes = encode(&two_by_one(), 2, 1, Format::Rgb565, 8);
    assert_eq!(bytes.len(), 8);
    assert_eq!(&bytes[..4], &[0x00, 0xF8, 0x1F, 0x00]);
    assert_eq!(&bytes[4..], &[0; 4], "padding past the pixels");
}

#[test]
fn xrgb8888_puts_blue_in_the_low_byte() {
    let bytes = encode(&two_by_one(), 2, 1, Format::Xrgb8888, 8);
    assert_eq!(bytes, [0, 0, 255, 0, 255, 0, 0, 0]);
}

/// The packing on slices.
fn plain(data: &[u8], width: usize, height: usize, format: Format, stride: usize) -> Vec<u8> {
    let mut out = vec![0u8; stride * height];
    for (row, pixels) in data.chunks_exact(width * 4).enumerate() {
        let line = &mut out[row * stride..];
        match format {
            Format::Rgb565 => {
                for (px, dst) in pixels.chunks_exact(4).zip(line.chunks_exact_mut(2)) {
                    let r = (px[0] as u16) >> 3;
                    let g = (px[1] as u16) >> 2;
                    let b = (px[2] as u16) >> 3;
                    dst.copy_from_slice(&((r << 11) | (g << 5) | b).to_le_bytes());
                }
            }
            Format::Xrgb8888 => {
                for (px, dst) in pixels.chunks_exact(4).zip(line.chunks_exact_mut(4)) {
                    dst.copy_from_slice(&[px[2], px[1], px[0], 0]);
                }
            }
        }
    }
    out
}

#[test]
fn packing_holds_at_any_stride() {
    let data: Vec<u8> = (0..3 * 4 * 4).map(|i| (i * 37 % 251) as u8).collect();
    for format in [Format::Rgb565, Format::Xrgb8888] {
        for stride in [0, 1, 3, 4, 6, 7, 12, 13, 20] {
            assert_eq!(
                encode(&data, 3, 4, format, stride),
                plain(&data, 3, 4, format, stride),
                "{format:?} {stride}"
            );
        }
    }
}

#[test]
fn the_framebuffer_is_read_from_its_attributes() {
    assert_eq!(virtual_size("1424,280"), Some(Size { width: 1424, height: 280 }));
    assert_eq!(virtual_size("1424"), None);
    assert_eq!(virtual_size("1424,x"), None);
    assert_eq!(attribute("5696", u64::MAX), Ok(5696));
    assert!(attribute("-1", u64::MAX).is_err());
    assert_eq!(Format::with_bits(16), Some(Format::Rgb565));
    assert_eq!(Format::with_bits(32), Some(Format::Xrgb8888));
    assert_eq!(Format::with_bits(24), None);
    assert_eq!((Format::Rgb565.bytes(), Format::Xrgb8888.bytes()), (2, 4));
}

#[test]
fn a_frame_of_another_size_is_refused() {
    let a = Size { width: 1424, height: 280 };
    let b = Size { width: 800, height: 480 };
    assert_eq!(mismatch(a, a), None);
    assert_eq!(mismatch(a, b).unwrap(), "frame is 1424x280, framebuffer is 800x480");
}
