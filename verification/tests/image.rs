use coinbath::image::{Image, ImageError};
use coinbath::paint::{blended, Frame};

/// A PNG file of some samples.
fn png_of(
    width: u32,
    height: u32,
    color: png::ColorType,
    depth: png::BitDepth,
    data: &[u8],
) -> Vec<u8> {
    let mut bytes = Vec::new();
    let mut encoder = png::Encoder::new(&mut bytes, width, height);
    encoder.set_color(color);
    encoder.set_depth(depth);
    let mut writer = encoder.write_header().unwrap();
    writer.write_image_data(data).unwrap();
    writer.finish().unwrap();
    bytes
}

/// A picture of the badger's size, with a clear corner.
fn badger() -> Vec<u8> {
    let mut data = Vec::new();
    for y in 0..239u32 {
        for x in 0..295u32 {
            let alpha = if x < 20 && y < 20 { 0 } else { 255 - (x % 7) as u8 };
            data.extend_from_slice(&[x as u8, y as u8, 90, alpha]);
        }
    }
    png_of(295, 239, png::ColorType::Rgba, png::BitDepth::Eight, &data)
}

fn blank(width: u32, height: u32) -> Frame {
    Frame { width, height, data: vec![0; width as usize * height as usize * 4] }
}

/// The blit on machine doubles.
fn plain_blit(image: &Image, frame: &mut Frame, x: i32, y: i32, height: u32) {
    let scale = height as f64 / image.height as f64;
    let width = (image.width as f64 * height as f64 / image.height as f64) as u32;
    let (dst_w, dst_h) = (frame.width as i32, frame.height as i32);
    for ty in 0..height as i32 {
        let py = y + ty;
        if py < 0 || py >= dst_h {
            continue;
        }
        let sy = ((ty as f64 / scale) as usize).min(image.height as usize - 1);
        for tx in 0..width as i32 {
            let px = x + tx;
            if px < 0 || px >= dst_w {
                continue;
            }
            let sx = ((tx as f64 / scale) as usize).min(image.width as usize - 1);
            let si = (sy * image.width as usize + sx) * 4;
            let di = (py as usize * dst_w as usize + px as usize) * 4;
            let alpha = image.data[si + 3] as u16;
            if alpha == 0 {
                continue;
            }
            for c in 0..3 {
                let under = frame.data[di + c] as u16;
                frame.data[di + c] =
                    ((image.data[si + c] as u16 * alpha + under * (255 - alpha)) / 255) as u8;
            }
            frame.data[di + 3] = 255;
        }
    }
}

#[test]
fn the_badger_decodes_and_blits() {
    let image = Image::from_png(&badger()).unwrap();
    assert_eq!((image.width, image.height), (295, 239));
    let mut frame = blank(200, 100);
    image.blit(&mut frame, 10, 0, 100);
    let lit = frame
        .data
        .chunks_exact(4)
        .filter(|px| px[0] > 0 || px[1] > 0 || px[2] > 0)
        .count();
    assert!(lit > 0);
    assert_eq!(image.width_at(100), 123);
}

#[test]
fn blits_past_the_edges_without_panicking() {
    let image = Image::from_png(&badger()).unwrap();
    let mut frame = blank(50, 50);
    image.blit(&mut frame, -40, -40, 300);
}

#[test]
fn a_blit_is_nearest_neighbor_by_alpha() {
    let image = Image::from_png(&badger()).unwrap();
    for (x, y, height) in [(3, 4, 32), (-10, -5, 60), (70, 30, 90), (0, 0, 1), (0, 0, 0)] {
        let mut got = blank(80, 40);
        for (i, b) in got.data.iter_mut().enumerate() {
            *b = (i * 31 % 256) as u8;
        }
        let mut want = got.clone();
        image.blit(&mut got, x, y, height);
        plain_blit(&image, &mut want, x, y, height);
        assert!(got == want, "at {x}, {y}, {height} tall");
    }
}

#[test]
fn an_rgb_image_is_opaque() {
    let rgb = [1, 2, 3, 4, 5, 6];
    let file = png_of(2, 1, png::ColorType::Rgb, png::BitDepth::Eight, &rgb);
    let image = Image::from_png(&file).unwrap();
    assert_eq!(image.data, [1, 2, 3, 255, 4, 5, 6, 255]);
    let rgba = [1, 2, 3, 4, 5, 6, 7, 8];
    let file = png_of(2, 1, png::ColorType::Rgba, png::BitDepth::Eight, &rgba);
    assert_eq!(Image::from_png(&file).unwrap().data, rgba);
}

#[test]
fn other_files_are_refused() {
    assert_eq!(Image::from_png(b"not a png").unwrap_err(), ImageError::Unreadable);
    let gray = png_of(2, 1, png::ColorType::Grayscale, png::BitDepth::Eight, &[7, 9]);
    assert_eq!(Image::from_png(&gray).unwrap_err(), ImageError::Color(0));
    let deep = png_of(1, 1, png::ColorType::Rgb, png::BitDepth::Sixteen, &[0; 6]);
    assert_eq!(Image::from_png(&deep).unwrap_err(), ImageError::Depth(16));
    let whole = badger();
    assert_eq!(Image::from_png(&whole[..200]).unwrap_err(), ImageError::Unreadable);
    assert_eq!(Image::from_pixels(2, 2, 6, vec![0; 15]).unwrap_err(), ImageError::Size);
    assert_eq!(Image::from_pixels(0, 2, 6, vec![]).unwrap_err(), ImageError::Size);
}

#[test]
fn a_channel_is_blended_by_weight() {
    assert_eq!(blended(255, 255, 0), 255);
    assert_eq!(blended(255, 0, 17), 17);
    assert_eq!(blended(200, 128, 100), ((200 * 128 + 100 * 127) / 255) as u8);
}
