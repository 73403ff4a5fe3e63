use coinbath::paint::{Frame, Rgb};
use coinbath::single::Single;
use coinbath::text::{draw, left_edge, measure, whole, Align, Glyph};

fn s(x: f32) -> Single {
    Single { bits: x.to_bits() }
}

fn f(x: Single) -> f32 {
    f32::from_bits(x.bits)
}

const WHITE: Rgb = [255, 255, 255];

/// A run of solid blocks, one for each character, at a size.
fn blocks(text: &str, px: f32) -> Vec<Glyph> {
    let (width, height) = ((px * 0.5) as usize, (px * 0.7) as usize);
    text.chars()
        .map(|_| Glyph {
            xmin: 1,
            ymin: 0,
            width,
            height,
            advance: s(px * 0.5 + 2.25),
            coverage: vec![200; width * height],
        })
        .collect()
}

fn blank(width: u32, height: u32) -> Frame {
    Frame { width, height, data: vec![0; width as usize * height as usize * 4] }
}

fn lit_pixels(frame: &Frame) -> usize {
    frame
        .data
        .chunks_exact(4)
        .filter(|px| px[0] > 0 || px[1] > 0 || px[2] > 0)
        .count()
}

#[test]
fn draws_something_and_more_at_a_larger_size() {
    let mut small = blank(400, 120);
    draw(&mut small, &blocks("8", 24.0), s(22.0), WHITE, 0, 0);
    let mut large = blank(400, 120);
    draw(&mut large, &blocks("8", 72.0), s(66.0), WHITE, 0, 0);
    assert!(lit_pixels(&small) > 0);
    assert!(lit_pixels(&large) > lit_pixels(&small));
}

#[test]
fn the_wordmark_face_sets_its_six_letters() {
    let mut frame = blank(400, 120);
    let glyphs = blocks("mujina", 48.0);
    assert_eq!(glyphs.len(), 6);
    draw(&mut frame, &glyphs, s(44.0), WHITE, 0, 0);
    assert!(lit_pixels(&frame) > 0);
    assert!(f(measure(&glyphs)) > 0.0);
}

#[test]
fn right_alignment_ends_at_the_edge_given() {
    let mut frame = blank(200, 60);
    let glyphs = blocks("42", 40.0);
    let x = left_edge(Align::Right, 150, measure(&glyphs));
    draw(&mut frame, &glyphs, s(36.0), WHITE, x, 0);
    let lit_columns: Vec<usize> = (0..200)
        .filter(|&x| (0..60).any(|y| frame.data[(y * 200 + x) * 4] > 0))
        .collect();
    let right = *lit_columns.last().unwrap();
    assert!((140..=150).contains(&right), "rightmost lit column {right}");
}

#[test]
fn clips_off_the_edges_without_panicking() {
    let mut frame = blank(50, 20);
    let glyphs = blocks("clipped text", 40.0);
    draw(&mut frame, &glyphs, s(36.0), WHITE, -30, -10);
    draw(&mut frame, &glyphs, s(36.0), WHITE, 45, 15);
}

/// The drawing on machine singles.
fn plain_draw(frame: &mut Frame, glyphs: &[Glyph], ascent: f32, color: Rgb, x: i32, y: i32) {
    let (width, height) = (frame.width as i32, frame.height as i32);
    let mut pen = x as f32;
    for g in glyphs {
        let left = pen as i32 + g.xmin;
        let top = y + ascent as i32 - g.height as i32 - g.ymin;
        for row in 0..g.height {
            for col in 0..g.width {
                let coverage = g.coverage[row * g.width + col] as u16;
                let (px, py) = (left + col as i32, top + row as i32);
                if coverage == 0 || px < 0 || px >= width || py < 0 || py >= height {
                    continue;
                }
                let i = (py as usize * width as usize + px as usize) * 4;
                for (c, &value) in color.iter().enumerate() {
                    let under = frame.data[i + c] as u16;
                    frame.data[i + c] =
                        ((value as u16 * coverage + under * (255 - coverage)) / 255) as u8;
                }
                frame.data[i + 3] = 255;
            }
        }
        pen += f(g.advance);
    }
}

#[test]
fn a_run_is_laid_along_the_pen() {
    let mut glyphs = blocks("abc", 17.0);
    for (i, g) in glyphs.iter_mut().enumerate() {
        g.xmin = i as i32 - 1;
        g.ymin = 2 - i as i32 * 3;
        for (k, c) in g.coverage.iter_mut().enumerate() {
            *c = (k * 53 % 256) as u8;
        }
    }
    for (x, y) in [(0, 0), (-9, -4), (30, 12), (5, 3)] {
        let mut got = blank(40, 24);
        for (i, b) in got.data.iter_mut().enumerate() {
            *b = (i * 29 % 256) as u8;
        }
        let mut want = got.clone();
        draw(&mut got, &glyphs, s(15.6), [10, 200, 90], x as i64, y);
        plain_draw(&mut want, &glyphs, 15.6, [10, 200, 90], x, y);
        assert!(got == want, "at {x}, {y}");
    }
}

#[test]
fn edges_follow_the_alignment() {
    assert_eq!(left_edge(Align::Left, 150, s(33.7)), 150);
    assert_eq!(left_edge(Align::Right, 150, s(33.7)), 117);
    assert_eq!(left_edge(Align::Center, 150, s(33.7)), 134);
    assert_eq!(whole(s(-2.9)), -2);
    assert_eq!(whole(s(f32::NAN)), 0);
    assert_eq!(f(measure(&Vec::new())), 0.0);
    assert_eq!(f(measure(&blocks("ab", 10.0))), 14.5);
}
