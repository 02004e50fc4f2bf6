use martin::splat_image::{jitter_byte, sample_image, sample_pixels};
use martin::wav::encode_wav;

#[test]
fn wav_header_and_samples() {
    let out = encode_wav(&[0, 1, -1, i16::MAX, i16::MIN]);
    assert_eq!(out.len(), 44 + 10);
    assert_eq!(&out[0..4], b"RIFF");
    assert_eq!(&out[4..8], &(36u32 + 10).to_le_bytes());
    assert_eq!(&out[8..16], b"WAVEfmt ");
    assert_eq!(&out[16..20], &16u32.to_le_bytes());
    assert_eq!(&out[20..24], &[1, 0, 1, 0]);
    assert_eq!(&out[24..28], &44_100u32.to_le_bytes());
    assert_eq!(&out[28..32], &88_200u32.to_le_bytes());
    assert_eq!(&out[32..36], &[2, 0, 16, 0]);
    assert_eq!(&out[36..40], b"data");
    assert_eq!(&out[40..44], &10u32.to_le_bytes());
    assert_eq!(&out[44..], &[0, 0, 1, 0, 0xff, 0xff, 0xff, 0x7f, 0x00, 0x80]);
    assert_eq!(encode_wav(&[]).len(), 44);
}

fn png(w: u32, h: u32) -> Vec<u8> {
    let mut img = image::RgbaImage::new(w, h);
    for y in 0..h {
        for x in 0..w {
            img.put_pixel(x, y, image::Rgba([x as u8, y as u8, 7, (x + y) as u8]));
        }
    }
    let mut bytes = Vec::new();
    img.write_to(&mut std::io::Cursor::new(&mut bytes), image::ImageFormat::Png)
        .unwrap();
    bytes
}

#[test]
fn image_samples_every_stride_th_pixel_row_by_row() {
    let (w, h, s) = sample_image(&png(5, 3), 2);
    assert_eq!((w, h), (5, 3));
    let got: Vec<(u32, u32, u8, u8, u8, u8)> =
        s.iter().map(|p| (p.x, p.y, p.r, p.g, p.b, p.a)).collect();
    assert_eq!(
        got,
        vec![
            (0, 0, 0, 0, 7, 0),
            (2, 0, 2, 0, 7, 2),
            (4, 0, 4, 0, 7, 4),
            (0, 2, 0, 2, 7, 2),
            (2, 2, 2, 2, 7, 4),
            (4, 2, 4, 2, 7, 6),
        ]
    );
    // a stride of 0 counts as 1
    assert_eq!(sample_image(&png(2, 2), 0).2.len(), 4);
    // bytes that are no image give nothing
    let (w, h, s) = sample_image(b"not an image", 1);
    assert_eq!((w, h), (0, 0));
    assert!(s.is_empty());
}

#[test]
fn jitter_bytes() {
    assert_eq!(jitter_byte(0), 0);
    assert_eq!(jitter_byte(1), ((2_654_435_761u32 >> 8) & 0xff) as u8);
    assert_eq!(jitter_byte(7), ((7u32.wrapping_mul(2_654_435_761) >> 8) & 0xff) as u8);
}

#[test]
fn decoded_pixels_are_sampled_on_the_stride_grid() {
    // a 3×2 RGBA image: pixel (x, y) holds (x, y, 9, 255)
    let mut px = Vec::new();
    for y in 0..2u8 {
        for x in 0..3u8 {
            px.extend_from_slice(&[x, y, 9, 255]);
        }
    }
    let s = sample_pixels(3, 2, &px, 2);
    let got: Vec<(u32, u32, u8, u8)> = s.iter().map(|p| (p.x, p.y, p.r, p.g)).collect();
    assert_eq!(got, vec![(0, 0, 0, 0), (2, 0, 2, 0)]);
    assert_eq!(sample_pixels(3, 2, &px, 1).len(), 6);
    assert_eq!(sample_pixels(3, 2, &px, 0).len(), 6);
    assert!(sample_pixels(0, 2, &px, 1).is_empty());
    assert_eq!(sample_pixels(3, 2, &px, 5).len(), 1);
}

#[test]
fn images_of_other_formats_are_sampled_too() {
    // the same pixels written as QOI (lossless, with alpha) sample as the PNG does
    let mut img = image::RgbaImage::new(5, 3);
    for y in 0..3u32 {
        for x in 0..5u32 {
            img.put_pixel(x, y, image::Rgba([x as u8, y as u8, 7, (x + y) as u8]));
        }
    }
    let mut qoi = Vec::new();
    img.write_to(&mut std::io::Cursor::new(&mut qoi), image::ImageFormat::Qoi)
        .unwrap();
    let a = sample_image(&qoi, 2);
    let b = sample_image(&png(5, 3), 2);
    assert_eq!((a.0, a.1), (5, 3));
    assert_eq!(a.2, b.2);
    // a JPEG is read as well (lossy: only its size is pinned here)
    let rgb = image::RgbImage::from_pixel(4, 2, image::Rgb([200, 10, 10]));
    let mut jpg = Vec::new();
    rgb.write_to(&mut std::io::Cursor::new(&mut jpg), image::ImageFormat::Jpeg)
        .unwrap();
    let c = sample_image(&jpg, 1);
    assert_eq!((c.0, c.1, c.2.len()), (4, 2, 8));
}
