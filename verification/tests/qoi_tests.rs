use pathtracer::qoi::{qoi_encode, ColorDiff, QOIColor};
use pathtracer::writer::{ppm_encode, ByteImage, ImageWriter, PPMWriter, QOIWriter};

fn px(r: u8, g: u8, b: u8) -> QOIColor {
    QOIColor { r, g, b }
}

#[test]
fn test_qoi_hash() {
    assert_eq!(px(0, 0, 0).hash(), 53);
    assert_eq!(px(100, 0, 0).hash(), 33);
    assert_eq!(px(255, 255, 255).hash(), (255u32 * 15 + 2805) as u8 % 64);
}

#[test]
fn test_qoi_v() {
    assert_eq!(px(1, 2, 3).v(), 0xFF030201);
    assert_eq!(px(0, 0, 0).v(), 0xFF000000);
}

#[test]
fn test_qoi_difference() {
    // small delta: every channel within [-2, 1]
    assert_eq!(
        px(11, 9, 10).difference(px(10, 10, 10)),
        ColorDiff::Small(0b01_11_01_10)
    );
    // medium delta, anchored on green
    assert_eq!(
        px(20, 20, 20).difference(px(10, 10, 10)),
        ColorDiff::Medium(0x80 | 42, 0x88)
    );
    // too far apart for either
    assert_eq!(px(200, 0, 0).difference(px(0, 0, 0)), ColorDiff::Large);
}

#[test]
fn test_qoi_encode_rgb_and_run() {
    let pixels = vec![px(255, 0, 0), px(255, 0, 0), px(0, 0, 255)];
    let out = qoi_encode(3, 1, &pixels);
    assert_eq!(
        out,
        vec![
            113, 111, 105, 102, 0, 0, 0, 3, 0, 0, 0, 1, 3, 0, 254, 255, 0, 0, 192, 254, 0, 0,
            255, 0, 0, 0, 0, 0, 0, 0, 1
        ]
    );
}

#[test]
fn test_qoi_encode_deltas() {
    let pixels = vec![px(10, 10, 10), px(11, 12, 9), px(20, 20, 20), px(20, 20, 20)];
    let out = qoi_encode(2, 2, &pixels);
    assert_eq!(
        out,
        vec![
            113, 111, 105, 102, 0, 0, 0, 2, 0, 0, 0, 2, 3, 0, 170, 136, 162, 117, 168, 155, 192,
            0, 0, 0, 0, 0, 0, 0, 1
        ]
    );
}

#[test]
fn test_qoi_encode_long_run_and_index() {
    let mut pixels = vec![px(7, 7, 7); 63];
    pixels.push(px(0, 0, 0));
    let out = qoi_encode(8, 8, &pixels);
    assert_eq!(
        out,
        vec![
            113, 111, 105, 102, 0, 0, 0, 8, 0, 0, 0, 8, 3, 0, 167, 136, 253, 53, 0, 0, 0, 0, 0,
            0, 0, 1
        ]
    );
}

#[test]
fn test_qoi_encode_trailing_run() {
    let pixels = vec![px(100, 100, 100), px(100, 100, 100)];
    let out = qoi_encode(2, 1, &pixels);
    assert_eq!(
        out,
        vec![
            113, 111, 105, 102, 0, 0, 0, 2, 0, 0, 0, 1, 3, 0, 254, 100, 100, 100, 192, 0, 0, 0,
            0, 0, 0, 0, 1
        ]
    );
}

#[test]
fn test_qoi_encode_index_hit() {
    let pixels = vec![px(100, 0, 0), px(0, 100, 0), px(100, 0, 0), px(0, 0, 0)];
    let out = qoi_encode(4, 1, &pixels);
    assert_eq!(
        out,
        vec![
            113, 111, 105, 102, 0, 0, 0, 4, 0, 0, 0, 1, 3, 0, 254, 100, 0, 0, 254, 0, 100, 0,
            33, 53, 0, 0, 0, 0, 0, 0, 0, 1
        ]
    );
}

#[test]
fn test_ppm_encode_exact() {
    let pixels = vec![px(0, 0, 0), px(10, 20, 30), px(40, 50, 60), px(255, 255, 255)];
    let out = ppm_encode(2, 2, &pixels);
    let expected = "P3\n2 2\n255\n\n0 0 0 10 20 30 \n40 50 60 255 255 255 ";
    assert_eq!(out, expected.as_bytes().to_vec());
}

#[test]
fn test_writers() {
    let pixels = vec![px(1, 2, 3), px(1, 2, 3)];
    let image = ByteImage::new(2, 1, pixels.clone());
    let mut qoi_out = Vec::new();
    QOIWriter(&image).write_to(&mut qoi_out);
    assert_eq!(qoi_out, qoi_encode(2, 1, &pixels));
    assert_eq!(QOIWriter(&image).extension(), Some("qoi".to_string()));
    let mut ppm_out = Vec::new();
    PPMWriter(&image).write_to(&mut ppm_out);
    assert_eq!(ppm_out, ppm_encode(2, 1, &pixels));
    assert_eq!(PPMWriter(&image).extension(), Some("ppm".to_string()));
}

#[test]
fn test_byte_image_accessors() {
    let image = ByteImage::new(3, 2, vec![px(0, 0, 0); 6]);
    assert_eq!(image.width(), 3);
    assert_eq!(image.height(), 2);
}
