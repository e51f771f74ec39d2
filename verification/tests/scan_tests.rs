//! End-to-end tests of the scanner on synthetic marker images.

use topcodes::scanner::Scanner;
use topcodes::topcode::TopCode;

const ARC: f64 = 2.0 * std::f64::consts::PI / 13.0;

/// Draws TopCode markers on a white background as one grayscale byte per
/// pixel: a white center disk of one unit radius, a black ring to two
/// units, a white ring to three units, and the 13-sector data ring to four
/// units (sector s is white iff bit s of the code is set).
fn build_image(width: usize, height: usize, markers: &[(usize, usize, f64, u16)]) -> Vec<u8> {
    let mut img = vec![255u8; width * height];
    for py in 0..height {
        for px in 0..width {
            for &(cx, cy, unit, code) in markers {
                let dx = px as f64 - cx as f64;
                let dy = py as f64 - cy as f64;
                let r = (dx * dx + dy * dy).sqrt() / unit;
                if r >= 4.0 {
                    continue;
                }
                let v = if r < 1.0 {
                    255
                } else if r < 2.0 {
                    0
                } else if r < 3.0 {
                    255
                } else {
                    let theta = dy.atan2(dx);
                    let s = ((theta / ARC + 0.5).floor() as i64).rem_euclid(13) as u16;
                    if (code >> s) & 1 == 1 {
                        255
                    } else {
                        0
                    }
                };
                img[py * width + px] = v;
            }
        }
    }
    img
}

fn gray_decoder(buffer: &Vec<u8>, index: usize) -> (u32, u32, u32) {
    let v = buffer[index] as u32;
    (v, v, v)
}

fn scan_gray(scanner: &mut Scanner, img: &Vec<u8>) -> Vec<TopCode> {
    scanner.scan(img, gray_decoder)
}

#[test]
fn single_marker_is_found_with_exact_geometry() {
    let (w, h) = (160, 160);
    let img = build_image(w, h, &[(80, 80, 8.0, 55)]);
    let mut scanner = Scanner::new(w, h);
    let codes = scan_gray(&mut scanner, &img);
    assert_eq!(codes.len(), 1);
    let tc = &codes[0];
    assert_eq!(tc.code, Some(55));
    assert_eq!(tc.x_q, 480); // center x = 480/6 = 80.0
    assert_eq!(tc.y_q, 480);
    assert_eq!(tc.unit_q, 1344); // unit = 1344/160 = 8.4 pixels
    assert_eq!(tc.orientation_q, -13); // -13 * 2*pi/260 = -0.05 * 2*pi radians
    assert_eq!(tc.core, [0, 255, 0, 255, 255, 0, 255, 255]);
}

#[test]
fn every_returned_marker_is_well_formed() {
    let (w, h) = (240, 240);
    let img = build_image(w, h, &[(70, 70, 8.0, 55), (170, 170, 8.0, 31)]);
    let mut scanner = Scanner::new(w, h);
    let codes = scan_gray(&mut scanner, &img);
    assert_eq!(codes.len(), 2);
    for tc in &codes {
        let code = tc.code.expect("returned marker must carry a code");
        assert!(code < 8192);
        assert_eq!(code.count_ones(), 5);
        assert!(tc.unit_q > 0);
        assert!(-130 < tc.orientation_q && tc.orientation_q <= 130);
        let orientation = tc.orientation_q as f64 * 2.0 * std::f64::consts::PI / 260.0;
        assert!(-std::f64::consts::PI < orientation && orientation <= std::f64::consts::PI);
        assert!(tc.x_q > 0 && (tc.x_q as usize) < 6 * w);
        assert!(tc.y_q > 0 && (tc.y_q as usize) < 6 * h);
    }
    assert_eq!(codes[0].code, Some(55));
    assert_eq!(codes[1].code, Some(31));
}

#[test]
fn marker_centers_are_separated_beyond_their_bullseyes() {
    let (w, h) = (240, 240);
    let img = build_image(w, h, &[(70, 70, 8.0, 55), (170, 170, 8.0, 31)]);
    let mut scanner = Scanner::new(w, h);
    let codes = scan_gray(&mut scanner, &img);
    assert_eq!(codes.len(), 2);
    let ax = codes[0].x_q as f64 / 6.0;
    let ay = codes[0].y_q as f64 / 6.0;
    let bx = codes[1].x_q as f64 / 6.0;
    let by = codes[1].y_q as f64 / 6.0;
    let d = ((ax - bx).powi(2) + (ay - by).powi(2)).sqrt();
    let ua = codes[0].unit_q as f64 / 160.0;
    let ub = codes[1].unit_q as f64 / 160.0;
    assert!(d > 3.0 * ua.max(ub));
}

#[test]
fn rescanning_the_same_image_is_deterministic() {
    let (w, h) = (160, 160);
    let img = build_image(w, h, &[(80, 80, 8.0, 55)]);
    let mut scanner = Scanner::new(w, h);
    let first = scan_gray(&mut scanner, &img);
    let first_bytes = scanner.thresholding_image_bytes();
    let second = scan_gray(&mut scanner, &img);
    let second_bytes = scanner.thresholding_image_bytes();
    assert!(first == second);
    assert_eq!(first_bytes, second_bytes);
}

#[test]
fn decoding_the_same_candidate_twice_gives_the_same_marker() {
    let (w, h) = (160, 160);
    let img = build_image(w, h, &[(80, 80, 8.0, 55)]);
    let mut scanner = Scanner::new(w, h);
    let _ = scan_gray(&mut scanner, &img);
    let mut first = TopCode::new();
    first.decode(&scanner, 80, 80);
    let mut second = TopCode::new();
    second.decode(&scanner, 80, 80);
    assert!(first.code.is_some());
    assert!(first == second);
}

#[test]
fn an_all_white_image_yields_no_markers_and_an_all_one_buffer() {
    let (w, h) = (40, 30);
    let img = vec![255u8; w * h];
    let mut scanner = Scanner::new(w, h);
    let codes = scan_gray(&mut scanner, &img);
    assert!(codes.is_empty());
    let bytes = scanner.thresholding_image_bytes();
    assert_eq!(bytes.len(), w * h);
    assert!(bytes.iter().all(|&b| b == 255));
}

#[test]
fn a_small_all_black_image_yields_no_markers_and_an_all_zero_buffer() {
    let (w, h) = (6, 6);
    let img = vec![0u8; w * h];
    let mut scanner = Scanner::new(w, h);
    let codes = scan_gray(&mut scanner, &img);
    assert!(codes.is_empty());
    let bytes = scanner.thresholding_image_bytes();
    assert!(bytes.iter().all(|&b| b == 0));
}

#[test]
fn a_large_all_black_image_yields_no_markers() {
    let (w, h) = (40, 30);
    let img = vec![0u8; w * h];
    let mut scanner = Scanner::new(w, h);
    let codes = scan_gray(&mut scanner, &img);
    assert!(codes.is_empty());
}

#[test]
fn threshold_buffer_bytes_are_binary() {
    let (w, h) = (160, 160);
    let img = build_image(w, h, &[(80, 80, 8.0, 55)]);
    let mut scanner = Scanner::new(w, h);
    let _ = scan_gray(&mut scanner, &img);
    let bytes = scanner.thresholding_image_bytes();
    assert_eq!(bytes.len(), w * h);
    assert!(bytes.iter().all(|&b| b == 0 || b == 255));
}

#[test]
fn a_tiny_max_code_diameter_blocks_detection() {
    let (w, h) = (160, 160);
    let img = build_image(w, h, &[(80, 80, 8.0, 55)]);
    let mut scanner = Scanner::new(w, h);
    scanner.set_max_code_diameter(8); // ring bound becomes a single pixel
    let codes = scan_gray(&mut scanner, &img);
    assert!(codes.is_empty());
}

#[test]
fn max_code_diameter_rounds_up_to_whole_units() {
    let (w, h) = (160, 160);
    let img = build_image(w, h, &[(80, 80, 8.0, 55)]);
    // ceil(80 / 8) = 10 units: wide enough for this marker's rings.
    let mut scanner = Scanner::new(w, h);
    scanner.set_max_code_diameter(80);
    assert_eq!(scan_gray(&mut scanner, &img).len(), 1);
    // ceil(24 / 8) = 3 units: too narrow for its roughly 8-pixel rings.
    let mut scanner = Scanner::new(w, h);
    scanner.set_max_code_diameter(24);
    assert!(scan_gray(&mut scanner, &img).is_empty());
}

#[test]
fn rgba_buffers_scan_like_grayscale_ones() {
    let (w, h) = (160, 160);
    let img = build_image(w, h, &[(80, 80, 8.0, 55)]);
    let mut rgba = Vec::with_capacity(4 * w * h);
    for &v in &img {
        rgba.extend_from_slice(&[v, v, v, 255]);
    }
    let mut scanner = Scanner::new(w, h);
    let from_rgba = scanner.scan_rgba_u8(&rgba);
    let mut scanner = Scanner::new(w, h);
    let from_gray = scan_gray(&mut scanner, &img);
    assert!(from_rgba == from_gray);
    assert_eq!(from_rgba.len(), 1);
    assert_eq!(from_rgba[0].code, Some(55));
}

#[test]
fn scanner_reports_its_dimensions() {
    let scanner = Scanner::new(123, 45);
    assert_eq!(scanner.image_width(), 123);
    assert_eq!(scanner.image_height(), 45);
}
