use std::io::Cursor;

use iqdb::haar::{get_m_largest, signature_of_rgb, transform_char};
use iqdb::signature::{DecodeError, HaarSignature, SigIndex};

fn raster(f: impl Fn(usize, usize) -> [u8; 3]) -> Vec<u8> {
    let mut rgb = Vec::with_capacity(3 * 16384);
    for y in 0..128 {
        for x in 0..128 {
            rgb.extend_from_slice(&f(x, y));
        }
    }
    rgb
}

fn png_of(rgb: &[u8], w: u32, h: u32) -> Vec<u8> {
    let img = image::RgbImage::from_raw(w, h, rgb.to_vec()).unwrap();
    let mut out = Cursor::new(Vec::new());
    image::DynamicImage::ImageRgb8(img).write_to(&mut out, image::ImageFormat::Png).unwrap();
    out.into_inner()
}

fn assert_valid(s: &HaarSignature) {
    for c in 0..3 {
        let ch = s.index(SigIndex::from_index(c));
        for i in 0..40 {
            let p = (ch[i] as i32).abs();
            assert!(1 <= p && p <= 16383);
            for j in 0..i {
                assert_ne!((ch[j] as i32).abs(), p);
            }
        }
    }
}

#[test]
fn signature_testreference() {
    // Each channel plane of the resampled raster has one value per pixel.
    let rgb = raster(|x, y| [(x * 2) as u8, (y * 2) as u8, 7]);
    let (a, b, c) = transform_char(&rgb);
    assert_eq!(a.len(), 16384);
    assert_eq!(b.len(), 16384);
    assert_eq!(c.len(), 16384);
}

#[test]
fn haar_testreference() {
    // The unnormalised transform keeps the plane's sum at position 0.
    let rgb = raster(|_, _| [10, 20, 30]);
    let (a, b, c) = transform_char(&rgb);
    let y = 299 * 10 + 587 * 20 + 114 * 30;
    let i = 596 * 10 - 275 * 20 - 321 * 30;
    let q = 212 * 10 - 523 * 20 + 311 * 30;
    assert_eq!(a[0], 16384 * y);
    assert_eq!(b[0], 16384 * i);
    assert_eq!(c[0], 16384 * q);
    // A flat plane has no detail anywhere else.
    assert!(a[1..].iter().all(|&v| v == 0));
}

#[test]
fn haar_of_one_step() {
    // A plane with its left half at 1 and right half at 0 (in channel units).
    let rgb = raster(|x, _| if x < 64 { [1, 1, 1] } else { [0, 0, 0] });
    let (a, _, _) = transform_char(&rgb);
    // Y of (1,1,1) is 1000 thousandths; 64 columns of 128 rows.
    assert_eq!(a[0], 1000 * 64 * 128);
    // The first detail of each row is the half-difference, summed over rows.
    assert_eq!(a[1], 1000 * 64 * 128);
    assert_eq!(a[2], 0);
    assert_eq!(a[128], 0);
}

#[test]
fn new_is_blank() {
    let s = HaarSignature::new();
    assert_eq!(s.avglf, [0, 0, 0]);
    assert_eq!(s.sig0, [0; 40]);
    assert_eq!(s.sig1, [0; 40]);
    assert_eq!(s.sig2, [0; 40]);
}

#[test]
fn grayscale_threshold() {
    let mut s = HaarSignature::new();
    s.avglf = [500_000, 2_999, -3_000];
    assert!(s.is_grayscale());
    assert_eq!(s.num_colors(), 1);
    s.avglf = [500_000, 3_000, -3_000];
    assert!(!s.is_grayscale());
    assert_eq!(s.num_colors(), 3);
    s.avglf = [500_000, i32::MIN, i32::MAX];
    assert!(!s.is_grayscale());
}

#[test]
fn sig_index_numbers() {
    for c in 0..3 {
        assert_eq!(SigIndex::from_index(c).as_index(), c);
    }
    let mut s = HaarSignature::new();
    s.sig1[3] = 9;
    assert_eq!(s.index(SigIndex::S1)[3], 9);
    assert_eq!(s.coef(1, 3), 9);
}

#[test]
fn can_index_checks_range() {
    let mut s = HaarSignature::new();
    assert!(!s.can_index());
    for c in 0..3 {
        for i in 0..40 {
            let v = (i + 1) as i16;
            match c {
                0 => s.sig0[i] = v,
                1 => s.sig1[i] = -v,
                _ => s.sig2[i] = v,
            }
        }
    }
    assert!(s.can_index());
    s.sig2[5] = i16::MIN;
    assert!(!s.can_index());
}

#[test]
fn gray_raster_signature() {
    let rgb = raster(|x, y| {
        let v = ((x * 3 + y * 5) % 256) as u8;
        [v, v, v]
    });
    let s = signature_of_rgb(&rgb);
    assert_valid(&s);
    assert!(s.is_grayscale());
    assert!(s.avglf[0] > 0);
    assert_eq!(s.avglf[1], 0);
    assert_eq!(s.avglf[2], 0);
}

#[test]
fn average_in_millionths() {
    // Y of white is 255 units; the average is the mean over 256.
    let rgb = raster(|_, _| [255, 255, 255]);
    let s = signature_of_rgb(&rgb);
    assert_eq!(s.avglf[0], 996_094);
    assert_eq!(s.avglf[1], 0);
    assert_eq!(s.avglf[2], 0);
}

#[test]
fn strongest_coefficient_first() {
    let mut plane = vec![0i64; 16384];
    plane[5] = -100;
    plane[300] = 50;
    plane[0] = 1_000_000;
    let sig = get_m_largest(&plane);
    // Position 5 (x = 5, y = 0) weighs 4 · 100²; position 300 (x = 44,
    // y = 2) weighs 32 · 2 · 50².
    assert_eq!(sig[0], 300);
    assert_eq!(sig[1], -5);
    // The rest are zero coefficients, lowest positions first.
    assert_eq!(sig[2], 1);
    assert_eq!(sig[3], 2);
    assert!(sig.iter().all(|&v| v != 0));
}

#[test]
fn color_raster_signature() {
    let rgb = raster(|x, y| [200, (y * 2) as u8, (50 + x % 7) as u8]);
    let s = signature_of_rgb(&rgb);
    assert_valid(&s);
    assert!(!s.is_grayscale());
}

#[test]
fn bytes_of_exact_size_keep_their_pixels() {
    let rgb = raster(|x, y| [(x * 2) as u8, (255 - y) as u8, ((x * y) % 256) as u8]);
    let png = png_of(&rgb, 128, 128);
    let from_file = HaarSignature::from_bytes(&png).unwrap();
    assert_eq!(from_file, signature_of_rgb(&rgb));
}

#[test]
fn bytes_of_other_size_are_resampled() {
    let mut rgb = Vec::new();
    for y in 0..64u32 {
        for x in 0..200u32 {
            rgb.extend_from_slice(&[(x % 256) as u8, (y * 4) as u8, 100]);
        }
    }
    let png = png_of(&rgb, 200, 64);
    let s = HaarSignature::from_bytes(&png).unwrap();
    assert_valid(&s);
    assert!(s.avglf[0] > 0);
}

#[test]
fn undecodable_bytes() {
    assert_eq!(HaarSignature::from_bytes(b"not an image"), Err(DecodeError::Undecodable));
    assert_eq!(HaarSignature::from_bytes(&[]), Err(DecodeError::Undecodable));
}

#[test]
fn flatten_channels_in_order() {
    let mut t = iqdb::signature::SignatureT { sig: [[0; 40]; 3] };
    t.sig[0][0] = 1;
    t.sig[1][39] = -2;
    t.sig[2][5] = 3;
    let f = t.flatten();
    assert_eq!(f.len(), 120);
    assert_eq!(f[0], 1);
    assert_eq!(f[79], -2);
    assert_eq!(f[85], 3);
}
