//! Reading texels.
use texture_graph::fraction::{f16_to_f32, fraction_of_24_bits, unorm_of_byte};
use texture_graph::readback::{bump_format, copy_layout, unpad};
use texture_graph::{Image, Scalar, ScalarFormat, ScalarImage};

fn image(width: u32, height: u32, fill: impl Fn(u32, u32) -> [u8; 4]) -> Image {
    let mut pixels = Vec::new();
    for y in 0..height {
        for x in 0..width {
            pixels.extend_from_slice(&fill(x, y));
        }
    }
    Image { width, height, pixels }
}

fn val(s: Scalar) -> f32 {
    f32::from_bits(s.bits)
}

#[test]
fn ppm_has_a_p6_header_and_three_bytes_per_pixel() {
    let img = image(3, 2, |x, y| [x as u8, y as u8, 7, 255]);
    let ppm = img.to_ppm();
    let header = b"P6\n3 2\n255\n";
    assert_eq!(&ppm[..header.len()], header);
    let body = &ppm[header.len()..];
    assert_eq!(body.len(), 3 * 3 * 2, "one RGB triple per pixel");
    assert_eq!(&body[body.len() - 3..], &[2, 1, 7]);
}

/// Alpha must be dropped, not composited into the color.
#[test]
fn ppm_drops_alpha_without_touching_color() {
    let img = image(2, 1, |x, _| [200, 100, 50, if x == 0 { 0 } else { 255 }]);
    let body = &img.to_ppm()[b"P6\n2 1\n255\n".len()..];
    assert_eq!(body, &[200, 100, 50, 200, 100, 50]);
}

#[test]
fn pixel_indexes_row_major_and_bounds_checks() {
    let img = image(4, 3, |x, y| [x as u8, y as u8, 0, 255]);
    assert_eq!(img.pixel(0, 0), Some([0, 0, 0, 255]));
    assert_eq!(img.pixel(3, 2), Some([3, 2, 0, 255]));
    assert_eq!(img.pixel(4, 0), None);
    assert_eq!(img.pixel(0, 3), None);
}

#[test]
fn a_ppm_header_spells_its_size_in_decimal() {
    for (w, h) in [(0u32, 0u32), (9, 10), (1024, 4_294_967_295)] {
        let img = Image { width: w, height: h, pixels: vec![1, 2, 3, 4, 5, 6, 7] };
        let want = format!("P6\n{w} {h}\n255\n");
        let ppm = img.to_ppm();
        assert_eq!(&ppm[..want.len()], want.as_bytes());
        assert_eq!(&ppm[want.len()..], &[1, 2, 3], "a pixel that is not whole is dropped");
    }
}

#[test]
fn every_half_is_the_same_number_in_single_precision() {
    for h in 0..=u16::MAX {
        let sign = if h >> 15 == 1 { -1.0f64 } else { 1.0 };
        let exponent = ((h >> 10) & 0x1f) as i32;
        let fraction = (h & 0x3ff) as f64;
        let got = val(f16_to_f32(h));
        if exponent == 31 {
            if fraction == 0.0 {
                assert_eq!(got as f64, sign * f64::INFINITY, "{h:#x}");
            } else {
                assert!(got.is_nan(), "{h:#x}");
            }
            continue;
        }
        let want = if exponent == 0 {
            sign * fraction * 2f64.powi(-24)
        } else {
            sign * (1024.0 + fraction) * 2f64.powi(exponent - 25)
        };
        assert_eq!(got as f64, want, "{h:#x}");
        assert_eq!(got.is_sign_negative(), h >> 15 == 1, "{h:#x}");
    }
}

#[test]
fn every_byte_is_its_share_of_255() {
    for b in 0..=u8::MAX {
        assert_eq!(val(unorm_of_byte(b)), b as f32 / 255.0, "{b}");
    }
}

#[test]
fn a_fraction_of_24_bits_is_exact() {
    for n in [0u32, 1, 2, 3, 0x7f_ffff, 0x80_0000, 0x80_0001, 0xff_ffff] {
        assert_eq!(val(fraction_of_24_bits(n)), n as f32 * (1.0 / 16_777_216.0), "{n}");
    }
}

#[test]
fn scalar_texels_are_decoded_by_format() {
    assert_eq!(bump_format(), ScalarFormat::R16Float);
    assert_eq!(
        [ScalarFormat::R8Unorm, ScalarFormat::R16Float, ScalarFormat::R32Float]
            .map(|f| f.bytes_per_texel()),
        [1, 2, 4]
    );
    let bytes: Vec<u8> = (0..24).map(|i| i * 10).collect();
    let img = ScalarImage { width: 3, height: 4, depth: 2, format: ScalarFormat::R8Unorm, bytes };
    assert_eq!(img.value(2, 3, 1).map(val), Some(230.0 / 255.0));
    assert_eq!(img.value(1, 2, 0).map(val), Some(70.0 / 255.0));
    assert_eq!(img.value(3, 0, 0), None);
    assert_eq!(img.value(0, 4, 0), None);
    assert_eq!(img.value(0, 0, 2), None);

    let mut bytes: Vec<u8> = Vec::new();
    for v in [0.25f32, -3.5, 1.0e-40, f32::INFINITY] {
        bytes.extend_from_slice(&v.to_le_bytes());
    }
    let img = ScalarImage { width: 2, height: 2, depth: 1, format: ScalarFormat::R32Float, bytes };
    assert_eq!(img.value(1, 0, 0).map(val), Some(-3.5));
    assert_eq!(img.value(0, 1, 0).map(val), Some(1.0e-40));
    assert_eq!(img.value(1, 1, 0).map(val), Some(f32::INFINITY));

    let bytes = vec![0x00, 0x3c, 0x00, 0xc2];
    let img = ScalarImage { width: 1, height: 2, depth: 1, format: ScalarFormat::R16Float, bytes };
    assert_eq!(img.value(0, 0, 0).map(val), Some(1.0));
    assert_eq!(img.value(0, 1, 0).map(val), Some(-3.0));
}

#[test]
fn stripping_keeps_the_bytes_of_every_row() {
    let layout = copy_layout((3, 2, 2), 4).unwrap();
    assert_eq!((layout.packed, layout.stride, layout.rows, layout.size), (12, 256, 4, 1024));
    let data: Vec<u8> = (0..1024u32).map(|i| (i / 256 * 20 + i % 256 % 20) as u8).collect();
    let tight = unpad(&data, layout);
    assert_eq!(tight.len(), 48);
    for y in 0..4usize {
        for x in 0..12usize {
            assert_eq!(tight[y * 12 + x], data[y * 256 + x]);
        }
    }
    assert!(copy_layout((u32::MAX, 2, 1), 4).is_none());
}
