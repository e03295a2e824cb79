use pixconv::order::ByteOrder;
use pixconv::rgb96f::{
    cairo_rgb96f_to_pil_f, cairo_rgb96f_to_pil_rgb, pil_f_to_cairo_rgb96f,
    pil_rgb_to_cairo_rgb96f,
};
use pixconv::rgba128f::{
    cairo_rgba128f_to_pil_f, cairo_rgba128f_to_pil_rgba, pil_f_to_cairo_rgba128f,
    pil_rgba_to_cairo_rgba128f, unpremultiply,
};

fn unit(v: u8) -> u32 {
    (v as f32 / 255.0).to_bits()
}

fn times(a: u32, b: u32) -> u32 {
    (f32::from_bits(a) * f32::from_bits(b)).to_bits()
}

fn over(a: u32, b: u32) -> u32 {
    (f32::from_bits(a) / f32::from_bits(b)).to_bits()
}

fn byte(a: u32) -> u8 {
    (f32::from_bits(a) * 255.0) as u8
}

fn floats(values: &[f32]) -> Vec<u8> {
    let mut bytes = Vec::new();
    for v in values {
        bytes.extend_from_slice(&v.to_ne_bytes());
    }
    bytes
}

#[test]
fn rgb96f_of_one_pixel() {
    let mut out = [0u8; 12];
    pil_rgb_to_cairo_rgb96f(&[255, 0, 128], &mut out, 1, 1, 12, ByteOrder::native(), unit);
    assert_eq!(out.to_vec(), floats(&[1.0, 0.0, 128.0 / 255.0]));
    assert_eq!(out[8..12], 0.501_960_8f32.to_ne_bytes());
    assert_eq!(out[8..12], 0x3f00_8081u32.to_ne_bytes());
}

#[test]
fn rgb96f_rows_and_padding() {
    let data = [0, 51, 102, 153, 204, 255];
    let mut out = [0xeeu8; 27];
    pil_rgb_to_cairo_rgb96f(&data, &mut out, 1, 2, 13, ByteOrder::native(), unit);
    let mut want = floats(&[0.0, 0.2, 0.4]);
    want.push(0xee);
    want.extend_from_slice(&floats(&[0.6, 0.8, 1.0]));
    want.extend_from_slice(&[0xee, 0xee]);
    assert_eq!(out.to_vec(), want);
}

#[test]
fn rgb96f_applies_the_operation_it_is_given() {
    let mut out = [0u8; 24];
    let seen = |v: u8| 0x0102_0300 + v as u32;
    pil_rgb_to_cairo_rgb96f(&[1, 2, 3, 4, 5, 6], &mut out, 2, 1, 24, ByteOrder::Big, seen);
    assert_eq!(
        out,
        [1, 2, 3, 1, 1, 2, 3, 2, 1, 2, 3, 3, 1, 2, 3, 4, 1, 2, 3, 5, 1, 2, 3, 6]
    );
}

#[test]
fn rgb96f_from_planes_moves_the_bytes() {
    let r = [1, 2, 3, 4, 5, 6, 7, 8, 9];
    let g = [11, 12, 13, 14, 15, 16, 17, 18];
    let b = [21, 22, 23, 24, 25, 26, 27, 28];
    let mut out = [0xeeu8; 27];
    pil_f_to_cairo_rgb96f(&r, &g, &b, &mut out, 1, 2, 13);
    assert_eq!(
        out,
        [
            1, 2, 3, 4, 11, 12, 13, 14, 21, 22, 23, 24, 0xee, 5, 6, 7, 8, 15, 16, 17, 18, 25, 26,
            27, 28, 0xee, 0xee
        ]
    );
}

#[test]
fn rgb96f_to_planes_moves_the_bytes() {
    let data = [
        1, 2, 3, 4, 11, 12, 13, 14, 21, 22, 23, 24, 0xee, 5, 6, 7, 8, 15, 16, 17, 18, 25, 26, 27,
        28, 0xee, 0xee,
    ];
    let mut r = [0u8; 9];
    let mut g = [0u8; 8];
    let mut b = [0xaau8; 10];
    cairo_rgb96f_to_pil_f(&data, &mut r, &mut g, &mut b, 1, 2, 13);
    assert_eq!(r, [1, 2, 3, 4, 5, 6, 7, 8, 0]);
    assert_eq!(g, [11, 12, 13, 14, 15, 16, 17, 18]);
    assert_eq!(b, [21, 22, 23, 24, 25, 26, 27, 28, 0xaa, 0xaa]);
}

#[test]
fn planes_through_rgb96f_and_back() {
    let r = floats(&[0.25, -1.5, f32::INFINITY, 3.0e-40, 1.0, 0.0]);
    let g = floats(&[f32::NAN, 2.0, -0.0, 7.5, 1.0e30, 0.1]);
    let b = floats(&[0.5, 0.75, 1.0, 1.25, 1.5, 1.75]);
    let mut buf = vec![0u8; 40 * 2];
    pil_f_to_cairo_rgb96f(&r, &g, &b, &mut buf, 3, 2, 40);
    let mut r2 = vec![0u8; 24];
    let mut g2 = vec![0u8; 24];
    let mut b2 = vec![0u8; 24];
    cairo_rgb96f_to_pil_f(&buf, &mut r2, &mut g2, &mut b2, 3, 2, 40);
    assert_eq!(r2, r);
    assert_eq!(g2, g);
    assert_eq!(b2, b);
}

#[test]
fn rgb_from_rgb96f_cuts_and_does_not_round() {
    let mut data = floats(&[1.0, 0.0, 128.0 / 255.0]);
    data.push(0xee);
    data.extend_from_slice(&floats(&[0.999, 0.5, 0.003]));
    data.push(0xee);
    let mut out = [0x77u8; 7];
    cairo_rgb96f_to_pil_rgb(&data, &mut out, 1, 2, 13, ByteOrder::native(), byte);
    assert_eq!(out, [255, 0, 128, 254, 127, 0, 0x77]);
}

#[test]
fn rgb_from_rgb96f_outside_the_unit_range() {
    let data = floats(&[2.0, -1.0, f32::NAN, f32::INFINITY, f32::NEG_INFINITY, 1.0001]);
    let mut out = [0x77u8; 6];
    cairo_rgb96f_to_pil_rgb(&data, &mut out, 2, 1, 24, ByteOrder::native(), byte);
    assert_eq!(out, [255, 0, 0, 255, 0, 255]);
}

#[test]
fn rgb_through_rgb96f_and_back() {
    let mut data = Vec::new();
    for v in 0..=255u8 {
        data.push(v);
    }
    data.extend_from_slice(&[0, 0]);
    let mut buf = vec![0u8; 86 * 12];
    pil_rgb_to_cairo_rgb96f(&data, &mut buf, 86, 1, 86 * 12, ByteOrder::native(), unit);
    let mut back = vec![0xffu8; 258];
    cairo_rgb96f_to_pil_rgb(&buf, &mut back, 86, 1, 86 * 12, ByteOrder::native(), byte);
    assert_eq!(back, data);
}

#[test]
fn rgba128f_multiplies_the_colours_by_alpha() {
    let data = [255, 0, 128, 255, 255, 51, 0, 102];
    let mut out = [0xeeu8; 33];
    pil_rgba_to_cairo_rgba128f(&data, &mut out, 2, 1, 33, ByteOrder::native(), unit, times);
    let a = 102.0f32 / 255.0;
    let mut want = floats(&[1.0, 0.0, 128.0 / 255.0, 1.0, a, (51.0f32 / 255.0) * a, 0.0, a]);
    want.push(0xee);
    assert_eq!(out.to_vec(), want);
}

#[test]
fn rgba128f_applies_the_operations_it_is_given() {
    let data = [1, 2, 3, 4];
    let mut out = [0u8; 16];
    let seen = |v: u8| v as u32 * 0x100;
    let both = |c: u32, a: u32| c * 0x100 + a / 0x100;
    pil_rgba_to_cairo_rgba128f(&data, &mut out, 1, 1, 16, ByteOrder::Big, seen, both);
    assert_eq!(out, [0, 1, 0, 4, 0, 2, 0, 4, 0, 3, 0, 4, 0, 0, 4, 0]);
}

#[test]
fn rgba128f_from_planes_uses_the_samples_as_they_are() {
    let r = floats(&[1.0, 3.0]);
    let g = floats(&[0.5, -2.0]);
    let b = floats(&[0.0, 100.0]);
    let a = floats(&[0.5, 2.0]);
    let mut out = [0xeeu8; 35];
    pil_f_to_cairo_rgba128f(&r, &g, &b, &a, &mut out, 1, 2, 17, ByteOrder::native(), times);
    let mut want = floats(&[0.5, 0.25, 0.0, 0.5]);
    want.push(0xee);
    want.extend_from_slice(&floats(&[6.0, -4.0, 200.0, 2.0]));
    want.extend_from_slice(&[0xee, 0xee]);
    assert_eq!(out.to_vec(), want);
}

#[test]
fn planes_from_rgba128f_divide_by_alpha() {
    let data = floats(&[1.0, 0.0, 0.0, 0.5]);
    let mut r = [0xeeu8; 4];
    let mut g = [0xeeu8; 4];
    let mut b = [0xeeu8; 5];
    let mut a = [0xeeu8; 6];
    cairo_rgba128f_to_pil_f(
        &data,
        &mut r,
        &mut g,
        &mut b,
        &mut a,
        1,
        1,
        16,
        ByteOrder::native(),
        over,
    );
    assert_eq!(r.to_vec(), floats(&[2.0]));
    assert_eq!(g.to_vec(), floats(&[0.0]));
    assert_eq!(b[..4], 0.0f32.to_ne_bytes());
    assert_eq!(b[4], 0xee);
    assert_eq!(a[..4], 0.5f32.to_ne_bytes());
    assert_eq!(a[4..], [0xee, 0xee]);
}

#[test]
fn rgba_from_rgba128f_divides_and_cuts() {
    // 2.0 * 255.0 is 510.0, above what eight bits hold: the cast of a value
    // to `u8` keeps the nearest that they do, 255. 0.5 * 255.0 is 127.5,
    // which is cut to 127.
    let data = floats(&[1.0, 0.0, 0.0, 0.5]);
    let mut out = [0xeeu8; 5];
    cairo_rgba128f_to_pil_rgba(&data, &mut out, 1, 1, 16, ByteOrder::native(), over, byte);
    assert_eq!(out, [255, 0, 0, 127, 0xee]);
}

#[test]
fn rgba_from_rgba128f() {
    let mut data = floats(&[0.25, 0.5, 0.125, 0.5]);
    data.extend_from_slice(&[1, 2, 3]);
    data.extend_from_slice(&floats(&[0.2, 0.0, 1.0, 1.0]));
    data.extend_from_slice(&[4, 5, 6]);
    let mut out = [0xeeu8; 8];
    cairo_rgba128f_to_pil_rgba(&data, &mut out, 1, 2, 19, ByteOrder::native(), over, byte);
    assert_eq!(out, [127, 255, 63, 127, 51, 0, 255, 255]);
}

#[test]
fn zero_alpha_gives_zero_in_planes_and_the_quotient_in_rgba() {
    for alpha in [0.0f32, -0.0] {
        let data = floats(&[1.0, 0.0, -3.0, alpha]);
        let mut r = [0xeeu8; 4];
        let mut g = [0xeeu8; 4];
        let mut b = [0xeeu8; 4];
        let mut a = [0xeeu8; 4];
        cairo_rgba128f_to_pil_f(
            &data,
            &mut r,
            &mut g,
            &mut b,
            &mut a,
            1,
            1,
            16,
            ByteOrder::native(),
            over,
        );
        assert_eq!(r, [0, 0, 0, 0]);
        assert_eq!(g, [0, 0, 0, 0]);
        assert_eq!(b, [0, 0, 0, 0]);
        assert_eq!(a, alpha.to_ne_bytes());

        let mut out = [0xeeu8; 4];
        cairo_rgba128f_to_pil_rgba(&data, &mut out, 1, 1, 16, ByteOrder::native(), over, byte);
        let want = [
            (1.0 / alpha * 255.0) as u8,
            (0.0 / alpha * 255.0) as u8,
            (-3.0 / alpha * 255.0) as u8,
            (alpha * 255.0) as u8,
        ];
        assert_eq!(out, want);
        assert!((1.0 / alpha).is_infinite());
        assert!((0.0 / alpha).is_nan());
        assert_eq!(out[1], 0);
        assert_eq!(out[3], 0);
    }
    let data = floats(&[1.0, 0.0, -3.0, 0.0]);
    let mut out = [0xeeu8; 4];
    cairo_rgba128f_to_pil_rgba(&data, &mut out, 1, 1, 16, ByteOrder::native(), over, byte);
    assert_eq!(out, [255, 0, 0, 0]);
}

#[test]
fn zero_alpha_does_not_ask_for_a_quotient() {
    let data = floats(&[1.0, 2.0, 3.0, 0.0, 1.0, 2.0, 3.0, 1.0]);
    let mut r = [0xeeu8; 8];
    let mut g = [0xeeu8; 8];
    let mut b = [0xeeu8; 8];
    let mut a = [0xeeu8; 8];
    let marked = |_c: u32, _a: u32| 0x0a0b_0c0d;
    cairo_rgba128f_to_pil_f(
        &data,
        &mut r,
        &mut g,
        &mut b,
        &mut a,
        2,
        1,
        32,
        ByteOrder::Big,
        marked,
    );
    assert_eq!(r, [0, 0, 0, 0, 0x0a, 0x0b, 0x0c, 0x0d]);
    assert_eq!(g, [0, 0, 0, 0, 0x0a, 0x0b, 0x0c, 0x0d]);
    assert_eq!(b, [0, 0, 0, 0, 0x0a, 0x0b, 0x0c, 0x0d]);
    assert_eq!(a.to_vec(), floats(&[0.0, 1.0]));
}

#[test]
fn alpha_that_is_no_number_is_divided_by() {
    let data = floats(&[1.0, 2.0, 3.0, f32::NAN]);
    let mut r = [0xeeu8; 4];
    let mut g = [0xeeu8; 4];
    let mut b = [0xeeu8; 4];
    let mut a = [0xeeu8; 4];
    cairo_rgba128f_to_pil_f(
        &data,
        &mut r,
        &mut g,
        &mut b,
        &mut a,
        1,
        1,
        16,
        ByteOrder::native(),
        over,
    );
    assert!(f32::from_ne_bytes(r).is_nan());
    assert!(f32::from_ne_bytes(g).is_nan());
    assert!(f32::from_ne_bytes(b).is_nan());
    assert_eq!(a, f32::NAN.to_ne_bytes());
}

#[test]
fn rgba_through_rgba128f_and_planes() {
    let data = [255, 0, 128, 255, 10, 200, 30, 128, 1, 2, 3, 0, 255, 255, 255, 1];
    let order = ByteOrder::native();
    let mut buf = vec![0u8; 2 * 36];
    pil_rgba_to_cairo_rgba128f(&data, &mut buf, 2, 2, 36, order, unit, times);
    let mut r = vec![0u8; 16];
    let mut g = vec![0u8; 16];
    let mut b = vec![0u8; 16];
    let mut a = vec![0u8; 16];
    cairo_rgba128f_to_pil_f(&buf, &mut r, &mut g, &mut b, &mut a, 2, 2, 36, order, over);
    for p in 0..4 {
        let alpha = data[4 * p + 3] as f32 / 255.0;
        assert_eq!(a[4 * p..4 * p + 4], alpha.to_ne_bytes());
        for (c, plane) in [&r, &g, &b].iter().enumerate() {
            let stored = data[4 * p + c] as f32 / 255.0 * alpha;
            let want = if alpha == 0.0 { 0.0 } else { stored / alpha };
            assert_eq!(plane[4 * p..4 * p + 4], want.to_ne_bytes());
        }
    }
    assert_eq!(r[8..12], [0, 0, 0, 0]);
}

#[test]
fn unpremultiply_guards_zero_of_either_sign() {
    let one = 1.0f32.to_bits();
    assert_eq!(unpremultiply(&over, one, 0.5f32.to_bits()), 2.0f32.to_bits());
    assert_eq!(unpremultiply(&over, one, 0.0f32.to_bits()), 0);
    assert_eq!(unpremultiply(&over, one, (-0.0f32).to_bits()), 0);
    assert_eq!(unpremultiply(&over, 0, 0), 0);
    assert_eq!(unpremultiply(&over, one, f32::INFINITY.to_bits()), 0);
    assert_eq!(unpremultiply(&over, one, (-2.0f32).to_bits()), (-0.5f32).to_bits());
    assert_eq!(unpremultiply(&over, one, 1), over(one, 1));
    assert!(f32::from_bits(unpremultiply(&over, one, f32::NAN.to_bits())).is_nan());
}
