use pixconv::order::ByteOrder;
use pixconv::rgb16::pil_rgb_to_cairo_rgb16;
use pixconv::rgb30::{
    cairo_rgb30_to_pil_bgrx, cairo_rgb30_to_pil_i, pil_i_to_cairo_rgb30, pil_rgb_to_cairo_rgb30,
};

fn through_ten_bits(x: u32) -> u32 {
    ((x as u64 * 0x3ff / 0xffff_ffff) * 0xffff_ffff / 0x3ff) as u32
}

fn plane(samples: &[u32]) -> Vec<u8> {
    let mut bytes = Vec::new();
    for s in samples {
        bytes.extend_from_slice(&s.to_ne_bytes());
    }
    bytes
}

#[test]
fn rgb16_of_two_rows_with_padding() {
    let data = [255, 255, 255, 0, 128, 0, 255, 0, 0, 0, 0, 255];
    let mut out = [0xeeu8; 11];
    pil_rgb_to_cairo_rgb16(&data, &mut out, 2, 2, 5, ByteOrder::Little);
    assert_eq!(out, [0xff, 0xff, 0xe0, 0x03, 0xee, 0x00, 0xf8, 0x1f, 0x00, 0xee, 0xee]);
    let mut out = [0xeeu8; 11];
    pil_rgb_to_cairo_rgb16(&data, &mut out, 2, 2, 5, ByteOrder::Big);
    assert_eq!(out, [0xff, 0xff, 0x03, 0xe0, 0xee, 0xf8, 0x00, 0x00, 0x1f, 0xee, 0xee]);
}

#[test]
fn rgb16_in_the_order_of_the_machine() {
    let data = [255, 255, 255, 0, 128, 0, 9, 5, 9];
    let mut out = [0u8; 6];
    pil_rgb_to_cairo_rgb16(&data, &mut out, 3, 1, 6, ByteOrder::native());
    let mut want = Vec::new();
    for v in [0xFFFFu16, 0x03E0, 0x0821] {
        want.extend_from_slice(&v.to_ne_bytes());
    }
    assert_eq!(out.to_vec(), want);
}

#[test]
fn rgb16_of_an_empty_image() {
    let mut out = [1u8, 2, 3];
    pil_rgb_to_cairo_rgb16(&[], &mut out, 0, 3, 1, ByteOrder::Little);
    assert_eq!(out, [1, 2, 3]);
    pil_rgb_to_cairo_rgb16(&[], &mut out, 1, 0, 2, ByteOrder::Little);
    assert_eq!(out, [1, 2, 3]);
}

#[test]
fn rgb30_of_two_rows_with_padding() {
    let data = [255, 255, 255, 1, 128, 254];
    let mut out = [0xeeu8; 11];
    pil_rgb_to_cairo_rgb30(&data, &mut out, 1, 2, 5, ByteOrder::Big);
    let second = ((4u32 << 20) | (513 << 10) | 1018).to_be_bytes();
    assert_eq!(
        out,
        [0x3f, 0xff, 0xff, 0xff, 0xee, second[0], second[1], second[2], second[3], 0xee, 0xee]
    );
    let mut out = [0xeeu8; 11];
    pil_rgb_to_cairo_rgb30(&data, &mut out, 1, 2, 5, ByteOrder::Little);
    assert_eq!(
        out,
        [0xff, 0xff, 0xff, 0x3f, 0xee, second[3], second[2], second[1], second[0], 0xee, 0xee]
    );
}

#[test]
fn rgb30_from_planes() {
    let r = plane(&[0xffff_ffff, 0, 0x8000_0000]);
    let g = plane(&[0xffff_ffff, 4198405, 0]);
    let b = plane(&[0xffff_ffff, 0xffff_fffe, 1]);
    let mut out = [0xeeu8; 14];
    pil_i_to_cairo_rgb30(&r, &g, &b, &mut out, 3, 1, 13, ByteOrder::native());
    let mut want = Vec::new();
    for v in [0x3FFF_FFFFu32, (1 << 10) | 1022, 511 << 20] {
        want.extend_from_slice(&v.to_ne_bytes());
    }
    want.extend_from_slice(&[0xee, 0xee]);
    assert_eq!(out.to_vec(), want);
}

#[test]
fn bgrx_in_place() {
    let words = [0x3FFF_FFFFu32, (512 << 20) | (4 << 10) | 1, 0xFFFF_FFFF, 0];
    let mut data = Vec::new();
    for y in 0..2 {
        for x in 0..2 {
            data.extend_from_slice(&words[y * 2 + x].to_le_bytes());
        }
        data.extend_from_slice(&[0xaa, 0xbb]);
    }
    data.push(0xcc);
    cairo_rgb30_to_pil_bgrx(&mut data, 2, 2, 10, ByteOrder::Little);
    assert_eq!(
        data,
        [
            255, 255, 255, 255, 0, 0, 127, 255, 0xaa, 0xbb, 255, 255, 252, 255, 0, 0, 0, 255, 0xaa,
            0xbb, 0xcc
        ]
    );
}

#[test]
fn rgb_through_rgb30_and_back() {
    let mut data = Vec::new();
    for v in 0..=255u8 {
        data.extend_from_slice(&[v, 255 - v, v ^ 0x5a]);
    }
    for order in [ByteOrder::Little, ByteOrder::Big, ByteOrder::native()] {
        let mut buf = vec![0x77u8; 70 * 16];
        pil_rgb_to_cairo_rgb30(&data, &mut buf, 16, 16, 70, order);
        cairo_rgb30_to_pil_bgrx(&mut buf, 16, 16, 70, order);
        let back = |x: u8| if x % 85 == 0 { x } else { x - 1 };
        for y in 0..16 {
            for x in 0..16 {
                let p = y * 16 + x;
                let at = y * 70 + x * 4;
                assert_eq!(
                    buf[at..at + 4],
                    [back(data[3 * p + 2]), back(data[3 * p + 1]), back(data[3 * p]), 255]
                );
            }
        }
    }
}

#[test]
fn rgb_that_ten_bits_hold_comes_back_unchanged() {
    let data = [0, 85, 170, 255, 0, 85, 170, 255, 255, 85, 85, 0];
    let mut buf = [0u8; 16];
    pil_rgb_to_cairo_rgb30(&data, &mut buf, 4, 1, 16, ByteOrder::native());
    cairo_rgb30_to_pil_bgrx(&mut buf, 4, 1, 16, ByteOrder::native());
    assert_eq!(buf, [170, 85, 0, 255, 85, 0, 255, 255, 255, 255, 170, 255, 0, 85, 85, 255]);
}

#[test]
fn planes_from_rgb30() {
    let words = [(1u32 << 20) | (2 << 10) | 3, 0xFFFF_FFFF];
    let mut data = Vec::new();
    for v in words {
        data.extend_from_slice(&v.to_be_bytes());
        data.push(0x11);
    }
    let mut r = [0x22u8; 9];
    let mut g = [0x33u8; 8];
    let mut b = [0x44u8; 10];
    cairo_rgb30_to_pil_i(&data, &mut r, &mut g, &mut b, 1, 2, 5, ByteOrder::Big);
    let wide = (4095u64 * 0xffff_ffff / 0x3ff) as u32;
    let mut want_r = Vec::new();
    want_r.extend_from_slice(&4198404u32.to_be_bytes());
    want_r.extend_from_slice(&wide.to_be_bytes());
    want_r.push(0x22);
    let mut want_g = Vec::new();
    want_g.extend_from_slice(&8396808u32.to_be_bytes());
    want_g.extend_from_slice(&0xffff_ffffu32.to_be_bytes());
    let mut want_b = Vec::new();
    want_b.extend_from_slice(&12595212u32.to_be_bytes());
    want_b.extend_from_slice(&0xffff_ffffu32.to_be_bytes());
    want_b.extend_from_slice(&[0x44, 0x44]);
    assert_eq!(r.to_vec(), want_r);
    assert_eq!(g.to_vec(), want_g);
    assert_eq!(b.to_vec(), want_b);
}

#[test]
fn planes_through_rgb30_and_back_lose_bits() {
    let samples = [
        0u32, 1, 4198404, 4198405, 0x1234_5678, 0x7fff_ffff, 0x8000_0000, 0xdead_beef,
        0xffff_fffe, 0xffff_ffff, 77, 0x0100_0000,
    ];
    let rs: Vec<u32> = samples.to_vec();
    let gs: Vec<u32> = samples.iter().rev().copied().collect();
    let bs: Vec<u32> = samples.iter().map(|s| s ^ 0x5555_5555).collect();
    let order = ByteOrder::native();
    let mut buf = vec![0u8; 18 * 3];
    pil_i_to_cairo_rgb30(&plane(&rs), &plane(&gs), &plane(&bs), &mut buf, 4, 3, 18, order);
    let mut r = vec![0u8; 48];
    let mut g = vec![0u8; 48];
    let mut b = vec![0u8; 48];
    cairo_rgb30_to_pil_i(&buf, &mut r, &mut g, &mut b, 4, 3, 18, order);
    let expect = |v: &[u32]| plane(&v.iter().map(|&x| through_ten_bits(x)).collect::<Vec<u32>>());
    assert_eq!(r, expect(&rs));
    assert_eq!(g, expect(&gs));
    assert_eq!(b, expect(&bs));
    assert_ne!(r, plane(&rs));
}
