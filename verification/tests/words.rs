use pixconv::layout::{packed_fits, strided_fits, write_at};
use pixconv::order::{
    load_u32, store_u16, store_u32, u16_to_bytes, u32_from_bytes, u32_to_bytes, ByteOrder,
};
use pixconv::rgb16::{pack565, unpack565};
use pixconv::rgb30::{pack30_from32, pack30_from8, unpack30_to32, unpack30_to8};
use pixconv::sample::is_zero;

fn through_ten_bits(x: u32) -> u32 {
    ((x as u64 * 0x3ff / 0xffff_ffff) * 0xffff_ffff / 0x3ff) as u32
}

#[test]
fn bytes_of_a_word_in_both_orders() {
    assert_eq!(u32_to_bytes(0x0a0b0c0d, ByteOrder::Little), [0x0d, 0x0c, 0x0b, 0x0a]);
    assert_eq!(u32_to_bytes(0x0a0b0c0d, ByteOrder::Big), [0x0a, 0x0b, 0x0c, 0x0d]);
    assert_eq!(u16_to_bytes(0x0a0b, ByteOrder::Little), [0x0b, 0x0a]);
    assert_eq!(u16_to_bytes(0x0a0b, ByteOrder::Big), [0x0a, 0x0b]);
    assert_eq!(u32_from_bytes([0x0d, 0x0c, 0x0b, 0x0a], ByteOrder::Little), 0x0a0b0c0d);
    assert_eq!(u32_from_bytes([0x0d, 0x0c, 0x0b, 0x0a], ByteOrder::Big), 0x0d0c0b0a);
}

#[test]
fn bytes_of_a_word_agree_with_std() {
    for v in [0u32, 1, 0x80, 0xff00, 0x1234_5678, 0x8000_0000, 0xffff_ffff, 0x3f80_0000] {
        assert_eq!(u32_to_bytes(v, ByteOrder::Little), v.to_le_bytes());
        assert_eq!(u32_to_bytes(v, ByteOrder::Big), v.to_be_bytes());
        assert_eq!(u32_from_bytes(v.to_le_bytes(), ByteOrder::Little), v);
        assert_eq!(u32_from_bytes(v.to_be_bytes(), ByteOrder::Big), v);
    }
    for v in [0u16, 1, 0x80, 0xff00, 0x1234, 0x8000, 0xffff] {
        assert_eq!(u16_to_bytes(v, ByteOrder::Little), v.to_le_bytes());
        assert_eq!(u16_to_bytes(v, ByteOrder::Big), v.to_be_bytes());
    }
}

#[test]
fn native_order_is_that_of_the_machine() {
    let order = ByteOrder::native();
    assert_eq!(u32_to_bytes(0x0102_0304, order), 0x0102_0304u32.to_ne_bytes());
    assert_eq!(u16_to_bytes(0x0102, order), 0x0102u16.to_ne_bytes());
    assert_eq!(u32_from_bytes([1, 2, 3, 4], order), u32::from_ne_bytes([1, 2, 3, 4]));
}

#[test]
fn probe_tells_the_order() {
    assert_eq!(ByteOrder::of_probe([2, 1]), Some(ByteOrder::Little));
    assert_eq!(ByteOrder::of_probe([1, 2]), Some(ByteOrder::Big));
    assert_eq!(ByteOrder::of_probe([1, 1]), None);
    assert_eq!(ByteOrder::of_probe([0, 0]), None);
    assert_eq!(ByteOrder::of_probe(0x0102u16.to_le_bytes()), Some(ByteOrder::Little));
    assert_eq!(ByteOrder::of_probe(0x0102u16.to_be_bytes()), Some(ByteOrder::Big));
}

#[test]
fn load_and_store_at_an_offset() {
    let mut buf = [0xeeu8; 8];
    store_u32(&mut buf, 2, 0x0a0b0c0d, ByteOrder::Big);
    assert_eq!(buf, [0xee, 0xee, 0x0a, 0x0b, 0x0c, 0x0d, 0xee, 0xee]);
    assert_eq!(load_u32(&buf, 2, ByteOrder::Big), 0x0a0b0c0d);
    assert_eq!(load_u32(&buf, 2, ByteOrder::Little), 0x0d0c0b0a);
    store_u16(&mut buf, 6, 0x0102, ByteOrder::Little);
    assert_eq!(buf, [0xee, 0xee, 0x0a, 0x0b, 0x0c, 0x0d, 0x02, 0x01]);
    write_at(&mut buf, 0, &[7, 8, 9]);
    assert_eq!(buf, [7, 8, 9, 0x0b, 0x0c, 0x0d, 0x02, 0x01]);
    write_at(&mut buf, 8, &[]);
    assert_eq!(buf, [7, 8, 9, 0x0b, 0x0c, 0x0d, 0x02, 0x01]);
}

#[test]
fn pack565_of_white_sets_every_bit() {
    assert_eq!(pack565(255, 255, 255), 0xFFFF);
}

#[test]
fn pack565_of_half_green() {
    let v = pack565(0, 128, 0);
    assert_eq!(unpack565(v), (0, 31, 0));
    assert_eq!(v, 31 << 5);
    assert_eq!(v, 0x03E0);
}

#[test]
fn pack565_puts_red_high_and_blue_low() {
    assert_eq!(pack565(0, 0, 0), 0);
    assert_eq!(pack565(255, 0, 0), 0xF800);
    assert_eq!(pack565(0, 255, 0), 0x07E0);
    assert_eq!(pack565(0, 0, 255), 0x001F);
    assert_eq!(pack565(8, 4, 8), 0);
    assert_eq!(pack565(9, 5, 9), (1 << 11) | (1 << 5) | 1);
    assert_eq!(pack565(254, 254, 254), (30 << 11) | (62 << 5) | 30);
}

#[test]
fn unpack565_of_pack565_rounds_each_channel_down() {
    for r in 0..=255u8 {
        for g in 0..=255u8 {
            let b = r ^ g;
            let v = pack565(r, g, b);
            let f = unpack565(v);
            assert_eq!(f.0 as u32, r as u32 * 31 / 255);
            assert_eq!(f.1 as u32, g as u32 * 63 / 255);
            assert_eq!(f.2 as u32, b as u32 * 31 / 255);
            let again = ((f.0 as u16) << 11) | ((f.1 as u16) << 5) | f.2 as u16;
            assert_eq!(again, v);
            assert_eq!(unpack565(again), f);
        }
    }
}

#[test]
fn every_565_word_is_the_word_of_its_fields() {
    for v in 0..=0xffffu16 {
        let f = unpack565(v);
        assert!(f.0 <= 31 && f.1 <= 63 && f.2 <= 31);
        assert_eq!(((f.0 as u16) << 11) | ((f.1 as u16) << 5) | f.2 as u16, v);
    }
}

#[test]
fn pack30_from8_scales_to_ten_bits() {
    assert_eq!(pack30_from8(0, 0, 0), 0);
    assert_eq!(pack30_from8(255, 255, 255), 0x3FFF_FFFF);
    assert_eq!(pack30_from8(255, 0, 0), 0x3FF0_0000);
    assert_eq!(pack30_from8(0, 255, 0), 0x000F_FC00);
    assert_eq!(pack30_from8(0, 0, 255), 0x0000_03FF);
    assert_eq!(pack30_from8(1, 128, 254), (4 << 20) | (513 << 10) | 1018);
}

#[test]
fn pack30_from32_scales_to_ten_bits() {
    assert_eq!(pack30_from32(0, 0, 0), 0);
    assert_eq!(pack30_from32(0xffff_ffff, 0xffff_ffff, 0xffff_ffff), 0x3FFF_FFFF);
    assert_eq!(pack30_from32(0xffff_fffe, 0, 0), 1022 << 20);
    assert_eq!(pack30_from32(0, 0x8000_0000, 0), 511 << 10);
    assert_eq!(pack30_from32(0, 0, 4198404), 0);
    assert_eq!(pack30_from32(0, 0, 4198405), 1);
}

#[test]
fn eight_bits_through_ten() {
    for v in 0..=255u8 {
        let back = unpack30_to8(pack30_from8(v, 255 - v, v / 2));
        let expect = |x: u8| if x % 85 == 0 { x } else { x - 1 };
        assert_eq!(back, (expect(v), expect(255 - v), expect(v / 2)));
    }
    for v in [0u8, 85, 170, 255] {
        assert_eq!(unpack30_to8(pack30_from8(v, v, v)), (v, v, v));
    }
    assert_eq!(unpack30_to8(pack30_from8(1, 128, 254)), (0, 127, 253));
}

#[test]
fn thirty_two_bits_through_ten() {
    let samples = [
        0u32, 1, 2, 4198404, 4198405, 0x7fff_ffff, 0x8000_0000, 0x8040_2010, 0xdead_beef,
        0xffff_fffe, 0xffff_ffff,
    ];
    for &r in &samples {
        for &g in &samples {
            let b = r ^ g;
            let back = unpack30_to32(pack30_from32(r, g, b));
            assert_eq!(back, (through_ten_bits(r), through_ten_bits(g), through_ten_bits(b)));
            assert!(back.0 <= r && back.1 <= g && back.2 <= b);
        }
    }
    assert_eq!(unpack30_to32(pack30_from32(1, 0xffff_ffff, 4198405)), (0, 0xffff_ffff, 4198404));
    assert_ne!(through_ten_bits(1), 1);
}

#[test]
fn unpack30_of_given_words() {
    assert_eq!(unpack30_to8(0), (0, 0, 0));
    assert_eq!(unpack30_to8(0x3FFF_FFFF), (255, 255, 255));
    assert_eq!(unpack30_to8((512 << 20) | (4 << 10) | 1), (127, 0, 0));
    assert_eq!(unpack30_to32(0), (0, 0, 0));
    assert_eq!(unpack30_to32(0x3FFF_FFFF), (0xffff_ffff, 0xffff_ffff, 0xffff_ffff));
    assert_eq!(unpack30_to32((1 << 20) | (2 << 10) | 3), (4198404, 8396808, 12595212));
}

#[test]
fn unpack30_with_the_unused_bits_set() {
    // Red then stands for 4095: 4095 * 255 / 1023 is 1020, of which eight bits hold 252.
    assert_eq!(unpack30_to8(0xFFFF_FFFF), (252, 255, 255));
    let wide = (4095u64 * 0xffff_ffff / 0x3ff) as u32;
    assert_eq!(unpack30_to32(0xFFFF_FFFF), (wide, 0xffff_ffff, 0xffff_ffff));
    assert_eq!(unpack30_to8(0x4000_0000), (255, 0, 0));
    assert_eq!(unpack30_to8(0xC000_0000), (253, 0, 0));
}

#[test]
fn zero_of_either_sign() {
    assert!(is_zero(0));
    assert!(is_zero(0x8000_0000));
    assert!(!is_zero(1));
    assert!(!is_zero(0x7fc0_0000));
    assert!(!is_zero(0x3f80_0000));
    for bits in [
        0u32,
        0x8000_0000,
        1,
        0x8000_0001,
        0x7f80_0000,
        0x7fc0_0000,
        0xffc0_0000,
        0x3f00_0000,
    ] {
        assert_eq!(is_zero(bits), f32::from_bits(bits) == 0.0);
    }
}

#[test]
fn room_in_a_strided_buffer() {
    assert!(strided_fits(0, 0, 0, 0, 4));
    assert!(strided_fits(24, 3, 2, 12, 4));
    assert!(!strided_fits(23, 3, 2, 12, 4));
    assert!(!strided_fits(24, 4, 2, 12, 4));
    assert!(strided_fits(24, 0, 2, 12, 4));
    assert!(strided_fits(0, 3, 0, 12, 4));
    assert!(!strided_fits(usize::MAX, usize::MAX, 1, usize::MAX, 2));
    assert!(!strided_fits(usize::MAX, 1, 2, usize::MAX, 1));
    assert!(strided_fits(usize::MAX, 1, 1, usize::MAX, 1));
}

#[test]
fn room_in_a_packed_buffer() {
    assert!(packed_fits(0, 0, 0, 3));
    assert!(packed_fits(18, 3, 2, 3));
    assert!(!packed_fits(17, 3, 2, 3));
    assert!(packed_fits(0, usize::MAX, usize::MAX, 0));
    assert!(!packed_fits(usize::MAX, usize::MAX, usize::MAX, 1));
    assert!(!packed_fits(usize::MAX, usize::MAX, 1, 2));
    assert!(packed_fits(usize::MAX, usize::MAX, 1, 1));
    assert!(packed_fits(0, usize::MAX, 0, 4));
}
