use pixconv::bitplane::{a1_swap, reverse_bits_in_bytes};

fn reversed(b: u8) -> u8 {
    b.reverse_bits()
}

#[test]
fn reverse_bits_in_bytes_keeps_the_bytes_in_place() {
    assert_eq!(reverse_bits_in_bytes(0x0000_0001), 0x0000_0080);
    assert_eq!(reverse_bits_in_bytes(0x0100_0000), 0x8000_0000);
    assert_eq!(reverse_bits_in_bytes(0x1234_5678), 0x482c_6a1e);
    assert_eq!(reverse_bits_in_bytes(0xffff_ffff), 0xffff_ffff);
    assert_eq!(reverse_bits_in_bytes(0), 0);
    for v in [1u32, 0x80, 0xdead_beef, 0x0f0f_0f0f, 0x8040_2010, 0x0102_0408] {
        let b = v.to_le_bytes();
        let want = u32::from_le_bytes(
            [reversed(b[0]), reversed(b[1]), reversed(b[2]), reversed(b[3])],
        );
        assert_eq!(reverse_bits_in_bytes(v), want);
        assert_eq!(reverse_bits_in_bytes(reverse_bits_in_bytes(v)), v);
    }
}

#[test]
fn a1_swap_reverses_each_byte_of_a_chunk() {
    let mut data = [0x01, 0x02, 0x80, 0xf0, 0xaa, 0x55, 0x00, 0xff];
    a1_swap(&mut data, 32, 2, 4);
    assert_eq!(data, [0x80, 0x40, 0x01, 0x0f, 0x55, 0xaa, 0x00, 0xff]);
}

#[test]
fn a1_swap_leaves_the_padding() {
    let mut data = [0x01, 0x02, 0x04, 0x08, 0x11, 0x13, 0x10, 0x20, 0x40, 0x80, 0x17, 0x19, 0x23];
    a1_swap(&mut data, 32, 2, 6);
    assert_eq!(
        data,
        [0x80, 0x40, 0x20, 0x10, 0x11, 0x13, 0x08, 0x04, 0x02, 0x01, 0x17, 0x19, 0x23]
    );
}

#[test]
fn a1_swap_twice_is_the_identity() {
    let mut data = [0u8; 8 * 5 + 3];
    for (i, b) in data.iter_mut().enumerate() {
        *b = (i * 37 + 11) as u8;
    }
    let start = data;
    a1_swap(&mut data, 64, 5, 8);
    assert_ne!(data, start);
    for i in 0..40 {
        assert_eq!(data[i], reversed(start[i]));
    }
    assert_eq!(data[40..], start[40..]);
    a1_swap(&mut data, 64, 5, 8);
    assert_eq!(data, start);
}

#[test]
fn a1_swap_serves_a_started_chunk_to_its_end() {
    let mut data = [0x01u8; 20];
    a1_swap(&mut data, 33, 2, 10);
    let mut want = [0x01u8; 20];
    for y in 0..2 {
        for k in 0..8 {
            want[y * 10 + k] = 0x80;
        }
    }
    assert_eq!(data, want);
    a1_swap(&mut data, 33, 2, 10);
    assert_eq!(data, [0x01u8; 20]);
}

#[test]
fn a1_swap_of_nothing() {
    let mut data = [0x01u8, 0x02, 0x03, 0x04];
    a1_swap(&mut data, 0, 3, 1);
    assert_eq!(data, [0x01, 0x02, 0x03, 0x04]);
    a1_swap(&mut data, 32, 0, 4);
    assert_eq!(data, [0x01, 0x02, 0x03, 0x04]);
    let mut empty: [u8; 0] = [];
    a1_swap(&mut empty, 0, 0, 0);
}
