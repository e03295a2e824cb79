//! Byte order of the multi-byte values stored in a pixel buffer.

use vstd::prelude::*;
use crate::layout::{splice, write_at};

verus! {

/// The order in which the bytes of a 16- or 32-bit value lie in a buffer.
#[derive(Clone, Copy, Debug, PartialEq, Eq, Structural)]
pub enum ByteOrder {
    /// Least significant byte first.
    Little,
    /// Most significant byte first.
    Big,
}

/// `u16::to_ne_bytes` of the standard library: the two bytes of `v` as the
/// machine holds them in memory. The claim is what holds on every machine:
/// they are the bytes of `v` in one of the two orders.
#[verifier::external_body]
fn u16_to_ne_bytes(v: u16) -> (r: [u8; 2])
    ensures
        r@ == u16_bytes(v, ByteOrder::Little) || r@ == u16_bytes(v, ByteOrder::Big),
{
    v.to_ne_bytes()
}

impl ByteOrder {
    /// The order in which `bytes` hold the value `0x0102`, if they hold it in
    /// either.
    pub fn of_probe(bytes: [u8; 2]) -> (r: Option<ByteOrder>)
        ensures
            r == Some(ByteOrder::Little) <==> bytes@ == u16_bytes(0x0102, ByteOrder::Little),
            r == Some(ByteOrder::Big) <==> bytes@ == u16_bytes(0x0102, ByteOrder::Big),
    {
        proof {
            reveal(u16_byte);
        }
        assert(u16_bytes(0x0102, ByteOrder::Little) =~= seq![2u8, 1u8]);
        assert(u16_bytes(0x0102, ByteOrder::Big) =~= seq![1u8, 2u8]);
        assert(bytes@ =~= seq![bytes[0], bytes[1]]);
        if bytes[0] == 2 && bytes[1] == 1 {
            Some(ByteOrder::Little)
        } else if bytes[0] == 1 && bytes[1] == 2 {
            Some(ByteOrder::Big)
        } else {
            None
        }
    }

    /// The byte order of the machine that runs the program: the order in
    /// which its memory holds a value. Nothing is promised of the result, as
    /// it changes from machine to machine; `of_probe` says how it is told.
    pub fn native() -> ByteOrder {
        match ByteOrder::of_probe(u16_to_ne_bytes(0x0102)) {
            Some(order) => order,
            None => vstd::pervasive::unreached(),
        }
    }
}

/// The digit of `v` at `place` in base 256, place 0 the lowest.
pub open spec fn digit(v: int, place: int) -> int {
    if place == 0 {
        v % 0x100
    } else if place == 1 {
        v / 0x100 % 0x100
    } else if place == 2 {
        v / 0x1_0000 % 0x100
    } else {
        v / 0x100_0000 % 0x100
    }
}

/// Byte `k` of the two that hold `v` in the given order.
#[verifier::opaque]
pub open spec fn u16_byte(v: u16, k: int, order: ByteOrder) -> u8 {
    match order {
        ByteOrder::Little => digit(v as int, k) as u8,
        ByteOrder::Big => digit(v as int, 1 - k) as u8,
    }
}

/// Byte `k` of the four that hold `v` in the given order.
#[verifier::opaque]
pub open spec fn u32_byte(v: u32, k: int, order: ByteOrder) -> u8 {
    match order {
        ByteOrder::Little => digit(v as int, k) as u8,
        ByteOrder::Big => digit(v as int, 3 - k) as u8,
    }
}

/// The two bytes that hold `v` in the given order.
pub open spec fn u16_bytes(v: u16, order: ByteOrder) -> Seq<u8> {
    seq![u16_byte(v, 0, order), u16_byte(v, 1, order)]
}

/// The four bytes that hold `v` in the given order.
pub open spec fn u32_bytes(v: u32, order: ByteOrder) -> Seq<u8> {
    seq![u32_byte(v, 0, order), u32_byte(v, 1, order), u32_byte(v, 2, order), u32_byte(v, 3, order)]
}

/// The value that the bytes `b0, b1, b2, b3`, read in this sequence from a
/// buffer, hold in the given order.
#[verifier::opaque]
pub open spec fn u32_of(b0: u8, b1: u8, b2: u8, b3: u8, order: ByteOrder) -> u32 {
    match order {
        ByteOrder::Little => (b0 + 0x100 * b1 + 0x1_0000 * b2 + 0x100_0000 * b3) as u32,
        ByteOrder::Big => (b3 + 0x100 * b2 + 0x1_0000 * b1 + 0x100_0000 * b0) as u32,
    }
}

/// The 32-bit value stored in `s` at byte offset `at`.
pub open spec fn word_at(s: Seq<u8>, at: int, order: ByteOrder) -> u32 {
    u32_of(s[at], s[at + 1], s[at + 2], s[at + 3], order)
}

/// The `k`-th 32-bit value of a packed sequence of them.
pub open spec fn nth_word(s: Seq<u8>, k: int, order: ByteOrder) -> u32 {
    word_at(s, 4 * k, order)
}

/// A 32-bit value is the sum of its base-256 digits, each at its place.
pub proof fn lemma_digits_compose(v: u32)
    ensures
        v == digit(v as int, 0) + 0x100 * digit(v as int, 1) + 0x1_0000 * digit(v as int, 2)
            + 0x100_0000 * digit(v as int, 3),
        forall|place: int| 0 <= #[trigger] digit(v as int, place) < 0x100,
{
    let q1 = v / 0x100;
    let q2 = v / 0x1_0000;
    let q3 = v / 0x100_0000;
    assert(q2 == q1 / 0x100);
    assert(q3 == q2 / 0x100);
}

/// The base-256 digits of a number written with four of them.
pub proof fn lemma_digits_of_sum(d0: u8, d1: u8, d2: u8, d3: u8)
    ensures
        ({
            let v = d0 + 0x100 * d1 + 0x1_0000 * d2 + 0x100_0000 * d3;
            &&& 0 <= v <= u32::MAX
            &&& digit(v, 0) == d0
            &&& digit(v, 1) == d1
            &&& digit(v, 2) == d2
            &&& digit(v, 3) == d3
        }),
{
    let v = d0 + 0x100 * d1 + 0x1_0000 * d2 + 0x100_0000 * d3;
    assert(v / 0x100 == d1 + 0x100 * d2 + 0x1_0000 * d3);
    assert(v / 0x1_0000 == d2 + 0x100 * d3);
    assert(v / 0x100_0000 == d3);
}

/// Decoding what was encoded gives the value back.
pub proof fn lemma_u32_bytes_decode(v: u32, order: ByteOrder)
    ensures
        u32_bytes(v, order).len() == 4,
        word_at(u32_bytes(v, order), 0, order) == v,
{
    reveal(u32_byte);
    reveal(u32_of);
    lemma_digits_compose(v);
    let b = u32_bytes(v, order);
    assert(digit(v as int, 0) < 0x100 && digit(v as int, 1) < 0x100);
    assert(digit(v as int, 2) < 0x100 && digit(v as int, 3) < 0x100);
}

/// Encoding what was decoded gives the bytes back.
pub proof fn lemma_u32_bytes_encode(b0: u8, b1: u8, b2: u8, b3: u8, order: ByteOrder)
    ensures
        u32_bytes(u32_of(b0, b1, b2, b3, order), order) == seq![b0, b1, b2, b3],
{
    reveal(u32_byte);
    reveal(u32_of);
    lemma_digits_of_sum(b0, b1, b2, b3);
    lemma_digits_of_sum(b3, b2, b1, b0);
    assert(u32_bytes(u32_of(b0, b1, b2, b3, order), order) =~= seq![b0, b1, b2, b3]);
}

/// A sequence of 32-bit values with one more put behind it: the values that
/// were there stay, and the new one follows them.
pub proof fn lemma_append_word(s: Seq<u8>, m: int, v: u32, order: ByteOrder)
    requires
        s.len() == 4 * m,
    ensures
        (s + u32_bytes(v, order)).len() == 4 * (m + 1),
        nth_word(s + u32_bytes(v, order), m, order) == v,
        forall|k: int|
            0 <= k < m ==> #[trigger] nth_word(s + u32_bytes(v, order), k, order) == nth_word(
                s,
                k,
                order,
            ),
{
    lemma_u32_bytes_decode(v, order);
    let t = s + u32_bytes(v, order);
    assert(t[4 * m] == u32_bytes(v, order)[0]);
    assert(t[4 * m + 1] == u32_bytes(v, order)[1]);
    assert(t[4 * m + 2] == u32_bytes(v, order)[2]);
    assert(t[4 * m + 3] == u32_bytes(v, order)[3]);
    assert forall|k: int| 0 <= k < m implies #[trigger] nth_word(t, k, order) == nth_word(
        s,
        k,
        order,
    ) by {
        assert(t[4 * k] == s[4 * k] && t[4 * k + 1] == s[4 * k + 1]);
        assert(t[4 * k + 2] == s[4 * k + 2] && t[4 * k + 3] == s[4 * k + 3]);
    }
}

/// The bytes of a 32-bit value, by mask and shift and as digits.
pub proof fn lemma_byte_fields(v: u32)
    ensures
        (v & 0xff) == digit(v as int, 0),
        ((v >> 8) & 0xff) == digit(v as int, 1),
        ((v >> 16) & 0xff) == digit(v as int, 2),
        (v >> 24) == digit(v as int, 3),
{
    assert({
        &&& (v & 0xff) == v % 0x100
        &&& ((v >> 8) & 0xff) == v / 0x100 % 0x100
        &&& ((v >> 16) & 0xff) == v / 0x1_0000 % 0x100
        &&& (v >> 24) == v / 0x100_0000 % 0x100
    }) by (bit_vector);
}

/// Encodes `v` in the given order.
pub fn u16_to_bytes(v: u16, order: ByteOrder) -> (r: [u8; 2])
    ensures
        r@ == u16_bytes(v, order),
{
    let lo = (v & 0xff) as u8;
    let hi = (v >> 8) as u8;
    proof {
        reveal(u16_byte);
        assert((v & 0xff) == v % 0x100 && (v >> 8) == v / 0x100 % 0x100) by (bit_vector);
    }
    let r = match order {
        ByteOrder::Little => [lo, hi],
        ByteOrder::Big => [hi, lo],
    };
    assert(r@ =~= u16_bytes(v, order));
    r
}

/// Encodes `v` in the given order.
pub fn u32_to_bytes(v: u32, order: ByteOrder) -> (r: [u8; 4])
    ensures
        r@ == u32_bytes(v, order),
{
    let b0 = (v & 0xff) as u8;
    let b1 = ((v >> 8) & 0xff) as u8;
    let b2 = ((v >> 16) & 0xff) as u8;
    let b3 = (v >> 24) as u8;
    proof {
        reveal(u32_byte);
        lemma_byte_fields(v);
    }
    let r = match order {
        ByteOrder::Little => [b0, b1, b2, b3],
        ByteOrder::Big => [b3, b2, b1, b0],
    };
    assert(r@ =~= u32_bytes(v, order));
    r
}

/// Decodes four bytes, given in buffer sequence, in the given order.
pub fn u32_from_bytes(b: [u8; 4], order: ByteOrder) -> (v: u32)
    ensures
        v == u32_of(b[0], b[1], b[2], b[3], order),
{
    let (x0, x1, x2, x3) = match order {
        ByteOrder::Little => (b[0], b[1], b[2], b[3]),
        ByteOrder::Big => (b[3], b[2], b[1], b[0]),
    };
    proof {
        reveal(u32_of);
        assert((x0 as u32) | ((x1 as u32) << 8) | ((x2 as u32) << 16) | ((x3 as u32) << 24) == x0
            + 0x100 * x1 + 0x1_0000 * x2 + 0x100_0000 * x3) by (bit_vector);
    }
    (x0 as u32) | ((x1 as u32) << 8) | ((x2 as u32) << 16) | ((x3 as u32) << 24)
}

/// Reads the 32-bit value stored in `buf` at byte offset `at`.
pub fn load_u32(buf: &[u8], at: usize, order: ByteOrder) -> (v: u32)
    requires
        at + 4 <= buf@.len(),
    ensures
        v == word_at(buf@, at as int, order),
{
    u32_from_bytes([buf[at], buf[at + 1], buf[at + 2], buf[at + 3]], order)
}

/// Stores the 16-bit value `v` in `buf` at byte offset `at`.
pub fn store_u16(buf: &mut [u8], at: usize, v: u16, order: ByteOrder)
    requires
        at + 2 <= old(buf)@.len(),
    ensures
        final(buf)@ == splice(old(buf)@, at as int, u16_bytes(v, order)),
{
    let b = u16_to_bytes(v, order);
    write_at(buf, at, &b);
}

/// Stores the 32-bit value `v` in `buf` at byte offset `at`.
pub fn store_u32(buf: &mut [u8], at: usize, v: u32, order: ByteOrder)
    requires
        at + 4 <= old(buf)@.len(),
    ensures
        final(buf)@ == splice(old(buf)@, at as int, u32_bytes(v, order)),
{
    let b = u32_to_bytes(v, order);
    write_at(buf, at, &b);
}

} // verus!
