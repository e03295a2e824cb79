//! The 1-bit format: 32 pixels to a 32-bit chunk, one bit each.
//!
//! The two ways of numbering the pixels within a byte differ in direction,
//! so going from one to the other reverses the bits of every byte and leaves
//! every byte where it is.

use vstd::prelude::*;
use crate::layout::{
    gather, in_row, scatter, lemma_gather_len, lemma_packed_strided, lemma_pixel_place,
    lemma_scatter_empty,
};
use crate::order::{
    load_u32, nth_word, u32_bytes, u32_byte, u32_of, ByteOrder, lemma_byte_fields,
    lemma_digits_compose, lemma_u32_bytes_encode,
};
use crate::word::{lay_word, lemma_row_word, lemma_unreached_word};

verus! {

/// The byte `b` with its bits in reverse order: bit `k` of the result is bit
/// `7 - k` of `b`.
pub open spec fn reverse_bits(b: u8) -> u8 {
    ((b & 0x01) << 7) | ((b & 0x02) << 5) | ((b & 0x04) << 3) | ((b & 0x08) << 1) | ((b & 0x10)
        >> 1) | ((b & 0x20) >> 3) | ((b & 0x40) >> 5) | ((b & 0x80) >> 7)
}

/// Each bit of `reverse_bits(b)` is the bit of `b` at the mirrored place.
pub proof fn lemma_reverse_bits_mirrors(b: u8, k: u8)
    requires
        k < 8,
    ensures
        (reverse_bits(b) >> k) & 1 == (b >> ((7 - k) as u8)) & 1,
{
    assert((reverse_bits(b) >> k) & 1 == (b >> ((7 - k) as u8)) & 1) by (bit_vector)
        requires
            k < 8,
    ;
}

/// Reversing twice changes nothing.
pub proof fn lemma_reverse_bits_twice(b: u8)
    ensures
        reverse_bits(reverse_bits(b)) == b,
{
    assert(reverse_bits(reverse_bits(b)) == b) by (bit_vector);
}

/// The number of 32-pixel chunks that a row of `w` pixels takes.
pub open spec fn a1_chunks(w: int) -> int {
    (w + 31) / 32
}

/// The bitmap `before` of `h` rows of `w` pixels with the bits of every byte
/// of every chunk reversed.
pub open spec fn a1_image(before: Seq<u8>, w: int, h: int, stride: int) -> Seq<u8> {
    Seq::new(
        before.len(),
        |i: int|
            if in_row(i, stride, 4 * a1_chunks(w)) && i / stride < h {
                reverse_bits(before[i])
            } else {
                before[i]
            },
    )
}

/// Reversing the bits of a bitmap twice gives the bitmap back.
pub proof fn lemma_a1_swap_twice(s: Seq<u8>, w: int, h: int, stride: int)
    ensures
        a1_image(a1_image(s, w, h, stride), w, h, stride) == s,
{
    let t = a1_image(s, w, h, stride);
    assert forall|i: int| 0 <= i < s.len() implies a1_image(t, w, h, stride)[i] == s[i] by {
        lemma_reverse_bits_twice(s[i]);
    }
    assert(a1_image(t, w, h, stride) =~= s);
}

/// The 32-bit value whose four bytes are those of `v`, each with its bits
/// reversed.
pub open spec fn reverse_bits_in_bytes_spec(v: u32) -> u32 {
    u32_of(
        reverse_bits(u32_byte(v, 0, ByteOrder::Little)),
        reverse_bits(u32_byte(v, 1, ByteOrder::Little)),
        reverse_bits(u32_byte(v, 2, ByteOrder::Little)),
        reverse_bits(u32_byte(v, 3, ByteOrder::Little)),
        ByteOrder::Little,
    )
}

/// Reverses the bits within each byte of `v`: swaps neighbouring bits, then
/// neighbouring pairs, then the two halves of each byte.
#[verifier::when_used_as_spec(reverse_bits_in_bytes_spec)]
pub fn reverse_bits_in_bytes(v: u32) -> (r: u32)
    ensures
        r == reverse_bits_in_bytes_spec(v),
{
    let v1 = ((v & 0xaaaaaaaa) >> 1) | ((v & 0x55555555) << 1);
    let v2 = ((v1 & 0xcccccccc) >> 2) | ((v1 & 0x33333333) << 2);
    let v3 = ((v2 & 0xf0f0f0f0) >> 4) | ((v2 & 0x0f0f0f0f) << 4);
    proof {
        lemma_swaps_reverse(v);
    }
    v3
}

/// The three swaps, one after the other.
spec fn swaps(v: u32) -> u32 {
    let v1 = ((v & 0xaaaaaaaa) >> 1) | ((v & 0x55555555) << 1);
    let v2 = ((v1 & 0xcccccccc) >> 2) | ((v1 & 0x33333333) << 2);
    ((v2 & 0xf0f0f0f0) >> 4) | ((v2 & 0x0f0f0f0f) << 4)
}

/// The three swaps together reverse the bits of each byte.
proof fn lemma_swaps_reverse(v: u32)
    ensures
        swaps(v) == reverse_bits_in_bytes_spec(v),
{
    let s = swaps(v);
    let b0 = (v & 0xff) as u8;
    let b1 = ((v >> 8) & 0xff) as u8;
    let b2 = ((v >> 16) & 0xff) as u8;
    let b3 = (v >> 24) as u8;
    assert({
        &&& (s & 0xff) as u8 == reverse_bits(b0)
        &&& ((s >> 8) & 0xff) as u8 == reverse_bits(b1)
        &&& ((s >> 16) & 0xff) as u8 == reverse_bits(b2)
        &&& (s >> 24) as u8 == reverse_bits(b3)
    }) by (bit_vector)
        requires
            s == swaps(v),
            b0 == (v & 0xff) as u8,
            b1 == ((v >> 8) & 0xff) as u8,
            b2 == ((v >> 16) & 0xff) as u8,
            b3 == (v >> 24) as u8,
    ;
    lemma_byte_fields(v);
    lemma_byte_fields(s);
    lemma_digits_compose(v);
    lemma_digits_compose(s);
    reveal(u32_byte);
    reveal(u32_of);
    assert(u32_byte(v, 0, ByteOrder::Little) == b0);
    assert(u32_byte(v, 1, ByteOrder::Little) == b1);
    assert(u32_byte(v, 2, ByteOrder::Little) == b2);
    assert(u32_byte(v, 3, ByteOrder::Little) == b3);
}

/// The bytes of the reversed value of four bytes are those four, bits
/// reversed.
proof fn lemma_reversed_bytes(b0: u8, b1: u8, b2: u8, b3: u8)
    ensures
        u32_bytes(
            reverse_bits_in_bytes_spec(u32_of(b0, b1, b2, b3, ByteOrder::Little)),
            ByteOrder::Little,
        ) == seq![reverse_bits(b0), reverse_bits(b1), reverse_bits(b2), reverse_bits(b3)],
{
    let v = u32_of(b0, b1, b2, b3, ByteOrder::Little);
    lemma_u32_bytes_encode(b0, b1, b2, b3, ByteOrder::Little);
    assert(u32_bytes(v, ByteOrder::Little)[0] == b0);
    assert(u32_bytes(v, ByteOrder::Little)[1] == b1);
    assert(u32_bytes(v, ByteOrder::Little)[2] == b2);
    assert(u32_bytes(v, ByteOrder::Little)[3] == b3);
    lemma_u32_bytes_encode(
        reverse_bits(b0),
        reverse_bits(b1),
        reverse_bits(b2),
        reverse_bits(b3),
        ByteOrder::Little,
    );
}

/// The first `n` bytes of `src`, each with its bits reversed.
#[verifier::opaque]
pub open spec fn a1_content(src: Seq<u8>, n: int) -> Seq<u8> {
    Seq::new(n as nat, |k: int| reverse_bits(src[k]))
}

/// No reversed bytes are none, and the reversed bytes up to the end of a
/// chunk are those up to its start and the four of the chunk.
proof fn lemma_a1_content(src: Seq<u8>, k: int)
    requires
        0 <= k,
    ensures
        a1_content(src, 0) == Seq::<u8>::empty(),
        a1_content(src, 4 * k).len() == 4 * k,
        a1_content(src, 4 * (k + 1)) == a1_content(src, 4 * k) + u32_bytes(
            reverse_bits_in_bytes_spec(nth_word(src, k, ByteOrder::Little)),
            ByteOrder::Little,
        ),
{
    reveal(a1_content);
    let n = 4 * k;
    lemma_reversed_bytes(src[n], src[n + 1], src[n + 2], src[n + 3]);
    let bytes = seq![
        reverse_bits(src[n]),
        reverse_bits(src[n + 1]),
        reverse_bits(src[n + 2]),
        reverse_bits(src[n + 3]),
    ];
    assert(a1_content(src, n + 4) =~= a1_content(src, n) + bytes);
    assert(a1_content(src, 0) =~= Seq::<u8>::empty());
}

/// Reversing the bits of the packed rows and laying them out again reverses
/// the bits of every byte of every chunk, where it stands.
proof fn lemma_a1_image(before: Seq<u8>, w: int, h: int, stride: int)
    requires
        0 <= w,
        0 <= h,
    ensures
        scatter(
            before,
            a1_content(gather(before, h, stride, 4 * a1_chunks(w)), 4 * (h * a1_chunks(w))),
            stride,
            4 * a1_chunks(w),
        ) == a1_image(before, w, h, stride),
{
    reveal(scatter);
    reveal(gather);
    reveal(a1_content);
    let rb = 4 * a1_chunks(w);
    let src = gather(before, h, stride, rb);
    let laid = scatter(before, a1_content(src, 4 * (h * a1_chunks(w))), stride, rb);
    assert(4 * (h * a1_chunks(w)) == h * rb) by (nonlinear_arith)
        requires
            rb == 4 * a1_chunks(w),
    ;
    lemma_gather_len(before, h, stride, rb);
    assert forall|i: int| 0 <= i < before.len() implies laid[i] == a1_image(
        before,
        w,
        h,
        stride,
    )[i] by {
        if in_row(i, stride, rb) {
            lemma_packed_strided(i, h, stride, rb);
        }
    }
    assert(laid =~= a1_image(before, w, h, stride));
}

/// Reverses the order of the pixels within each byte of the bitmap `data` of
/// `h` rows of `w` pixels, chunk by chunk of 32 pixels. A width that is no
/// multiple of 32 is served up to the end of its last chunk.
pub fn a1_swap(data: &mut [u8], w: usize, h: usize, stride: usize)
    requires
        4 * a1_chunks(w as int) <= stride,
        stride * h <= old(data)@.len(),
    ensures
        final(data)@ == a1_image(old(data)@, w as int, h as int, stride as int),
{
    let ghost before = data@;
    let chunks = w / 32 + if w % 32 != 0 {
        1
    } else {
        0
    };
    assert(chunks == a1_chunks(w as int));
    let ghost src = gather(before, h as int, stride as int, 4 * chunks);
    proof {
        assert(before.len() == data.len());
        assert(0 * chunks == 0) by (nonlinear_arith);
        lemma_a1_content(src, 0);
        lemma_scatter_empty(before, stride as int, 4 * chunks);
    }
    for y in 0..h
        invariant
            4 * chunks <= stride,
            stride * h <= before.len() == data@.len() <= usize::MAX,
            src == gather(before, h as int, stride as int, 4 * chunks),
            data@ == scatter(
                before,
                a1_content(src, 4 * (y * chunks)),
                stride as int,
                4 * chunks,
            ),
    {
        for c in 0..chunks
            invariant
                y < h,
                4 * chunks <= stride,
                stride * h <= before.len() == data@.len() <= usize::MAX,
                src == gather(before, h as int, stride as int, 4 * chunks),
                data@ == scatter(
                    before,
                    a1_content(src, 4 * (y * chunks + c)),
                    stride as int,
                    4 * chunks,
                ),
        {
            let ghost k = y * chunks + c;
            let ghost done = a1_content(src, 4 * k);
            proof {
                lemma_pixel_place(
                    c as int,
                    y as int,
                    chunks as int,
                    h as int,
                    stride as int,
                    4,
                    before.len() as int,
                );
                lemma_a1_content(src, k);
                lemma_unreached_word(
                    before,
                    done,
                    y as int,
                    c as int,
                    stride as int,
                    chunks as int,
                    ByteOrder::Little,
                );
                lemma_row_word(
                    before,
                    h as int,
                    y as int,
                    c as int,
                    stride as int,
                    chunks as int,
                    ByteOrder::Little,
                );
            }
            let i = y * stride + c * 4;
            let v = load_u32(data, i, ByteOrder::Little);
            lay_word(
                data,
                i,
                reverse_bits_in_bytes(v),
                ByteOrder::Little,
                Ghost(before),
                Ghost(done),
                Ghost(y as int),
                Ghost(4 * c),
                Ghost(stride as int),
                Ghost(4 * chunks),
            );
        }
        assert((y + 1) * chunks == y * chunks + chunks) by (nonlinear_arith);
    }
    proof {
        lemma_a1_image(before, w as int, h as int, stride as int);
    }
}

} // verus!
