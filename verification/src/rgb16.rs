//! The 16-bit format: five bits of red, six of green, five of blue in one
//! word, red highest.

use vstd::prelude::*;
use crate::layout::{scatter, lemma_pixel_place, lemma_scatter_append, lemma_scatter_empty};
use crate::order::{store_u16, u16_bytes, ByteOrder};
use crate::scale::rescale;

verus! {

/// The word that holds the fields `r5`, `g6` and `b5`.
pub open spec fn word565(r5: int, g6: int, b5: int) -> int {
    r5 * 0x800 + g6 * 0x20 + b5
}

/// The word of an 8-bit pixel: each channel brought down to the width of its
/// field.
#[verifier::opaque]
pub open spec fn pack565_spec(r: u8, g: u8, b: u8) -> u16 {
    word565(
        rescale(r as int, 31, 255),
        rescale(g as int, 63, 255),
        rescale(b as int, 31, 255),
    ) as u16
}

/// The three fields of a word, red first.
#[verifier::opaque]
pub open spec fn unpack565_spec(v: u16) -> (u8, u8, u8) {
    ((v / 0x800) as u8, (v / 0x20 % 0x40) as u8, (v % 0x20) as u8)
}

/// Packs an 8-bit pixel into a 5/6/5 word.
#[verifier::when_used_as_spec(pack565_spec)]
pub fn pack565(r: u8, g: u8, b: u8) -> (v: u16)
    ensures
        v == pack565_spec(r, g, b),
{
    let r5 = r as u16 * 0x1f / 0xff;
    let g6 = g as u16 * 0x3f / 0xff;
    let b5 = b as u16 * 0x1f / 0xff;
    proof {
        reveal(pack565_spec);
        assert((r5 << 11) | (g6 << 5) | b5 == r5 * 0x800 + g6 * 0x20 + b5) by (bit_vector)
            requires
                r5 <= 31,
                g6 <= 63,
                b5 <= 31,
        ;
    }
    (r5 << 11) | (g6 << 5) | b5
}

/// Takes a 5/6/5 word apart into its fields, red first.
#[verifier::when_used_as_spec(unpack565_spec)]
pub fn unpack565(v: u16) -> (f: (u8, u8, u8))
    ensures
        f == unpack565_spec(v),
{
    proof {
        reveal(unpack565_spec);
        assert({
            &&& (v >> 11) == v / 0x800
            &&& ((v >> 5) & 0x3f) == v / 0x20 % 0x40
            &&& (v & 0x1f) == v % 0x20
        }) by (bit_vector);
    }
    ((v >> 11) as u8, ((v >> 5) & 0x3f) as u8, (v & 0x1f) as u8)
}

/// A word of three fields has them as its fields.
pub proof fn lemma_fields565(r5: int, g6: int, b5: int)
    requires
        0 <= r5 <= 31,
        0 <= g6 <= 63,
        0 <= b5 <= 31,
    ensures
        0 <= word565(r5, g6, b5) <= u16::MAX,
        unpack565_spec(word565(r5, g6, b5) as u16) == (r5 as u8, g6 as u8, b5 as u8),
{
    reveal(unpack565_spec);
    let v = word565(r5, g6, b5);
    assert(v / 0x20 == r5 * 0x40 + g6);
    assert(v / 0x800 == r5);
}

/// Packing a pixel and taking the word apart gives each channel rounded down
/// to the precision of its field. From then on nothing more is lost: the
/// fields give the same word again, and that word the same fields.
pub proof fn lemma_unpack565_pack565(r: u8, g: u8, b: u8)
    ensures
        ({
            let v = pack565_spec(r, g, b);
            let f = unpack565_spec(v);
            &&& f.0 == r * 31 / 255
            &&& f.1 == g * 63 / 255
            &&& f.2 == b * 31 / 255
            &&& word565(f.0 as int, f.1 as int, f.2 as int) == v
            &&& unpack565_spec(word565(f.0 as int, f.1 as int, f.2 as int) as u16) == f
        }),
{
    reveal(pack565_spec);
    lemma_fields565(r * 31 / 255, g * 63 / 255, b * 31 / 255);
}

/// Every word is the word of its fields.
pub proof fn lemma_word565_unpack565(v: u16)
    ensures
        ({
            let f = unpack565_spec(v);
            &&& f.0 <= 31 && f.1 <= 63 && f.2 <= 31
            &&& word565(f.0 as int, f.1 as int, f.2 as int) == v
        }),
{
    reveal(unpack565_spec);
}

/// The word of pixel `p` of the packed 8-bit RGB image `data`.
pub open spec fn rgb16_word(data: Seq<u8>, p: int) -> u16 {
    pack565_spec(data[3 * p], data[3 * p + 1], data[3 * p + 2])
}

/// The packed 5/6/5 image of the first `n` pixels of the 8-bit RGB image
/// `data`.
#[verifier::opaque]
pub open spec fn rgb16_content(data: Seq<u8>, n: int, order: ByteOrder) -> Seq<u8> {
    Seq::new((2 * n) as nat, |k: int| u16_bytes(rgb16_word(data, k / 2), order)[k % 2])
}

/// Byte `j` of word `p` of the packed 5/6/5 image.
pub proof fn lemma_rgb16_content_at(data: Seq<u8>, order: ByteOrder, n: int, p: int, j: int)
    requires
        0 <= p < n,
        0 <= j < 2,
    ensures
        rgb16_content(data, n, order)[2 * p + j] == u16_bytes(rgb16_word(data, p), order)[j],
{
    reveal(rgb16_content);
    assert((2 * p + j) / 2 == p && (2 * p + j) % 2 == j);
}

/// The image of no pixels is empty, and the image of `n + 1` pixels is that
/// of `n` pixels and the word of the next one.
pub proof fn lemma_rgb16_content(data: Seq<u8>, order: ByteOrder, n: int)
    requires
        0 <= n,
    ensures
        rgb16_content(data, 0, order) == Seq::<u8>::empty(),
        rgb16_content(data, n, order).len() == 2 * n,
        rgb16_content(data, n + 1, order) == rgb16_content(data, n, order) + u16_bytes(
            rgb16_word(data, n),
            order,
        ),
{
    let prev = rgb16_content(data, n, order);
    let next = rgb16_content(data, n + 1, order);
    let piece = u16_bytes(rgb16_word(data, n), order);
    assert(prev.len() == 2 * n && next.len() == 2 * n + 2) by {
        reveal(rgb16_content);
    }
    
    assert forall|k: int| 0 <= k < 2 * n + 2 implies next[k] == (prev + piece)[k] by {
        lemma_rgb16_content_at(data, order, n + 1, k / 2, k % 2);
        if k < 2 * n {
            lemma_rgb16_content_at(data, order, n, k / 2, k % 2);
        } else {
            assert(k / 2 == n && k % 2 == k - 2 * n);
        }
    }
    assert(next =~= prev + piece);
    assert(rgb16_content(data, 0, order) =~= Seq::<u8>::empty()) by {
        reveal(rgb16_content);
    }
}

/// Converts the packed 8-bit RGB image `data` of `w` by `h` pixels to 5/6/5
/// words in the strided buffer `out`.
pub fn pil_rgb_to_cairo_rgb16(
    data: &[u8],
    out: &mut [u8],
    w: usize,
    h: usize,
    stride: usize,
    order: ByteOrder,
)
    requires
        2 * w <= stride,
        stride * h <= old(out)@.len(),
        3 * (w * h) <= data@.len(),
    ensures
        final(out)@ == scatter(
            old(out)@,
            rgb16_content(data@, w * h, order),
            stride as int,
            2 * w,
        ),
{
    let ghost before = out@;
    let mut i_in: usize = 0;
    proof {
        assert(before.len() == out.len());
        assert(0 * w == 0 && h * w == w * h) by (nonlinear_arith);
        lemma_rgb16_content(data@, order, 0);
        lemma_scatter_empty(before, stride as int, 2 * w);
    }
    for y in 0..h
        invariant
            2 * w <= stride,
            stride * h <= before.len() == out@.len() <= usize::MAX,
            3 * (w * h) <= data@.len(),
            i_in == 3 * (y * w),
            out@ == scatter(before, rgb16_content(data@, y * w, order), stride as int, 2 * w),
    {
        for x in 0..w
            invariant
                y < h,
                2 * w <= stride,
                stride * h <= before.len() == out@.len() <= usize::MAX,
                3 * (w * h) <= data@.len(),
                i_in == 3 * (y * w + x),
                out@ == scatter(
                    before,
                    rgb16_content(data@, y * w + x, order),
                    stride as int,
                    2 * w,
                ),
        {
            let ghost n = y * w + x;
            proof {
                lemma_pixel_place(
                    x as int,
                    y as int,
                    w as int,
                    h as int,
                    stride as int,
                    2,
                    before.len() as int,
                );
                lemma_rgb16_content(data@, order, n);
            }
            let i_out = y * stride + x * 2;
            let v = pack565(data[i_in], data[i_in + 1], data[i_in + 2]);
            store_u16(out, i_out, v, order);
            proof {
                lemma_scatter_append(
                    before,
                    rgb16_content(data@, n, order),
                    u16_bytes(v, order),
                    y as int,
                    2 * x,
                    stride as int,
                    2 * w,
                );
            }
            i_in += 3;
        }
        assert((y + 1) * w == y * w + w) by (nonlinear_arith);
    }
}

} // verus!
