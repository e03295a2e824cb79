//! The 30-bit format: ten bits each of red, green and blue in one 32-bit
//! word, red highest, the top two bits unused.

use vstd::prelude::*;
use crate::layout::{
    gather, lay, overlay, scatter, lemma_gather_scatter, lemma_pixel_place, lemma_scatter_empty,
    lemma_scatter_len,
};
use crate::order::{load_u32, nth_word, u32_bytes, ByteOrder, lemma_u32_bytes_decode};
use crate::scale::rescale;
use crate::word::{lay_word, put_word, row_word, lemma_row_word, lemma_unreached_word};

verus! {

/// The word that holds the fields `r10`, `g10` and `b10`.
pub open spec fn word30(r10: int, g10: int, b10: int) -> int {
    r10 * 0x10_0000 + g10 * 0x400 + b10
}

/// What lies above the green field of a word: the red field, and above it
/// the two unused bits.
#[verifier::opaque]
pub open spec fn red30(v: u32) -> int {
    v as int / 0x10_0000
}

/// The green field of a word.
#[verifier::opaque]
pub open spec fn green30(v: u32) -> int {
    v as int / 0x400 % 0x400
}

/// The blue field of a word.
#[verifier::opaque]
pub open spec fn blue30(v: u32) -> int {
    v as int % 0x400
}

/// The word of an 8-bit pixel.
#[verifier::opaque]
pub open spec fn pack30_from8_spec(r: u8, g: u8, b: u8) -> u32 {
    word30(
        rescale(r as int, 0x3ff, 0xff),
        rescale(g as int, 0x3ff, 0xff),
        rescale(b as int, 0x3ff, 0xff),
    ) as u32
}

/// The word of a pixel of three 32-bit samples.
#[verifier::opaque]
pub open spec fn pack30_from32_spec(r: u32, g: u32, b: u32) -> u32 {
    word30(
        rescale(r as int, 0x3ff, 0xffff_ffff),
        rescale(g as int, 0x3ff, 0xffff_ffff),
        rescale(b as int, 0x3ff, 0xffff_ffff),
    ) as u32
}

/// The 8-bit channels of a word, red first. Where the unused bits of the word
/// are set, red keeps the low eight bits of its value.
#[verifier::opaque]
pub open spec fn unpack30_to8_spec(v: u32) -> (u8, u8, u8) {
    (
        (rescale(red30(v), 0xff, 0x3ff) % 0x100) as u8,
        rescale(green30(v), 0xff, 0x3ff) as u8,
        rescale(blue30(v), 0xff, 0x3ff) as u8,
    )
}

/// The 32-bit channels of a word, red first. Where the unused bits of the
/// word are set, red keeps the low 32 bits of its value.
#[verifier::opaque]
pub open spec fn unpack30_to32_spec(v: u32) -> (u32, u32, u32) {
    (
        (rescale(red30(v), 0xffff_ffff, 0x3ff) % 0x1_0000_0000) as u32,
        rescale(green30(v), 0xffff_ffff, 0x3ff) as u32,
        rescale(blue30(v), 0xffff_ffff, 0x3ff) as u32,
    )
}

/// A word of three fields has them as its fields, and its unused bits are
/// zero.
pub proof fn lemma_fields30(r10: int, g10: int, b10: int)
    requires
        0 <= r10 <= 0x3ff,
        0 <= g10 <= 0x3ff,
        0 <= b10 <= 0x3ff,
    ensures
        0 <= word30(r10, g10, b10) < 0x4000_0000,
        red30(word30(r10, g10, b10) as u32) == r10,
        green30(word30(r10, g10, b10) as u32) == g10,
        blue30(word30(r10, g10, b10) as u32) == b10,
{
    reveal(red30);
    reveal(green30);
    reveal(blue30);
    let v = word30(r10, g10, b10);
    assert(v / 0x400 == r10 * 0x400 + g10);
    assert(v / 0x10_0000 == r10);
}

/// Packs an 8-bit pixel into a 10/10/10 word.
#[verifier::when_used_as_spec(pack30_from8_spec)]
pub fn pack30_from8(r: u8, g: u8, b: u8) -> (v: u32)
    ensures
        v == pack30_from8_spec(r, g, b),
{
    let r10 = r as u32 * 0x3ff / 0xff;
    let g10 = g as u32 * 0x3ff / 0xff;
    let b10 = b as u32 * 0x3ff / 0xff;
    proof {
        reveal(pack30_from8_spec);
        assert((r10 << 20) | (g10 << 10) | b10 == r10 * 0x10_0000 + g10 * 0x400 + b10)
            by (bit_vector)
            requires
                r10 <= 0x3ff,
                g10 <= 0x3ff,
                b10 <= 0x3ff,
        ;
    }
    (r10 << 20) | (g10 << 10) | b10
}

/// Packs a pixel of three 32-bit samples into a 10/10/10 word.
#[verifier::when_used_as_spec(pack30_from32_spec)]
pub fn pack30_from32(r: u32, g: u32, b: u32) -> (v: u32)
    ensures
        v == pack30_from32_spec(r, g, b),
{
    let r10 = (r as u64 * 0x3ff / 0xffff_ffff) as u32;
    let g10 = (g as u64 * 0x3ff / 0xffff_ffff) as u32;
    let b10 = (b as u64 * 0x3ff / 0xffff_ffff) as u32;
    proof {
        reveal(pack30_from32_spec);
        assert((r10 << 20) | (g10 << 10) | b10 == r10 * 0x10_0000 + g10 * 0x400 + b10)
            by (bit_vector)
            requires
                r10 <= 0x3ff,
                g10 <= 0x3ff,
                b10 <= 0x3ff,
        ;
    }
    (r10 << 20) | (g10 << 10) | b10
}

/// Takes a 10/10/10 word apart into 8-bit channels, red first.
#[verifier::when_used_as_spec(unpack30_to8_spec)]
pub fn unpack30_to8(v: u32) -> (c: (u8, u8, u8))
    ensures
        c == unpack30_to8_spec(v),
{
    proof {
        reveal(unpack30_to8_spec);
        reveal(red30);
        reveal(green30);
        reveal(blue30);
        assert({
            &&& (v >> 20) == v / 0x10_0000
            &&& ((v >> 10) & 0x3ff) == v / 0x400 % 0x400
            &&& (v & 0x3ff) == v % 0x400
        }) by (bit_vector);
    }
    let r = (v >> 20) * 0xff / 0x3ff;
    let g = ((v >> 10) & 0x3ff) * 0xff / 0x3ff;
    let b = (v & 0x3ff) * 0xff / 0x3ff;
    assert(r as u8 == r % 0x100) by (bit_vector);
    (#[verifier::truncate] (r as u8), g as u8, b as u8)
}

/// Takes a 10/10/10 word apart into 32-bit channels, red first.
#[verifier::when_used_as_spec(unpack30_to32_spec)]
pub fn unpack30_to32(v: u32) -> (c: (u32, u32, u32))
    ensures
        c == unpack30_to32_spec(v),
{
    proof {
        reveal(unpack30_to32_spec);
        reveal(red30);
        reveal(green30);
        reveal(blue30);
        assert({
            &&& (v >> 20) == v / 0x10_0000
            &&& ((v & 0xffc00) >> 10) == v / 0x400 % 0x400
            &&& (v & 0x3ff) == v % 0x400
        }) by (bit_vector);
    }
    let r = ((v >> 20) as u64) * 0xffff_ffff / 0x3ff;
    let g = (((v & 0xffc00) >> 10) as u64) * 0xffff_ffff / 0x3ff;
    let b = ((v & 0x3ff) as u64) * 0xffff_ffff / 0x3ff;
    assert(r as u32 == r % 0x1_0000_0000) by (bit_vector);
    (#[verifier::truncate] (r as u32), g as u32, b as u32)
}

/// What is left of an 8-bit sample that has gone through ten bits. Both
/// scalings round down, so only the four samples that ten bits hold exactly
/// come back unchanged; every other one comes back one lower.
pub open spec fn through_ten_bits8(x: u8) -> u8 {
    if x % 85 == 0 {
        x
    } else {
        (x - 1) as u8
    }
}

/// Scaling an 8-bit sample up to ten bits and down again.
proof fn lemma_through_ten_bits8(x: u8)
    ensures
        0 <= x * 0x3ff / 0xff <= 0x3ff,
        (x * 0x3ff / 0xff) * 0xff / 0x3ff == through_ten_bits8(x),
{
    let x32 = x as u32;
    assert((x32 * 0x3ff / 0xff) * 0xff / 0x3ff == if x32 % 85 == 0 {
        x32
    } else {
        (x32 - 1) as u32
    }) by (bit_vector)
        requires
            x32 <= 255,
    ;
}

/// An 8-bit pixel comes back from its 10/10/10 word with each channel as
/// `through_ten_bits8` has it.
pub proof fn lemma_unpack30_pack30_from8(r: u8, g: u8, b: u8)
    ensures
        unpack30_to8_spec(pack30_from8_spec(r, g, b)) == (
            through_ten_bits8(r),
            through_ten_bits8(g),
            through_ten_bits8(b),
        ),
{
    let r10 = r * 0x3ff / 0xff;
    let g10 = g * 0x3ff / 0xff;
    let b10 = b * 0x3ff / 0xff;
    lemma_through_ten_bits8(r);
    lemma_through_ten_bits8(g);
    lemma_through_ten_bits8(b);
    lemma_fields30(r10, g10, b10);
    let v = word30(r10, g10, b10) as u32;
    assert(pack30_from8_spec(r, g, b) == v) by {
        reveal(pack30_from8_spec);
    }
    assert(unpack30_to8_spec(v) == (
        (rescale(red30(v), 0xff, 0x3ff) % 0x100) as u8,
        rescale(green30(v), 0xff, 0x3ff) as u8,
        rescale(blue30(v), 0xff, 0x3ff) as u8,
    )) by {
        reveal(unpack30_to8_spec);
    }
    assert(rescale(r10, 0xff, 0x3ff) == through_ten_bits8(r));
    assert(rescale(g10, 0xff, 0x3ff) == through_ten_bits8(g));
    assert(rescale(b10, 0xff, 0x3ff) == through_ten_bits8(b));
}

/// An 8-bit pixel whose channels ten bits hold exactly comes back from its
/// 10/10/10 word as it went in.
pub proof fn lemma_unpack30_pack30_exact(r: u8, g: u8, b: u8)
    requires
        r % 85 == 0,
        g % 85 == 0,
        b % 85 == 0,
    ensures
        unpack30_to8_spec(pack30_from8_spec(r, g, b)) == (r, g, b),
{
    lemma_unpack30_pack30_from8(r, g, b);
}

/// What is left of a 32-bit sample that has gone through ten bits.
pub open spec fn through_ten_bits(x: u32) -> u32 {
    ((x * 0x3ff / 0xffff_ffff) * 0xffff_ffff / 0x3ff) as u32
}

/// A 32-bit sample that has gone through ten bits is no larger than it was.
pub proof fn lemma_through_ten_bits(x: u32)
    ensures
        0 <= x * 0x3ff / 0xffff_ffff <= 0x3ff,
        through_ten_bits(x) == (x * 0x3ff / 0xffff_ffff) * 0xffff_ffff / 0x3ff,
        through_ten_bits(x) <= x,
{
}

/// A pixel of three 32-bit samples comes back from its 10/10/10 word with
/// each sample as `through_ten_bits` has it.
pub proof fn lemma_unpack30_pack30_from32(r: u32, g: u32, b: u32)
    ensures
        unpack30_to32_spec(pack30_from32_spec(r, g, b)) == (
            through_ten_bits(r),
            through_ten_bits(g),
            through_ten_bits(b),
        ),
{
    let r10 = r * 0x3ff / 0xffff_ffff;
    let g10 = g * 0x3ff / 0xffff_ffff;
    let b10 = b * 0x3ff / 0xffff_ffff;
    lemma_through_ten_bits(r);
    lemma_through_ten_bits(g);
    lemma_through_ten_bits(b);
    lemma_fields30(r10, g10, b10);
    let v = word30(r10, g10, b10) as u32;
    assert(pack30_from32_spec(r, g, b) == v) by {
        reveal(pack30_from32_spec);
    }
    assert(unpack30_to32_spec(v) == (
        (rescale(red30(v), 0xffff_ffff, 0x3ff) % 0x1_0000_0000) as u32,
        rescale(green30(v), 0xffff_ffff, 0x3ff) as u32,
        rescale(blue30(v), 0xffff_ffff, 0x3ff) as u32,
    )) by {
        reveal(unpack30_to32_spec);
    }
    assert(rescale(r10, 0xffff_ffff, 0x3ff) == through_ten_bits(r));
    assert(rescale(g10, 0xffff_ffff, 0x3ff) == through_ten_bits(g));
    assert(rescale(b10, 0xffff_ffff, 0x3ff) == through_ten_bits(b));
}

/// Ten bits do not hold 32: some samples come back changed.
pub proof fn lemma_ten_bits_lose()
    ensures
        exists|x: u32| through_ten_bits(x) != x,
{
    assert(through_ten_bits(1u32) != 1u32);
}

/// The word of pixel `p` of the packed 8-bit RGB image `data`.
pub open spec fn rgb30_word(data: Seq<u8>, p: int) -> u32 {
    pack30_from8_spec(data[3 * p], data[3 * p + 1], data[3 * p + 2])
}

/// The packed 10/10/10 image of the first `n` pixels of the 8-bit RGB image
/// `data`.
#[verifier::opaque]
pub open spec fn rgb30_content(data: Seq<u8>, n: int, order: ByteOrder) -> Seq<u8> {
    Seq::new((4 * n) as nat, |k: int| u32_bytes(rgb30_word(data, k / 4), order)[k % 4])
}

/// Byte `j` of word `p` of the packed 10/10/10 image of an 8-bit image.
pub proof fn lemma_rgb30_content_at(data: Seq<u8>, order: ByteOrder, n: int, p: int, j: int)
    requires
        0 <= p < n,
        0 <= j < 4,
    ensures
        rgb30_content(data, n, order)[4 * p + j] == u32_bytes(rgb30_word(data, p), order)[j],
{
    reveal(rgb30_content);
    assert((4 * p + j) / 4 == p && (4 * p + j) % 4 == j);
}

/// The image of no pixels is empty, and the image of `n + 1` pixels is that
/// of `n` pixels and the word of the next one.
pub proof fn lemma_rgb30_content(data: Seq<u8>, order: ByteOrder, n: int)
    requires
        0 <= n,
    ensures
        rgb30_content(data, 0, order) == Seq::<u8>::empty(),
        rgb30_content(data, n, order).len() == 4 * n,
        rgb30_content(data, n + 1, order) == rgb30_content(data, n, order) + u32_bytes(
            rgb30_word(data, n),
            order,
        ),
{
    let prev = rgb30_content(data, n, order);
    let next = rgb30_content(data, n + 1, order);
    let piece = u32_bytes(rgb30_word(data, n), order);
    assert(prev.len() == 4 * n && next.len() == 4 * n + 4) by {
        reveal(rgb30_content);
    }
    
    assert forall|k: int| 0 <= k < 4 * n + 4 implies next[k] == (prev + piece)[k] by {
        lemma_rgb30_content_at(data, order, n + 1, k / 4, k % 4);
        if k < 4 * n {
            lemma_rgb30_content_at(data, order, n, k / 4, k % 4);
        } else {
            assert(k / 4 == n && k % 4 == k - 4 * n);
        }
    }
    assert(next =~= prev + piece);
    assert(rgb30_content(data, 0, order) =~= Seq::<u8>::empty()) by {
        reveal(rgb30_content);
    }
}

/// The word of pixel `p` of the image whose channels are the packed planes
/// `r`, `g` and `b` of 32-bit samples.
pub open spec fn i30_word(r: Seq<u8>, g: Seq<u8>, b: Seq<u8>, p: int, order: ByteOrder) -> u32 {
    pack30_from32_spec(nth_word(r, p, order), nth_word(g, p, order), nth_word(b, p, order))
}

/// The packed 10/10/10 image of the first `n` pixels of the image whose
/// channels are the planes `r`, `g` and `b` of 32-bit samples.
#[verifier::opaque]
pub open spec fn i30_content(r: Seq<u8>, g: Seq<u8>, b: Seq<u8>, n: int, order: ByteOrder) -> Seq<
    u8,
> {
    Seq::new((4 * n) as nat, |k: int| u32_bytes(i30_word(r, g, b, k / 4, order), order)[k % 4])
}

/// Byte `j` of word `p` of the packed 10/10/10 image of three planes.
pub proof fn lemma_i30_content_at(
    r: Seq<u8>,
    g: Seq<u8>,
    b: Seq<u8>,
    order: ByteOrder,
    n: int,
    p: int,
    j: int,
)
    requires
        0 <= p < n,
        0 <= j < 4,
    ensures
        i30_content(r, g, b, n, order)[4 * p + j] == u32_bytes(
            i30_word(r, g, b, p, order),
            order,
        )[j],
{
    reveal(i30_content);
    assert((4 * p + j) / 4 == p && (4 * p + j) % 4 == j);
}

/// The image of no pixels is empty, and the image of `n + 1` pixels is that
/// of `n` pixels and the word of the next one.
pub proof fn lemma_i30_content(r: Seq<u8>, g: Seq<u8>, b: Seq<u8>, order: ByteOrder, n: int)
    requires
        0 <= n,
    ensures
        i30_content(r, g, b, 0, order) == Seq::<u8>::empty(),
        i30_content(r, g, b, n, order).len() == 4 * n,
        i30_content(r, g, b, n + 1, order) == i30_content(r, g, b, n, order) + u32_bytes(
            i30_word(r, g, b, n, order),
            order,
        ),
{
    let prev = i30_content(r, g, b, n, order);
    let next = i30_content(r, g, b, n + 1, order);
    let piece = u32_bytes(i30_word(r, g, b, n, order), order);
    assert(prev.len() == 4 * n && next.len() == 4 * n + 4) by {
        reveal(i30_content);
    }
    
    assert forall|k: int| 0 <= k < 4 * n + 4 implies next[k] == (prev + piece)[k] by {
        lemma_i30_content_at(r, g, b, order, n + 1, k / 4, k % 4);
        if k < 4 * n {
            lemma_i30_content_at(r, g, b, order, n, k / 4, k % 4);
        } else {
            assert(k / 4 == n && k % 4 == k - 4 * n);
        }
    }
    assert(next =~= prev + piece);
    assert(i30_content(r, g, b, 0, order) =~= Seq::<u8>::empty()) by {
        reveal(i30_content);
    }
}

/// The four bytes of an 8-bit pixel taken from a 10/10/10 word: blue, green,
/// red, and a fourth byte with every bit set.
pub open spec fn bgrx_bytes(v: u32) -> Seq<u8> {
    let c = unpack30_to8_spec(v);
    seq![c.2, c.1, c.0, 255u8]
}

/// The packed image of four bytes per pixel of the first `n` pixels of the
/// packed 10/10/10 image `src`.
#[verifier::opaque]
pub open spec fn bgrx_content(src: Seq<u8>, n: int, order: ByteOrder) -> Seq<u8> {
    Seq::new((4 * n) as nat, |k: int| bgrx_bytes(nth_word(src, k / 4, order))[k % 4])
}

/// Byte `j` of pixel `p` of the packed 8-bit image of a 10/10/10 image.
pub proof fn lemma_bgrx_content_at(src: Seq<u8>, order: ByteOrder, n: int, p: int, j: int)
    requires
        0 <= p < n,
        0 <= j < 4,
    ensures
        bgrx_content(src, n, order)[4 * p + j] == bgrx_bytes(nth_word(src, p, order))[j],
{
    reveal(bgrx_content);
    assert((4 * p + j) / 4 == p && (4 * p + j) % 4 == j);
}

/// The image of no pixels is empty, and the image of `n + 1` pixels is that
/// of `n` pixels and the bytes of the next one.
pub proof fn lemma_bgrx_content(src: Seq<u8>, order: ByteOrder, n: int)
    requires
        0 <= n,
    ensures
        bgrx_content(src, 0, order) == Seq::<u8>::empty(),
        bgrx_content(src, n, order).len() == 4 * n,
        bgrx_content(src, n + 1, order) == bgrx_content(src, n, order) + bgrx_bytes(
            nth_word(src, n, order),
        ),
{
    let prev = bgrx_content(src, n, order);
    let next = bgrx_content(src, n + 1, order);
    let piece = bgrx_bytes(nth_word(src, n, order));
    assert(prev.len() == 4 * n && next.len() == 4 * n + 4) by {
        reveal(bgrx_content);
    }
    
    assert forall|k: int| 0 <= k < 4 * n + 4 implies next[k] == (prev + piece)[k] by {
        lemma_bgrx_content_at(src, order, n + 1, k / 4, k % 4);
        if k < 4 * n {
            lemma_bgrx_content_at(src, order, n, k / 4, k % 4);
        } else {
            assert(k / 4 == n && k % 4 == k - 4 * n);
        }
    }
    assert(next =~= prev + piece);
    assert(bgrx_content(src, 0, order) =~= Seq::<u8>::empty()) by {
        reveal(bgrx_content);
    }
}

/// One of the three 32-bit channels of a word: 0 is red, 1 green, any other
/// number blue.
pub open spec fn channel32(v: u32, channel: int) -> u32 {
    let c = unpack30_to32_spec(v);
    if channel == 0 {
        c.0
    } else if channel == 1 {
        c.1
    } else {
        c.2
    }
}

/// The plane of 32-bit samples that holds one channel of the first `n` pixels
/// of the packed 10/10/10 image `src`.
#[verifier::opaque]
pub open spec fn plane32_content(src: Seq<u8>, n: int, channel: int, order: ByteOrder) -> Seq<
    u8,
> {
    Seq::new(
        (4 * n) as nat,
        |k: int| u32_bytes(channel32(nth_word(src, k / 4, order), channel), order)[k % 4],
    )
}

/// Byte `j` of sample `p` of a plane taken from a packed 10/10/10 image.
pub proof fn lemma_plane32_content_at(
    src: Seq<u8>,
    channel: int,
    order: ByteOrder,
    n: int,
    p: int,
    j: int,
)
    requires
        0 <= p < n,
        0 <= j < 4,
    ensures
        plane32_content(src, n, channel, order)[4 * p + j] == u32_bytes(
            channel32(nth_word(src, p, order), channel),
            order,
        )[j],
{
    reveal(plane32_content);
    assert((4 * p + j) / 4 == p && (4 * p + j) % 4 == j);
}

/// The plane of no pixels is empty, and the plane of `n + 1` pixels is that
/// of `n` pixels and the sample of the next one.
pub proof fn lemma_plane32_content(src: Seq<u8>, channel: int, order: ByteOrder, n: int)
    requires
        0 <= n,
    ensures
        plane32_content(src, 0, channel, order) == Seq::<u8>::empty(),
        plane32_content(src, n, channel, order).len() == 4 * n,
        plane32_content(src, n + 1, channel, order) == plane32_content(src, n, channel, order)
            + u32_bytes(channel32(nth_word(src, n, order), channel), order),
{
    let prev = plane32_content(src, n, channel, order);
    let next = plane32_content(src, n + 1, channel, order);
    let piece = u32_bytes(channel32(nth_word(src, n, order), channel), order);
    assert(prev.len() == 4 * n && next.len() == 4 * n + 4) by {
        reveal(plane32_content);
    }
    
    assert forall|k: int| 0 <= k < 4 * n + 4 implies next[k] == (prev + piece)[k] by {
        lemma_plane32_content_at(src, channel, order, n + 1, k / 4, k % 4);
        if k < 4 * n {
            lemma_plane32_content_at(src, channel, order, n, k / 4, k % 4);
        } else {
            assert(k / 4 == n && k % 4 == k - 4 * n);
        }
    }
    assert(next =~= prev + piece);
    assert(plane32_content(src, 0, channel, order) =~= Seq::<u8>::empty()) by {
        reveal(plane32_content);
    }
}

/// Converts the packed 8-bit RGB image `data` of `w` by `h` pixels to
/// 10/10/10 words in the strided buffer `out`.
pub fn pil_rgb_to_cairo_rgb30(
    data: &[u8],
    out: &mut [u8],
    w: usize,
    h: usize,
    stride: usize,
    order: ByteOrder,
)
    requires
        4 * w <= stride,
        stride * h <= old(out)@.len(),
        3 * (w * h) <= data@.len(),
    ensures
        final(out)@ == scatter(
            old(out)@,
            rgb30_content(data@, w * h, order),
            stride as int,
            4 * w,
        ),
{
    let ghost before = out@;
    let mut i_in: usize = 0;
    proof {
        assert(before.len() == out.len());
        assert(0 * w == 0 && h * w == w * h) by (nonlinear_arith);
        lemma_rgb30_content(data@, order, 0);
        lemma_scatter_empty(before, stride as int, 4 * w);
    }
    for y in 0..h
        invariant
            4 * w <= stride,
            stride * h <= before.len() == out@.len() <= usize::MAX,
            3 * (w * h) <= data@.len(),
            i_in == 3 * (y * w),
            out@ == scatter(before, rgb30_content(data@, y * w, order), stride as int, 4 * w),
    {
        for x in 0..w
            invariant
                y < h,
                4 * w <= stride,
                stride * h <= before.len() == out@.len() <= usize::MAX,
                3 * (w * h) <= data@.len(),
                i_in == 3 * (y * w + x),
                out@ == scatter(
                    before,
                    rgb30_content(data@, y * w + x, order),
                    stride as int,
                    4 * w,
                ),
        {
            let ghost n = y * w + x;
            proof {
                lemma_pixel_place(
                    x as int,
                    y as int,
                    w as int,
                    h as int,
                    stride as int,
                    4,
                    before.len() as int,
                );
                lemma_rgb30_content(data@, order, n);
            }
            let i_out = y * stride + x * 4;
            let v = pack30_from8(data[i_in], data[i_in + 1], data[i_in + 2]);
            lay_word(
                out,
                i_out,
                v,
                order,
                Ghost(before),
                Ghost(rgb30_content(data@, n, order)),
                Ghost(y as int),
                Ghost(4 * x),
                Ghost(stride as int),
                Ghost(4 * w),
            );
            i_in += 3;
        }
        assert((y + 1) * w == y * w + w) by (nonlinear_arith);
    }
}

/// Converts the image of `w` by `h` pixels whose channels are the packed
/// planes `r`, `g` and `b` of 32-bit samples to 10/10/10 words in the strided
/// buffer `out`.
pub fn pil_i_to_cairo_rgb30(
    r: &[u8],
    g: &[u8],
    b: &[u8],
    out: &mut [u8],
    w: usize,
    h: usize,
    stride: usize,
    order: ByteOrder,
)
    requires
        4 * w <= stride,
        stride * h <= old(out)@.len(),
        4 * (w * h) <= r@.len(),
        4 * (w * h) <= g@.len(),
        4 * (w * h) <= b@.len(),
    ensures
        final(out)@ == scatter(
            old(out)@,
            i30_content(r@, g@, b@, w * h, order),
            stride as int,
            4 * w,
        ),
{
    let ghost before = out@;
    let mut i_in: usize = 0;
    proof {
        assert(before.len() == out.len());
        assert(r@.len() == r.len());
        assert(0 * w == 0 && h * w == w * h) by (nonlinear_arith);
        lemma_i30_content(r@, g@, b@, order, 0);
        lemma_scatter_empty(before, stride as int, 4 * w);
    }
    for y in 0..h
        invariant
            4 * w <= stride,
            stride * h <= before.len() == out@.len() <= usize::MAX,
            4 * (w * h) <= r@.len() <= usize::MAX,
            4 * (w * h) <= g@.len(),
            4 * (w * h) <= b@.len(),
            i_in == 4 * (y * w),
            out@ == scatter(
                before,
                i30_content(r@, g@, b@, y * w, order),
                stride as int,
                4 * w,
            ),
    {
        for x in 0..w
            invariant
                y < h,
                4 * w <= stride,
                stride * h <= before.len() == out@.len() <= usize::MAX,
                4 * (w * h) <= r@.len() <= usize::MAX,
                4 * (w * h) <= g@.len(),
                4 * (w * h) <= b@.len(),
                i_in == 4 * (y * w + x),
                out@ == scatter(
                    before,
                    i30_content(r@, g@, b@, y * w + x, order),
                    stride as int,
                    4 * w,
                ),
        {
            let ghost n = y * w + x;
            proof {
                lemma_pixel_place(
                    x as int,
                    y as int,
                    w as int,
                    h as int,
                    stride as int,
                    4,
                    before.len() as int,
                );
                lemma_i30_content(r@, g@, b@, order, n);
            }
            let i_out = y * stride + x * 4;
            let r_v = load_u32(r, i_in, order);
            let g_v = load_u32(g, i_in, order);
            let b_v = load_u32(b, i_in, order);
            let v = pack30_from32(r_v, g_v, b_v);
            lay_word(
                out,
                i_out,
                v,
                order,
                Ghost(before),
                Ghost(i30_content(r@, g@, b@, n, order)),
                Ghost(y as int),
                Ghost(4 * x),
                Ghost(stride as int),
                Ghost(4 * w),
            );
            i_in += 4;
        }
        assert((y + 1) * w == y * w + w) by (nonlinear_arith);
    }
}

/// Converts, in place, the strided 10/10/10 image `data` of `w` by `h` pixels
/// to 8-bit pixels of four bytes: blue, green, red, and a byte of 255.
pub fn cairo_rgb30_to_pil_bgrx(
    data: &mut [u8],
    w: usize,
    h: usize,
    stride: usize,
    order: ByteOrder,
)
    requires
        4 * w <= stride,
        stride * h <= old(data)@.len(),
    ensures
        final(data)@ == scatter(
            old(data)@,
            bgrx_content(gather(old(data)@, h as int, stride as int, 4 * w), w * h, order),
            stride as int,
            4 * w,
        ),
{
    let ghost before = data@;
    let ghost src = gather(before, h as int, stride as int, 4 * w);
    proof {
        assert(before.len() == data.len());
        assert(0 * w == 0 && h * w == w * h) by (nonlinear_arith);
        lemma_bgrx_content(src, order, 0);
        lemma_scatter_empty(before, stride as int, 4 * w);
    }
    for y in 0..h
        invariant
            4 * w <= stride,
            stride * h <= before.len() == data@.len() <= usize::MAX,
            src == gather(before, h as int, stride as int, 4 * w),
            data@ == scatter(before, bgrx_content(src, y * w, order), stride as int, 4 * w),
    {
        for x in 0..w
            invariant
                y < h,
                4 * w <= stride,
                stride * h <= before.len() == data@.len() <= usize::MAX,
                src == gather(before, h as int, stride as int, 4 * w),
                data@ == scatter(
                    before,
                    bgrx_content(src, y * w + x, order),
                    stride as int,
                    4 * w,
                ),
        {
            let ghost n = y * w + x;
            let ghost done = bgrx_content(src, n, order);
            proof {
                lemma_pixel_place(
                    x as int,
                    y as int,
                    w as int,
                    h as int,
                    stride as int,
                    4,
                    before.len() as int,
                );
                lemma_bgrx_content(src, order, n);
                lemma_unreached_word(
                    before,
                    done,
                    y as int,
                    x as int,
                    stride as int,
                    w as int,
                    order,
                );
                lemma_row_word(
                    before,
                    h as int,
                    y as int,
                    x as int,
                    stride as int,
                    w as int,
                    order,
                );
            }
            let i = y * stride + x * 4;
            let v = load_u32(data, i, order);
            let c = unpack30_to8(v);
            let px: [u8; 4] = [c.2, c.1, c.0, 255];
            assert(px@ =~= bgrx_bytes(v));
            lay(
                data,
                i,
                &px,
                Ghost(before),
                Ghost(done),
                Ghost(y as int),
                Ghost(4 * x),
                Ghost(stride as int),
                Ghost(4 * w),
            );
        }
        assert((y + 1) * w == y * w + w) by (nonlinear_arith);
    }
}

/// Converts the strided 10/10/10 image `data` of `w` by `h` pixels to three
/// packed planes of 32-bit samples.
pub fn cairo_rgb30_to_pil_i(
    data: &[u8],
    r: &mut [u8],
    g: &mut [u8],
    b: &mut [u8],
    w: usize,
    h: usize,
    stride: usize,
    order: ByteOrder,
)
    requires
        4 * w <= stride,
        stride * h <= data@.len(),
        4 * (w * h) <= old(r)@.len(),
        4 * (w * h) <= old(g)@.len(),
        4 * (w * h) <= old(b)@.len(),
    ensures
        final(r)@ == overlay(
            old(r)@,
            plane32_content(gather(data@, h as int, stride as int, 4 * w), w * h, 0, order),
        ),
        final(g)@ == overlay(
            old(g)@,
            plane32_content(gather(data@, h as int, stride as int, 4 * w), w * h, 1, order),
        ),
        final(b)@ == overlay(
            old(b)@,
            plane32_content(gather(data@, h as int, stride as int, 4 * w), w * h, 2, order),
        ),
{
    let ghost r0 = r@;
    let ghost g0 = g@;
    let ghost b0 = b@;
    let ghost src = gather(data@, h as int, stride as int, 4 * w);
    let mut j: usize = 0;
    proof {
        assert(r0.len() == r.len());
        assert(data@.len() == data.len());
        assert(0 * w == 0 && h * w == w * h) by (nonlinear_arith);
        lemma_plane32_content(src, 0, order, 0);
        lemma_plane32_content(src, 1, order, 0);
        lemma_plane32_content(src, 2, order, 0);
        assert(r@ =~= overlay(r0, Seq::empty()));
        assert(g@ =~= overlay(g0, Seq::empty()));
        assert(b@ =~= overlay(b0, Seq::empty()));
    }
    for y in 0..h
        invariant
            4 * w <= stride,
            stride * h <= data@.len() <= usize::MAX,
            4 * (w * h) <= r0.len() == r@.len() <= usize::MAX,
            4 * (w * h) <= g0.len() == g@.len(),
            4 * (w * h) <= b0.len() == b@.len(),
            src == gather(data@, h as int, stride as int, 4 * w),
            j == 4 * (y * w),
            r@ == overlay(r0, plane32_content(src, y * w, 0, order)),
            g@ == overlay(g0, plane32_content(src, y * w, 1, order)),
            b@ == overlay(b0, plane32_content(src, y * w, 2, order)),
    {
        for x in 0..w
            invariant
                y < h,
                4 * w <= stride,
                stride * h <= data@.len() <= usize::MAX,
                4 * (w * h) <= r0.len() == r@.len() <= usize::MAX,
                4 * (w * h) <= g0.len() == g@.len(),
                4 * (w * h) <= b0.len() == b@.len(),
                src == gather(data@, h as int, stride as int, 4 * w),
                j == 4 * (y * w + x),
                r@ == overlay(r0, plane32_content(src, y * w + x, 0, order)),
                g@ == overlay(g0, plane32_content(src, y * w + x, 1, order)),
                b@ == overlay(b0, plane32_content(src, y * w + x, 2, order)),
        {
            let ghost n = y * w + x;
            proof {
                lemma_pixel_place(
                    x as int,
                    y as int,
                    w as int,
                    h as int,
                    stride as int,
                    4,
                    data@.len() as int,
                );
                lemma_plane32_content(src, 0, order, n);
                lemma_plane32_content(src, 1, order, n);
                lemma_plane32_content(src, 2, order, n);
            }
            let i = y * stride + x * 4;
            let v = row_word(
                data,
                i,
                order,
                Ghost(h as int),
                Ghost(y as int),
                Ghost(x as int),
                Ghost(stride as int),
                Ghost(w as int),
            );
            let c = unpack30_to32(v);
            put_word(r, j, c.0, order, Ghost(r0), Ghost(plane32_content(src, n, 0, order)));
            put_word(g, j, c.1, order, Ghost(g0), Ghost(plane32_content(src, n, 1, order)));
            put_word(b, j, c.2, order, Ghost(b0), Ghost(plane32_content(src, n, 2, order)));
            j += 4;
        }
        assert((y + 1) * w == y * w + w) by (nonlinear_arith);
    }
}

/// Word `p` of the packed 10/10/10 image of an 8-bit image is the word of
/// its pixel `p`.
pub proof fn lemma_rgb30_content_word(data: Seq<u8>, n: int, order: ByteOrder, p: int)
    requires
        0 <= p < n,
    ensures
        nth_word(rgb30_content(data, n, order), p, order) == rgb30_word(data, p),
{
    lemma_u32_bytes_decode(rgb30_word(data, p), order);
    lemma_rgb30_content_at(data, order, n, p, 0);
    lemma_rgb30_content_at(data, order, n, p, 1);
    lemma_rgb30_content_at(data, order, n, p, 2);
    lemma_rgb30_content_at(data, order, n, p, 3);
}

/// Word `p` of the packed 10/10/10 image of three planes is the word of
/// their samples `p`.
pub proof fn lemma_i30_content_word(
    r: Seq<u8>,
    g: Seq<u8>,
    b: Seq<u8>,
    n: int,
    order: ByteOrder,
    p: int,
)
    requires
        0 <= p < n,
    ensures
        nth_word(i30_content(r, g, b, n, order), p, order) == i30_word(r, g, b, p, order),
{
    lemma_u32_bytes_decode(i30_word(r, g, b, p, order), order);
    lemma_i30_content_at(r, g, b, order, n, p, 0);
    lemma_i30_content_at(r, g, b, order, n, p, 1);
    lemma_i30_content_at(r, g, b, order, n, p, 2);
    lemma_i30_content_at(r, g, b, order, n, p, 3);
}

/// The four bytes of pixel `p` of the packed 8-bit image of a 10/10/10 image
/// are the channels of its word `p`: blue, green, red, and 255.
pub proof fn lemma_bgrx_content_pixel(src: Seq<u8>, n: int, order: ByteOrder, p: int)
    requires
        0 <= p < n,
    ensures
        ({
            let content = bgrx_content(src, n, order);
            let c = unpack30_to8_spec(nth_word(src, p, order));
            &&& content[4 * p] == c.2
            &&& content[4 * p + 1] == c.1
            &&& content[4 * p + 2] == c.0
            &&& content[4 * p + 3] == 255
        }),
{
    lemma_bgrx_content_at(src, order, n, p, 0);
    lemma_bgrx_content_at(src, order, n, p, 1);
    lemma_bgrx_content_at(src, order, n, p, 2);
    lemma_bgrx_content_at(src, order, n, p, 3);
}

/// Sample `p` of a plane taken from a packed 10/10/10 image is the channel of
/// its word `p`.
pub proof fn lemma_plane32_content_word(
    src: Seq<u8>,
    n: int,
    channel: int,
    order: ByteOrder,
    p: int,
)
    requires
        0 <= p < n,
    ensures
        nth_word(plane32_content(src, n, channel, order), p, order) == channel32(
            nth_word(src, p, order),
            channel,
        ),
{
    lemma_u32_bytes_decode(channel32(nth_word(src, p, order), channel), order);
    lemma_plane32_content_at(src, channel, order, n, p, 0);
    lemma_plane32_content_at(src, channel, order, n, p, 1);
    lemma_plane32_content_at(src, channel, order, n, p, 2);
    lemma_plane32_content_at(src, channel, order, n, p, 3);
}

/// An 8-bit image that is converted to 10/10/10 words and, in place, back to
/// 8-bit pixels of four bytes holds for each pixel blue, green and red as
/// `through_ten_bits8` has them, and 255.
pub proof fn lemma_rgb30_to_bgrx(
    before: Seq<u8>,
    data: Seq<u8>,
    w: int,
    h: int,
    stride: int,
    order: ByteOrder,
    p: int,
)
    requires
        0 <= h,
        0 <= 4 * w <= stride,
        stride * h <= before.len(),
        0 <= p < w * h,
    ensures
        ({
            let laid = scatter(before, rgb30_content(data, w * h, order), stride, 4 * w);
            let back = scatter(
                laid,
                bgrx_content(gather(laid, h, stride, 4 * w), w * h, order),
                stride,
                4 * w,
            );
            let px = gather(back, h, stride, 4 * w);
            &&& px[4 * p] == through_ten_bits8(data[3 * p + 2])
            &&& px[4 * p + 1] == through_ten_bits8(data[3 * p + 1])
            &&& px[4 * p + 2] == through_ten_bits8(data[3 * p])
            &&& px[4 * p + 3] == 255
        }),
{
    let first = rgb30_content(data, w * h, order);
    let laid = scatter(before, first, stride, 4 * w);
    let second = bgrx_content(gather(laid, h, stride, 4 * w), w * h, order);
    assert(h * (4 * w) == 4 * (w * h)) by (nonlinear_arith);
    lemma_rgb30_content(data, order, w * h);
    lemma_gather_scatter(before, first, h, stride, 4 * w);
    lemma_scatter_len(before, first, stride, 4 * w);
    lemma_bgrx_content(first, order, w * h);
    lemma_gather_scatter(laid, second, h, stride, 4 * w);
    lemma_rgb30_content_word(data, w * h, order, p);
    lemma_bgrx_content_pixel(first, w * h, order, p);
    lemma_unpack30_pack30_from8(data[3 * p], data[3 * p + 1], data[3 * p + 2]);
}

/// Three planes `r`, `g` and `b` of 32-bit samples that are converted to
/// 10/10/10 words and back to planes, written over `r_before`, `g_before` and
/// `b_before`, hold each sample as `through_ten_bits` has it.
pub proof fn lemma_i_to_rgb30_to_i(
    before: Seq<u8>,
    r: Seq<u8>,
    g: Seq<u8>,
    b: Seq<u8>,
    r_before: Seq<u8>,
    g_before: Seq<u8>,
    b_before: Seq<u8>,
    w: int,
    h: int,
    stride: int,
    order: ByteOrder,
    p: int,
)
    requires
        0 <= h,
        0 <= 4 * w <= stride,
        stride * h <= before.len(),
        4 * (w * h) <= r_before.len(),
        4 * (w * h) <= g_before.len(),
        4 * (w * h) <= b_before.len(),
        0 <= p < w * h,
    ensures
        ({
            let laid = scatter(before, i30_content(r, g, b, w * h, order), stride, 4 * w);
            let src = gather(laid, h, stride, 4 * w);
            let r2 = overlay(r_before, plane32_content(src, w * h, 0, order));
            let g2 = overlay(g_before, plane32_content(src, w * h, 1, order));
            let b2 = overlay(b_before, plane32_content(src, w * h, 2, order));
            &&& nth_word(r2, p, order) == through_ten_bits(nth_word(r, p, order))
            &&& nth_word(g2, p, order) == through_ten_bits(nth_word(g, p, order))
            &&& nth_word(b2, p, order) == through_ten_bits(nth_word(b, p, order))
        }),
{
    let first = i30_content(r, g, b, w * h, order);
    let laid = scatter(before, first, stride, 4 * w);
    assert(h * (4 * w) == 4 * (w * h)) by (nonlinear_arith);
    lemma_i30_content(r, g, b, order, w * h);
    lemma_gather_scatter(before, first, h, stride, 4 * w);
    lemma_i30_content_word(r, g, b, w * h, order, p);
    lemma_unpack30_pack30_from32(
        nth_word(r, p, order),
        nth_word(g, p, order),
        nth_word(b, p, order),
    );
    lemma_plane_over(r_before, first, w * h, 0, order, p);
    lemma_plane_over(g_before, first, w * h, 1, order, p);
    lemma_plane_over(b_before, first, w * h, 2, order, p);
}

/// Sample `p` of a plane written over the start of a buffer is the channel of
/// word `p` of the image.
proof fn lemma_plane_over(
    before: Seq<u8>,
    src: Seq<u8>,
    n: int,
    channel: int,
    order: ByteOrder,
    p: int,
)
    requires
        0 <= p < n,
        4 * n <= before.len(),
    ensures
        nth_word(overlay(before, plane32_content(src, n, channel, order)), p, order) == channel32(
            nth_word(src, p, order),
            channel,
        ),
{
    let content = plane32_content(src, n, channel, order);
    let plane = overlay(before, content);
    lemma_plane32_content(src, channel, order, n);
    lemma_plane32_content_word(src, n, channel, order, p);
    assert(plane[4 * p] == content[4 * p]);
    assert(plane[4 * p + 1] == content[4 * p + 1]);
    assert(plane[4 * p + 2] == content[4 * p + 2]);
    assert(plane[4 * p + 3] == content[4 * p + 3]);
}

} // verus!
