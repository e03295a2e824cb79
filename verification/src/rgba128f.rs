//! The 128-bit format: four binary32 samples per pixel, red, green, blue and
//! alpha, the colours multiplied by alpha.

use vstd::prelude::*;
use crate::layout::{
    gather, only_rows_changed, only_start_changed, overlay, put, scatter, lemma_gather_len,
    lemma_gather_range, lemma_gather_scatter, lemma_pixel_place, lemma_scatter_empty,
    lemma_scatter_only_rows,
};
use crate::order::{load_u32, nth_word, u32_bytes, ByteOrder, lemma_append_word};
use crate::sample::{channel_plane, is_zero, is_zero_spec, lemma_channel_plane};
use crate::word::{lay_words4, put_word, row_word, words4, lemma_append_words4};

verus! {

/// Whether `out` is what `times` gave for the binary32 of the 8-bit sample `c`
/// and the alpha `a`.
pub open spec fn scaled_from8<U: Fn(u8) -> u32, T: Fn(u32, u32) -> u32>(
    unit: U,
    times: T,
    c: u8,
    a: u32,
    out: u32,
) -> bool {
    exists|u: u32| #[trigger] unit.ensures((c,), u) && times.ensures((u, a), out)
}

/// Whether pixel `p` of the packed 128-bit image `content` is pixel `p` of the
/// packed 8-bit RGBA image `data`: its alpha what `unit` gave for the 8-bit
/// alpha, and each colour what `times` gave for the binary32 of the 8-bit
/// colour and that alpha.
pub open spec fn premultiplied_from8<U: Fn(u8) -> u32, T: Fn(u32, u32) -> u32>(
    unit: U,
    times: T,
    data: Seq<u8>,
    content: Seq<u8>,
    p: int,
    order: ByteOrder,
) -> bool {
    let a = nth_word(content, 4 * p + 3, order);
    &&& unit.ensures((data[4 * p + 3],), a)
    &&& scaled_from8(unit, times, data[4 * p], a, nth_word(content, 4 * p, order))
    &&& scaled_from8(unit, times, data[4 * p + 1], a, nth_word(content, 4 * p + 1, order))
    &&& scaled_from8(unit, times, data[4 * p + 2], a, nth_word(content, 4 * p + 2, order))
}

/// Converts the packed 8-bit RGBA image `data` of `w` by `h` pixels to
/// binary32 samples in the strided buffer `out`, the colours multiplied by
/// alpha. `unit` gives the binary32 of an 8-bit sample, its fraction of 255,
/// and `times` the product of two binary32.
pub fn pil_rgba_to_cairo_rgba128f<U: Fn(u8) -> u32, T: Fn(u32, u32) -> u32>(
    data: &[u8],
    out: &mut [u8],
    w: usize,
    h: usize,
    stride: usize,
    order: ByteOrder,
    unit: U,
    times: T,
)
    requires
        16 * w <= stride,
        stride * h <= old(out)@.len(),
        4 * (w * h) <= data@.len(),
        forall|v: u8| unit.requires((v,)),
        forall|x: u32, y: u32| times.requires((x, y)),
    ensures
        only_rows_changed(old(out)@, final(out)@, h as int, stride as int, 16 * w),
        forall|p: int|
            0 <= p < w * h ==> #[trigger] premultiplied_from8(
                unit,
                times,
                data@,
                gather(final(out)@, h as int, stride as int, 16 * w),
                p,
                order,
            ),
{
    let ghost before = out@;
    let ghost mut content: Seq<u8> = Seq::empty();
    let mut i_in: usize = 0;
    proof {
        assert(before.len() == out.len());
        assert(0 * w == 0 && h * w == w * h && h * (16 * w) == 16 * (w * h)) by (nonlinear_arith);
        lemma_scatter_empty(before, stride as int, 16 * w);
    }
    for y in 0..h
        invariant
            16 * w <= stride,
            stride * h <= before.len() == out@.len() <= usize::MAX,
            4 * (w * h) <= data@.len(),
            forall|v: u8| unit.requires((v,)),
            forall|x: u32, y: u32| times.requires((x, y)),
            i_in == 4 * (y * w),
            content.len() == 16 * (y * w),
            out@ == scatter(before, content, stride as int, 16 * w),
            forall|p: int|
                0 <= p < y * w ==> #[trigger] premultiplied_from8(
                    unit,
                    times,
                    data@,
                    content,
                    p,
                    order,
                ),
    {
        for x in 0..w
            invariant
                y < h,
                16 * w <= stride,
                stride * h <= before.len() == out@.len() <= usize::MAX,
                4 * (w * h) <= data@.len(),
                forall|v: u8| unit.requires((v,)),
                forall|x: u32, y: u32| times.requires((x, y)),
                i_in == 4 * (y * w + x),
                content.len() == 16 * (y * w + x),
                out@ == scatter(before, content, stride as int, 16 * w),
                forall|p: int|
                    0 <= p < y * w + x ==> #[trigger] premultiplied_from8(
                        unit,
                        times,
                        data@,
                        content,
                        p,
                        order,
                    ),
        {
            let ghost n = y * w + x;
            let ghost s = stride as int;
            let ghost c0 = content;
            proof {
                lemma_pixel_place(
                    x as int,
                    y as int,
                    w as int,
                    h as int,
                    s,
                    16,
                    before.len() as int,
                );
            }
            let i_out = y * stride + x * 16;
            let a = unit(data[i_in + 3]);
            let r = times(unit(data[i_in]), a);
            let g = times(unit(data[i_in + 1]), a);
            let b = times(unit(data[i_in + 2]), a);
            lay_words4(
                out,
                i_out,
                (r, g, b, a),
                order,
                Ghost(before),
                Ghost(content),
                Ghost(y as int),
                Ghost(16 * x),
                Ghost(s),
                Ghost(16 * w),
            );
            proof {
                lemma_append_words4(c0, 4 * n, r, g, b, a, order);
                content = c0 + words4(r, g, b, a, order);
                assert forall|p: int| 0 <= p < n + 1 implies #[trigger] premultiplied_from8(
                    unit,
                    times,
                    data@,
                    content,
                    p,
                    order,
                ) by {
                    if p < n {
                        lemma_premultiplied_from8_kept(unit, times, data@, c0, content, p, order);
                    }
                }
            }
            i_in += 4;
        }
        assert((y + 1) * w == y * w + w) by (nonlinear_arith);
    }
    proof {
        lemma_gather_scatter(before, content, h as int, stride as int, 16 * w);
        lemma_scatter_only_rows(before, content, h as int, stride as int, 16 * w);
    }
}

/// What holds of a pixel of a packed image holds of it in every image with
/// the same four samples there.
proof fn lemma_premultiplied_from8_kept<U: Fn(u8) -> u32, T: Fn(u32, u32) -> u32>(
    unit: U,
    times: T,
    data: Seq<u8>,
    c0: Seq<u8>,
    c1: Seq<u8>,
    p: int,
    order: ByteOrder,
)
    requires
        premultiplied_from8(unit, times, data, c0, p, order),
        nth_word(c1, 4 * p, order) == nth_word(c0, 4 * p, order),
        nth_word(c1, 4 * p + 1, order) == nth_word(c0, 4 * p + 1, order),
        nth_word(c1, 4 * p + 2, order) == nth_word(c0, 4 * p + 2, order),
        nth_word(c1, 4 * p + 3, order) == nth_word(c0, 4 * p + 3, order),
    ensures
        premultiplied_from8(unit, times, data, c1, p, order),
{
}

/// Whether pixel `p` of the packed 128-bit image `content` is pixel `p` of the
/// image whose channels are the planes `r`, `g`, `b` and `a`: its alpha that
/// of the plane, and each colour what `times` gave for the colour of the
/// plane and that alpha.
pub open spec fn premultiplied<T: Fn(u32, u32) -> u32>(
    times: T,
    r: Seq<u8>,
    g: Seq<u8>,
    b: Seq<u8>,
    a: Seq<u8>,
    content: Seq<u8>,
    p: int,
    order: ByteOrder,
) -> bool {
    let alpha = nth_word(a, p, order);
    &&& nth_word(content, 4 * p + 3, order) == alpha
    &&& times.ensures((nth_word(r, p, order), alpha), nth_word(content, 4 * p, order))
    &&& times.ensures((nth_word(g, p, order), alpha), nth_word(content, 4 * p + 1, order))
    &&& times.ensures((nth_word(b, p, order), alpha), nth_word(content, 4 * p + 2, order))
}

/// Merges the four packed planes `r`, `g`, `b` and `a` of binary32 samples of
/// an image of `w` by `h` pixels into the strided buffer `out`, the colours
/// multiplied by alpha. `times` gives the product of two binary32.
pub fn pil_f_to_cairo_rgba128f<T: Fn(u32, u32) -> u32>(
    r: &[u8],
    g: &[u8],
    b: &[u8],
    a: &[u8],
    out: &mut [u8],
    w: usize,
    h: usize,
    stride: usize,
    order: ByteOrder,
    times: T,
)
    requires
        16 * w <= stride,
        stride * h <= old(out)@.len(),
        4 * (w * h) <= r@.len(),
        4 * (w * h) <= g@.len(),
        4 * (w * h) <= b@.len(),
        4 * (w * h) <= a@.len(),
        forall|x: u32, y: u32| times.requires((x, y)),
    ensures
        only_rows_changed(old(out)@, final(out)@, h as int, stride as int, 16 * w),
        forall|p: int|
            0 <= p < w * h ==> #[trigger] premultiplied(
                times,
                r@,
                g@,
                b@,
                a@,
                gather(final(out)@, h as int, stride as int, 16 * w),
                p,
                order,
            ),
{
    let ghost before = out@;
    let ghost mut content: Seq<u8> = Seq::empty();
    let mut i_in: usize = 0;
    proof {
        assert(before.len() == out.len());
        assert(r@.len() == r.len());
        assert(0 * w == 0 && h * w == w * h && h * (16 * w) == 16 * (w * h)) by (nonlinear_arith);
        lemma_scatter_empty(before, stride as int, 16 * w);
    }
    for y in 0..h
        invariant
            16 * w <= stride,
            stride * h <= before.len() == out@.len() <= usize::MAX,
            4 * (w * h) <= r@.len() <= usize::MAX,
            4 * (w * h) <= g@.len(),
            4 * (w * h) <= b@.len(),
            4 * (w * h) <= a@.len(),
            forall|x: u32, y: u32| times.requires((x, y)),
            i_in == 4 * (y * w),
            content.len() == 16 * (y * w),
            out@ == scatter(before, content, stride as int, 16 * w),
            forall|p: int|
                0 <= p < y * w ==> #[trigger] premultiplied(
                    times,
                    r@,
                    g@,
                    b@,
                    a@,
                    content,
                    p,
                    order,
                ),
    {
        for x in 0..w
            invariant
                y < h,
                16 * w <= stride,
                stride * h <= before.len() == out@.len() <= usize::MAX,
                4 * (w * h) <= r@.len() <= usize::MAX,
                4 * (w * h) <= g@.len(),
                4 * (w * h) <= b@.len(),
                4 * (w * h) <= a@.len(),
                forall|x: u32, y: u32| times.requires((x, y)),
                i_in == 4 * (y * w + x),
                content.len() == 16 * (y * w + x),
                out@ == scatter(before, content, stride as int, 16 * w),
                forall|p: int|
                    0 <= p < y * w + x ==> #[trigger] premultiplied(
                        times,
                        r@,
                        g@,
                        b@,
                        a@,
                        content,
                        p,
                        order,
                    ),
        {
            let ghost n = y * w + x;
            let ghost s = stride as int;
            let ghost c0 = content;
            proof {
                lemma_pixel_place(
                    x as int,
                    y as int,
                    w as int,
                    h as int,
                    s,
                    16,
                    before.len() as int,
                );
            }
            let i_out = y * stride + x * 16;
            let a_v = load_u32(a, i_in, order);
            let r_v = times(load_u32(r, i_in, order), a_v);
            let g_v = times(load_u32(g, i_in, order), a_v);
            let b_v = times(load_u32(b, i_in, order), a_v);
            lay_words4(
                out,
                i_out,
                (r_v, g_v, b_v, a_v),
                order,
                Ghost(before),
                Ghost(content),
                Ghost(y as int),
                Ghost(16 * x),
                Ghost(s),
                Ghost(16 * w),
            );
            proof {
                lemma_append_words4(c0, 4 * n, r_v, g_v, b_v, a_v, order);
                content = c0 + words4(r_v, g_v, b_v, a_v, order);
                assert forall|p: int| 0 <= p < n + 1 implies #[trigger] premultiplied(
                    times,
                    r@,
                    g@,
                    b@,
                    a@,
                    content,
                    p,
                    order,
                ) by {
                    if p < n {
                        lemma_premultiplied_kept(times, r@, g@, b@, a@, c0, content, p, order);
                    }
                }
            }
            i_in += 4;
        }
        assert((y + 1) * w == y * w + w) by (nonlinear_arith);
    }
    proof {
        lemma_gather_scatter(before, content, h as int, stride as int, 16 * w);
        lemma_scatter_only_rows(before, content, h as int, stride as int, 16 * w);
    }
}

/// What holds of a pixel of a packed image holds of it in every image with
/// the same four samples there.
proof fn lemma_premultiplied_kept<T: Fn(u32, u32) -> u32>(
    times: T,
    r: Seq<u8>,
    g: Seq<u8>,
    b: Seq<u8>,
    a: Seq<u8>,
    c0: Seq<u8>,
    c1: Seq<u8>,
    p: int,
    order: ByteOrder,
)
    requires
        premultiplied(times, r, g, b, a, c0, p, order),
        nth_word(c1, 4 * p, order) == nth_word(c0, 4 * p, order),
        nth_word(c1, 4 * p + 1, order) == nth_word(c0, 4 * p + 1, order),
        nth_word(c1, 4 * p + 2, order) == nth_word(c0, 4 * p + 2, order),
        nth_word(c1, 4 * p + 3, order) == nth_word(c0, 4 * p + 3, order),
    ensures
        premultiplied(times, r, g, b, a, c1, p, order),
{
}

/// Whether the 8-bit sample `out` is what `byte` gave for what `over` gave for
/// the colour `c` and the alpha `a`.
pub open spec fn straight8<D: Fn(u32, u32) -> u32, B: Fn(u32) -> u8>(
    over: D,
    byte: B,
    c: u32,
    a: u32,
    out: u8,
) -> bool {
    exists|q: u32| #[trigger] over.ensures((c, a), q) && byte.ensures((q,), out)
}

/// Whether pixel `p` of the packed 8-bit RGBA image `out` is pixel `p` of the
/// packed 128-bit image `src`: its alpha what `byte` gave for the alpha, and
/// each colour what `byte` gave for what `over` gave for the colour and the
/// alpha, whatever the alpha is.
pub open spec fn straight_rgba8<D: Fn(u32, u32) -> u32, B: Fn(u32) -> u8>(
    over: D,
    byte: B,
    src: Seq<u8>,
    out: Seq<u8>,
    p: int,
    order: ByteOrder,
) -> bool {
    let a = nth_word(src, 4 * p + 3, order);
    &&& byte.ensures((a,), out[4 * p + 3])
    &&& straight8(over, byte, nth_word(src, 4 * p, order), a, out[4 * p])
    &&& straight8(over, byte, nth_word(src, 4 * p + 1, order), a, out[4 * p + 1])
    &&& straight8(over, byte, nth_word(src, 4 * p + 2, order), a, out[4 * p + 2])
}

/// Converts the strided image `data` of `w` by `h` pixels of binary32 samples,
/// the colours multiplied by alpha, to the packed 8-bit RGBA image `out` with
/// the colours as they are without alpha. `over` gives the quotient of two
/// binary32, and `byte` the 8-bit sample of a binary32: 255 times its value,
/// cut to a whole number of eight bits. A pixel whose alpha is zero is divided
/// like every other.
pub fn cairo_rgba128f_to_pil_rgba<D: Fn(u32, u32) -> u32, B: Fn(u32) -> u8>(
    data: &[u8],
    out: &mut [u8],
    w: usize,
    h: usize,
    stride: usize,
    order: ByteOrder,
    over: D,
    byte: B,
)
    requires
        16 * w <= stride,
        stride * h <= data@.len(),
        4 * (w * h) <= old(out)@.len(),
        forall|x: u32, y: u32| over.requires((x, y)),
        forall|v: u32| byte.requires((v,)),
    ensures
        only_start_changed(old(out)@, final(out)@, 4 * (w * h)),
        forall|p: int|
            0 <= p < w * h ==> #[trigger] straight_rgba8(
                over,
                byte,
                gather(data@, h as int, stride as int, 16 * w),
                final(out)@,
                p,
                order,
            ),
{
    let ghost before = out@;
    let ghost src = gather(data@, h as int, stride as int, 16 * w);
    let ghost mut content: Seq<u8> = Seq::empty();
    let mut i_out: usize = 0;
    proof {
        assert(before.len() == out.len());
        assert(data@.len() == data.len());
        assert(0 * w == 0 && h * w == w * h) by (nonlinear_arith);
        assert(out@ =~= overlay(before, content));
    }
    for y in 0..h
        invariant
            16 * w <= stride,
            stride * h <= data@.len() <= usize::MAX,
            4 * (w * h) <= before.len() == out@.len() <= usize::MAX,
            forall|x: u32, y: u32| over.requires((x, y)),
            forall|v: u32| byte.requires((v,)),
            src == gather(data@, h as int, stride as int, 16 * w),
            i_out == 4 * (y * w) == content.len(),
            out@ == overlay(before, content),
            forall|p: int|
                0 <= p < y * w ==> #[trigger] straight_rgba8(over, byte, src, content, p, order),
    {
        for x in 0..w
            invariant
                y < h,
                16 * w <= stride,
                stride * h <= data@.len() <= usize::MAX,
                4 * (w * h) <= before.len() == out@.len() <= usize::MAX,
                forall|x: u32, y: u32| over.requires((x, y)),
                forall|v: u32| byte.requires((v,)),
                src == gather(data@, h as int, stride as int, 16 * w),
                i_out == 4 * (y * w + x) == content.len(),
                out@ == overlay(before, content),
                forall|p: int|
                    0 <= p < y * w + x ==> #[trigger] straight_rgba8(
                        over,
                        byte,
                        src,
                        content,
                        p,
                        order,
                    ),
        {
            let ghost n = y * w + x;
            let ghost s = stride as int;
            let ghost c0 = content;
            proof {
                lemma_pixel_place(
                    x as int,
                    y as int,
                    w as int,
                    h as int,
                    s,
                    16,
                    data@.len() as int,
                );
                assert(y * (4 * w) + 4 * x == 4 * n) by (nonlinear_arith)
                    requires
                        n == y * w + x,
                ;
            }
            let i_in = y * stride + x * 16;
            let r = row_word(
                data,
                i_in,
                order,
                Ghost(h as int),
                Ghost(y as int),
                Ghost(4 * x),
                Ghost(s),
                Ghost(4 * w),
            );
            let g = row_word(
                data,
                i_in + 4,
                order,
                Ghost(h as int),
                Ghost(y as int),
                Ghost(4 * x + 1),
                Ghost(s),
                Ghost(4 * w),
            );
            let b = row_word(
                data,
                i_in + 8,
                order,
                Ghost(h as int),
                Ghost(y as int),
                Ghost(4 * x + 2),
                Ghost(s),
                Ghost(4 * w),
            );
            let a = row_word(
                data,
                i_in + 12,
                order,
                Ghost(h as int),
                Ghost(y as int),
                Ghost(4 * x + 3),
                Ghost(s),
                Ghost(4 * w),
            );
            let px: [u8; 4] = [byte(over(r, a)), byte(over(g, a)), byte(over(b, a)), byte(a)];
            put(out, i_out, &px, Ghost(before), Ghost(content));
            i_out += 4;
            proof {
                content = c0 + px@;
                assert(content[4 * n] == px[0] && content[4 * n + 1] == px[1]);
                assert(content[4 * n + 2] == px[2] && content[4 * n + 3] == px[3]);
                assert forall|p: int| 0 <= p < n + 1 implies #[trigger] straight_rgba8(
                    over,
                    byte,
                    src,
                    content,
                    p,
                    order,
                ) by {
                    if p < n {
                        lemma_straight_rgba8_kept(over, byte, src, c0, content, p, order);
                    }
                }
            }
        }
        assert((y + 1) * w == y * w + w) by (nonlinear_arith);
    }
    proof {
        assert forall|p: int| 0 <= p < w * h implies #[trigger] straight_rgba8(
            over,
            byte,
            src,
            out@,
            p,
            order,
        ) by {
            lemma_straight_rgba8_kept(over, byte, src, content, out@, p, order);
        }
    }
}

/// What holds of a pixel of a packed 8-bit image holds of it in every image
/// with the same four bytes there.
proof fn lemma_straight_rgba8_kept<D: Fn(u32, u32) -> u32, B: Fn(u32) -> u8>(
    over: D,
    byte: B,
    src: Seq<u8>,
    o0: Seq<u8>,
    o1: Seq<u8>,
    p: int,
    order: ByteOrder,
)
    requires
        straight_rgba8(over, byte, src, o0, p, order),
        o1[4 * p] == o0[4 * p],
        o1[4 * p + 1] == o0[4 * p + 1],
        o1[4 * p + 2] == o0[4 * p + 2],
        o1[4 * p + 3] == o0[4 * p + 3],
    ensures
        straight_rgba8(over, byte, src, o1, p, order),
{
}

/// Whether `out` is the colour `c` as it is without the alpha `a`: zero where
/// the alpha is zero, of either sign, and what `over` gave for the two where
/// it is not.
pub open spec fn straight<D: Fn(u32, u32) -> u32>(over: D, c: u32, a: u32, out: u32) -> bool {
    if is_zero_spec(a) {
        out == 0
    } else {
        over.ensures((c, a), out)
    }
}

/// Whether sample `p` of the packed plane `plane` is channel `c` of pixel `p`
/// of the packed 128-bit image `src` as it is without alpha.
pub open spec fn straight_plane<D: Fn(u32, u32) -> u32>(
    over: D,
    src: Seq<u8>,
    plane: Seq<u8>,
    c: int,
    p: int,
    order: ByteOrder,
) -> bool {
    straight(
        over,
        nth_word(src, 4 * p + c, order),
        nth_word(src, 4 * p + 3, order),
        nth_word(plane, p, order),
    )
}

/// Where the alpha of a pixel is zero, of either sign, its colour in a plane
/// of colours without alpha is zero, whatever the colour was and whatever
/// `over` would have given.
pub proof fn lemma_zero_alpha_gives_zero<D: Fn(u32, u32) -> u32>(
    over: D,
    src: Seq<u8>,
    plane: Seq<u8>,
    c: int,
    p: int,
    order: ByteOrder,
)
    requires
        straight_plane(over, src, plane, c, p, order),
        is_zero_spec(nth_word(src, 4 * p + 3, order)),
    ensures
        nth_word(plane, p, order) == 0,
{
}

/// The colour `c` as it is without the alpha `a`: zero where the alpha is
/// zero, and the quotient of the two, which `over` gives, where it is not.
pub fn unpremultiply<D: Fn(u32, u32) -> u32>(over: &D, c: u32, a: u32) -> (out: u32)
    requires
        forall|x: u32, y: u32| over.requires((x, y)),
    ensures
        straight(*over, c, a, out),
{
    if is_zero(a) {
        0
    } else {
        over(c, a)
    }
}

/// Puts the next sample behind those of a plane of colours as they are
/// without alpha.
fn put_straight<D: Fn(u32, u32) -> u32>(
    plane: &mut [u8],
    at: usize,
    v: u32,
    order: ByteOrder,
    Ghost(over): Ghost<D>,
    Ghost(src): Ghost<Seq<u8>>,
    Ghost(before): Ghost<Seq<u8>>,
    Ghost(content): Ghost<Seq<u8>>,
    Ghost(c): Ghost<int>,
    Ghost(n): Ghost<int>,
)
    requires
        old(plane)@ == overlay(before, content),
        at == content.len() == 4 * n,
        at + 4 <= old(plane)@.len(),
        straight(over, nth_word(src, 4 * n + c, order), nth_word(src, 4 * n + 3, order), v),
        forall|p: int| 0 <= p < n ==> #[trigger] straight_plane(over, src, content, c, p, order),
    ensures
        final(plane)@ == overlay(before, content + u32_bytes(v, order)),
        final(plane)@.len() == old(plane)@.len(),
        forall|p: int|
            0 <= p < n + 1 ==> #[trigger] straight_plane(
                over,
                src,
                content + u32_bytes(v, order),
                c,
                p,
                order,
            ),
{
    put_word(plane, at, v, order, Ghost(before), Ghost(content));
    proof {
        lemma_append_word(content, n, v, order);
        let next = content + u32_bytes(v, order);
        assert forall|p: int| 0 <= p < n + 1 implies #[trigger] straight_plane(
            over,
            src,
            next,
            c,
            p,
            order,
        ) by {
            if p < n {
                assert(straight_plane(over, src, content, c, p, order));
                assert(nth_word(next, p, order) == nth_word(content, p, order));
            }
        }
    }
}

/// Splits the strided image `data` of `w` by `h` pixels of binary32 samples,
/// the colours multiplied by alpha, into the four packed planes `r`, `g`, `b`
/// and `a`, the colours as they are without alpha. `over` gives the quotient
/// of two binary32; it is not asked where the alpha is zero, and the colours
/// of such a pixel are zero.
pub fn cairo_rgba128f_to_pil_f<D: Fn(u32, u32) -> u32>(
    data: &[u8],
    r: &mut [u8],
    g: &mut [u8],
    b: &mut [u8],
    a: &mut [u8],
    w: usize,
    h: usize,
    stride: usize,
    order: ByteOrder,
    over: D,
)
    requires
        16 * w <= stride,
        stride * h <= data@.len(),
        4 * (w * h) <= old(r)@.len(),
        4 * (w * h) <= old(g)@.len(),
        4 * (w * h) <= old(b)@.len(),
        4 * (w * h) <= old(a)@.len(),
        forall|x: u32, y: u32| over.requires((x, y)),
    ensures
        final(a)@ == overlay(
            old(a)@,
            channel_plane(gather(data@, h as int, stride as int, 16 * w), w * h, 4, 3),
        ),
        only_start_changed(old(r)@, final(r)@, 4 * (w * h)),
        only_start_changed(old(g)@, final(g)@, 4 * (w * h)),
        only_start_changed(old(b)@, final(b)@, 4 * (w * h)),
        forall|p: int|
            0 <= p < w * h ==> #[trigger] straight_plane(
                over,
                gather(data@, h as int, stride as int, 16 * w),
                final(r)@,
                0,
                p,
                order,
            ),
        forall|p: int|
            0 <= p < w * h ==> #[trigger] straight_plane(
                over,
                gather(data@, h as int, stride as int, 16 * w),
                final(g)@,
                1,
                p,
                order,
            ),
        forall|p: int|
            0 <= p < w * h ==> #[trigger] straight_plane(
                over,
                gather(data@, h as int, stride as int, 16 * w),
                final(b)@,
                2,
                p,
                order,
            ),
{
    let ghost r0 = r@;
    let ghost g0 = g@;
    let ghost b0 = b@;
    let ghost a0 = a@;
    let ghost src = gather(data@, h as int, stride as int, 16 * w);
    let ghost mut rc: Seq<u8> = Seq::empty();
    let ghost mut gc: Seq<u8> = Seq::empty();
    let ghost mut bc: Seq<u8> = Seq::empty();
    let mut j: usize = 0;
    proof {
        assert(r0.len() == r.len());
        assert(data@.len() == data.len());
        assert(0 * w == 0 && h * w == w * h && h * (16 * w) == 16 * (w * h)) by (nonlinear_arith);
        lemma_gather_len(data@, h as int, stride as int, 16 * w);
        reveal(channel_plane);
        assert(channel_plane(src, 0, 4, 3) =~= Seq::<u8>::empty());
        assert(r@ =~= overlay(r0, rc));
        assert(g@ =~= overlay(g0, gc));
        assert(b@ =~= overlay(b0, bc));
        assert(a@ =~= overlay(a0, Seq::empty()));
    }
    for y in 0..h
        invariant
            16 * w <= stride,
            stride * h <= data@.len() <= usize::MAX,
            4 * (w * h) <= r0.len() == r@.len() <= usize::MAX,
            4 * (w * h) <= g0.len() == g@.len(),
            4 * (w * h) <= b0.len() == b@.len(),
            4 * (w * h) <= a0.len() == a@.len(),
            src.len() == 16 * (w * h),
            forall|x: u32, y: u32| over.requires((x, y)),
            src == gather(data@, h as int, stride as int, 16 * w),
            j == 4 * (y * w),
            rc.len() == j && gc.len() == j && bc.len() == j,
            r@ == overlay(r0, rc),
            g@ == overlay(g0, gc),
            b@ == overlay(b0, bc),
            a@ == overlay(a0, channel_plane(src, y * w, 4, 3)),
            forall|p: int| 0 <= p < y * w ==> #[trigger] straight_plane(over, src, rc, 0, p, order),
            forall|p: int| 0 <= p < y * w ==> #[trigger] straight_plane(over, src, gc, 1, p, order),
            forall|p: int| 0 <= p < y * w ==> #[trigger] straight_plane(over, src, bc, 2, p, order),
    {
        for x in 0..w
            invariant
                y < h,
                16 * w <= stride,
                stride * h <= data@.len() <= usize::MAX,
                4 * (w * h) <= r0.len() == r@.len() <= usize::MAX,
                4 * (w * h) <= g0.len() == g@.len(),
                4 * (w * h) <= b0.len() == b@.len(),
                4 * (w * h) <= a0.len() == a@.len(),
                src.len() == 16 * (w * h),
                forall|x: u32, y: u32| over.requires((x, y)),
                src == gather(data@, h as int, stride as int, 16 * w),
                j == 4 * (y * w + x),
                rc.len() == j && gc.len() == j && bc.len() == j,
                r@ == overlay(r0, rc),
                g@ == overlay(g0, gc),
                b@ == overlay(b0, bc),
                a@ == overlay(a0, channel_plane(src, y * w + x, 4, 3)),
                forall|p: int|
                    0 <= p < y * w + x ==> #[trigger] straight_plane(over, src, rc, 0, p, order),
                forall|p: int|
                    0 <= p < y * w + x ==> #[trigger] straight_plane(over, src, gc, 1, p, order),
                forall|p: int|
                    0 <= p < y * w + x ==> #[trigger] straight_plane(over, src, bc, 2, p, order),
        {
            let ghost n = y * w + x;
            let ghost s = stride as int;
            proof {
                lemma_pixel_place(
                    x as int,
                    y as int,
                    w as int,
                    h as int,
                    s,
                    16,
                    data@.len() as int,
                );
                assert(y * (4 * w) + 4 * x == 4 * n) by (nonlinear_arith)
                    requires
                        n == y * w + x,
                ;
                lemma_gather_range(data@, h as int, y as int, 16 * x + 12, 4, s, 16 * w);
                lemma_channel_plane(src, n, 4, 3);
            }
            let i = y * stride + x * 16;
            let r_v = row_word(
                data,
                i,
                order,
                Ghost(h as int),
                Ghost(y as int),
                Ghost(4 * x),
                Ghost(s),
                Ghost(4 * w),
            );
            let g_v = row_word(
                data,
                i + 4,
                order,
                Ghost(h as int),
                Ghost(y as int),
                Ghost(4 * x + 1),
                Ghost(s),
                Ghost(4 * w),
            );
            let b_v = row_word(
                data,
                i + 8,
                order,
                Ghost(h as int),
                Ghost(y as int),
                Ghost(4 * x + 2),
                Ghost(s),
                Ghost(4 * w),
            );
            let a_v = row_word(
                data,
                i + 12,
                order,
                Ghost(h as int),
                Ghost(y as int),
                Ghost(4 * x + 3),
                Ghost(s),
                Ghost(4 * w),
            );
            let r_s = unpremultiply(&over, r_v, a_v);
            let g_s = unpremultiply(&over, g_v, a_v);
            let b_s = unpremultiply(&over, b_v, a_v);
            put_straight::<D>(
                r,
                j,
                r_s,
                order,
                Ghost(over),
                Ghost(src),
                Ghost(r0),
                Ghost(rc),
                Ghost(0),
                Ghost(n),
            );
            put_straight::<D>(
                g,
                j,
                g_s,
                order,
                Ghost(over),
                Ghost(src),
                Ghost(g0),
                Ghost(gc),
                Ghost(1),
                Ghost(n),
            );
            put_straight::<D>(
                b,
                j,
                b_s,
                order,
                Ghost(over),
                Ghost(src),
                Ghost(b0),
                Ghost(bc),
                Ghost(2),
                Ghost(n),
            );
            put(a, j, &data[i + 12..i + 16], Ghost(a0), Ghost(channel_plane(src, n, 4, 3)));
            proof {
                rc = rc + u32_bytes(r_s, order);
                gc = gc + u32_bytes(g_s, order);
                bc = bc + u32_bytes(b_s, order);
            }
            j += 4;
        }
        assert((y + 1) * w == y * w + w) by (nonlinear_arith);
    }
    proof {
        lemma_plane_holds(over, src, r0, rc, r@, 0, w * h, order);
        lemma_plane_holds(over, src, g0, gc, g@, 1, w * h, order);
        lemma_plane_holds(over, src, b0, bc, b@, 2, w * h, order);
    }
}

/// What holds of the samples written over the start of a plane holds of the
/// plane.
proof fn lemma_plane_holds<D: Fn(u32, u32) -> u32>(
    over: D,
    src: Seq<u8>,
    before: Seq<u8>,
    content: Seq<u8>,
    plane: Seq<u8>,
    c: int,
    n: int,
    order: ByteOrder,
)
    requires
        0 <= n,
        content.len() == 4 * n <= before.len(),
        plane == overlay(before, content),
        forall|p: int| 0 <= p < n ==> #[trigger] straight_plane(over, src, content, c, p, order),
    ensures
        only_start_changed(before, plane, 4 * n),
        forall|p: int| 0 <= p < n ==> #[trigger] straight_plane(over, src, plane, c, p, order),
{
    assert forall|p: int| 0 <= p < n implies #[trigger] straight_plane(
        over,
        src,
        plane,
        c,
        p,
        order,
    ) by {
        assert(straight_plane(over, src, content, c, p, order));
        assert(plane[4 * p] == content[4 * p] && plane[4 * p + 1] == content[4 * p + 1]);
        assert(plane[4 * p + 2] == content[4 * p + 2] && plane[4 * p + 3] == content[4 * p + 3]);
    }
}

} // verus!
