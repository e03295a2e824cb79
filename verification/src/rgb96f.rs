//! The 96-bit format: three binary32 samples per pixel, red, green, blue.

use vstd::prelude::*;
use crate::layout::{
    gather, lay, only_rows_changed, only_start_changed, overlay, put, scatter,
    lemma_gather_len, lemma_gather_range, lemma_gather_scatter, lemma_pixel_place,
    lemma_scatter_empty, lemma_scatter_only_rows,
};
use crate::order::{nth_word, ByteOrder};
use crate::sample::{channel_plane, lemma_channel_plane, lemma_channel_plane_at};
use crate::word::{lay_words3, row_word, words3, lemma_append_words3};

verus! {

/// Converts the packed 8-bit RGB image `data` of `w` by `h` pixels to binary32
/// samples in the strided buffer `out`. `unit` gives the binary32 of an 8-bit
/// sample: its fraction of 255.
pub fn pil_rgb_to_cairo_rgb96f<U: Fn(u8) -> u32>(
    data: &[u8],
    out: &mut [u8],
    w: usize,
    h: usize,
    stride: usize,
    order: ByteOrder,
    unit: U,
)
    requires
        12 * w <= stride,
        stride * h <= old(out)@.len(),
        3 * (w * h) <= data@.len(),
        forall|v: u8| unit.requires((v,)),
    ensures
        only_rows_changed(old(out)@, final(out)@, h as int, stride as int, 12 * w),
        forall|k: int|
            0 <= k < 3 * (w * h) ==> unit.ensures(
                (data@[k],),
                #[trigger] nth_word(
                    gather(final(out)@, h as int, stride as int, 12 * w),
                    k,
                    order,
                ),
            ),
{
    let ghost before = out@;
    let ghost mut content: Seq<u8> = Seq::empty();
    let mut i_in: usize = 0;
    proof {
        assert(before.len() == out.len());
        assert(0 * w == 0 && h * w == w * h && h * (12 * w) == 12 * (w * h)) by (nonlinear_arith);
        lemma_scatter_empty(before, stride as int, 12 * w);
    }
    for y in 0..h
        invariant
            12 * w <= stride,
            stride * h <= before.len() == out@.len() <= usize::MAX,
            3 * (w * h) <= data@.len(),
            forall|v: u8| unit.requires((v,)),
            i_in == 3 * (y * w),
            content.len() == 12 * (y * w),
            out@ == scatter(before, content, stride as int, 12 * w),
            forall|k: int|
                0 <= k < 3 * (y * w) ==> unit.ensures(
                    (data@[k],),
                    #[trigger] nth_word(content, k, order),
                ),
    {
        for x in 0..w
            invariant
                y < h,
                12 * w <= stride,
                stride * h <= before.len() == out@.len() <= usize::MAX,
                3 * (w * h) <= data@.len(),
                forall|v: u8| unit.requires((v,)),
                i_in == 3 * (y * w + x),
                content.len() == 12 * (y * w + x),
                out@ == scatter(before, content, stride as int, 12 * w),
                forall|k: int|
                    0 <= k < 3 * (y * w + x) ==> unit.ensures(
                        (data@[k],),
                        #[trigger] nth_word(content, k, order),
                    ),
        {
            let ghost n = y * w + x;
            let ghost s = stride as int;
            proof {
                lemma_pixel_place(
                    x as int,
                    y as int,
                    w as int,
                    h as int,
                    s,
                    12,
                    before.len() as int,
                );
            }
            let i_out = y * stride + x * 12;
            let r = unit(data[i_in]);
            let g = unit(data[i_in + 1]);
            let b = unit(data[i_in + 2]);
            lay_words3(
                out,
                i_out,
                (r, g, b),
                order,
                Ghost(before),
                Ghost(content),
                Ghost(y as int),
                Ghost(12 * x),
                Ghost(s),
                Ghost(12 * w),
            );
            proof {
                lemma_append_words3(content, 3 * n, r, g, b, order);
                content = content + words3(r, g, b, order);
            }
            i_in += 3;
        }
        assert((y + 1) * w == y * w + w) by (nonlinear_arith);
    }
    proof {
        lemma_gather_scatter(before, content, h as int, stride as int, 12 * w);
        lemma_scatter_only_rows(before, content, h as int, stride as int, 12 * w);
    }
}

/// The packed image of the first `n` pixels whose channels are the packed
/// planes `r`, `g` and `b`, byte for byte.
#[verifier::opaque]
pub open spec fn interleave3(r: Seq<u8>, g: Seq<u8>, b: Seq<u8>, n: int) -> Seq<u8> {
    Seq::new(
        (12 * n) as nat,
        |k: int|
            {
                let at = 4 * (k / 12) + k % 4;
                if k % 12 < 4 {
                    r[at]
                } else if k % 12 < 8 {
                    g[at]
                } else {
                    b[at]
                }
            },
    )
}

/// The image of no pixels is empty, and the image of `n + 1` pixels is that
/// of `n` pixels and the three samples of the next one.
pub proof fn lemma_interleave3(r: Seq<u8>, g: Seq<u8>, b: Seq<u8>, n: int)
    requires
        0 <= n,
        4 * (n + 1) <= r.len(),
        4 * (n + 1) <= g.len(),
        4 * (n + 1) <= b.len(),
    ensures
        interleave3(r, g, b, 0) == Seq::<u8>::empty(),
        interleave3(r, g, b, n).len() == 12 * n,
        interleave3(r, g, b, n + 1) == interleave3(r, g, b, n) + r.subrange(4 * n, 4 * n + 4)
            + g.subrange(4 * n, 4 * n + 4) + b.subrange(4 * n, 4 * n + 4),
{
    let next = interleave3(r, g, b, n + 1);
    let s0 = interleave3(r, g, b, n);
    let s1 = s0 + r.subrange(4 * n, 4 * n + 4);
    let s2 = s1 + g.subrange(4 * n, 4 * n + 4);
    let s3 = s2 + b.subrange(4 * n, 4 * n + 4);
    assert(s0.len() == 12 * n && next.len() == 12 * n + 12) by {
        reveal(interleave3);
    }
    assert(s1.len() == 12 * n + 4 && s2.len() == 12 * n + 8 && s3.len() == 12 * n + 12);
    assert forall|k: int| 0 <= k < 12 * n + 12 implies next[k] == s3[k] by {
        lemma_interleave3_at(r, g, b, n + 1, k / 12, k % 12);
        if k < 12 * n {
            lemma_interleave3_at(r, g, b, n, k / 12, k % 12);
            assert(s3[k] == s2[k] && s2[k] == s1[k] && s1[k] == s0[k]);
        } else {
            let j = k - 12 * n;
            assert(k / 12 == n && k % 12 == j);
            if j < 4 {
                assert(s3[k] == s2[k] && s2[k] == s1[k]);
                assert(s1[k] == r.subrange(4 * n, 4 * n + 4)[j]);
            } else if j < 8 {
                assert(s3[k] == s2[k]);
                assert(s2[k] == g.subrange(4 * n, 4 * n + 4)[j - 4]);
            } else {
                assert(s3[k] == b.subrange(4 * n, 4 * n + 4)[j - 8]);
            }
        }
    }
    assert(next =~= s3);
    assert(interleave3(r, g, b, 0) =~= Seq::<u8>::empty()) by {
        reveal(interleave3);
    }
}

/// Byte `j` of pixel `p` of a merged image: of its red sample where `j` is
/// below 4, of its green one where it is below 8, and of its blue one above.
pub proof fn lemma_interleave3_at(r: Seq<u8>, g: Seq<u8>, b: Seq<u8>, n: int, p: int, j: int)
    requires
        0 <= p < n,
        0 <= j < 12,
    ensures
        interleave3(r, g, b, n)[12 * p + j] == if j < 4 {
            r[4 * p + j]
        } else if j < 8 {
            g[4 * p + j - 4]
        } else {
            b[4 * p + j - 8]
        },
{
    reveal(interleave3);
    let k = 12 * p + j;
    assert(k / 12 == p && k % 12 == j);
    if j < 4 {
        assert(k % 4 == j);
    } else if j < 8 {
        assert(k % 4 == j - 4);
    } else {
        assert(k % 4 == j - 8);
    }
}

/// Planes that are merged and split again come back as they were.
pub proof fn lemma_split_merge3(r: Seq<u8>, g: Seq<u8>, b: Seq<u8>, n: int)
    requires
        0 <= n,
        4 * n <= r.len(),
        4 * n <= g.len(),
        4 * n <= b.len(),
    ensures
        channel_plane(interleave3(r, g, b, n), n, 3, 0) == r.take(4 * n),
        channel_plane(interleave3(r, g, b, n), n, 3, 1) == g.take(4 * n),
        channel_plane(interleave3(r, g, b, n), n, 3, 2) == b.take(4 * n),
{
    let merged = interleave3(r, g, b, n);
    let r2 = channel_plane(merged, n, 3, 0);
    let g2 = channel_plane(merged, n, 3, 1);
    let b2 = channel_plane(merged, n, 3, 2);
    assert(r2.len() == 4 * n && g2.len() == 4 * n && b2.len() == 4 * n) by {
        reveal(channel_plane);
    }
    assert forall|k: int| 0 <= k < 4 * n implies r2[k] == r[k] && g2[k] == g[k] && b2[k]
        == b[k] by {
        let p = k / 4;
        let j = k % 4;
        lemma_channel_plane_at(merged, n, 3, 0, p, j);
        lemma_channel_plane_at(merged, n, 3, 1, p, j);
        lemma_channel_plane_at(merged, n, 3, 2, p, j);
        lemma_interleave3_at(r, g, b, n, p, j);
        lemma_interleave3_at(r, g, b, n, p, j + 4);
        lemma_interleave3_at(r, g, b, n, p, j + 8);
    }
    assert(r2 =~= r.take(4 * n));
    assert(g2 =~= g.take(4 * n));
    assert(b2 =~= b.take(4 * n));
}

/// Planes that are merged into a strided image and split out of it again,
/// over `r_before`, `g_before` and `b_before`, come back as they were.
pub proof fn lemma_f_to_rgb96f_to_f(
    before: Seq<u8>,
    r: Seq<u8>,
    g: Seq<u8>,
    b: Seq<u8>,
    r_before: Seq<u8>,
    g_before: Seq<u8>,
    b_before: Seq<u8>,
    w: int,
    h: int,
    stride: int,
)
    requires
        0 <= h,
        0 <= 12 * w <= stride,
        stride * h <= before.len(),
        4 * (w * h) <= r.len(),
        4 * (w * h) <= g.len(),
        4 * (w * h) <= b.len(),
    ensures
        ({
            let laid = scatter(before, interleave3(r, g, b, w * h), stride, 12 * w);
            let src = gather(laid, h, stride, 12 * w);
            &&& overlay(r_before, channel_plane(src, w * h, 3, 0)) == overlay(
                r_before,
                r.take(4 * (w * h)),
            )
            &&& overlay(g_before, channel_plane(src, w * h, 3, 1)) == overlay(
                g_before,
                g.take(4 * (w * h)),
            )
            &&& overlay(b_before, channel_plane(src, w * h, 3, 2)) == overlay(
                b_before,
                b.take(4 * (w * h)),
            )
        }),
{
    let merged = interleave3(r, g, b, w * h);
    assert(h * (12 * w) == 12 * (w * h) && 0 <= w * h) by (nonlinear_arith)
        requires
            0 <= h,
            0 <= w,
    ;
    assert(merged.len() == 12 * (w * h)) by {
        reveal(interleave3);
    }
    lemma_gather_scatter(before, merged, h, stride, 12 * w);
    lemma_split_merge3(r, g, b, w * h);
}

/// Merges the three packed planes `r`, `g` and `b` of an image of `w` by `h`
/// pixels into the strided buffer `out`. The samples are moved as they are.
pub fn pil_f_to_cairo_rgb96f(
    r: &[u8],
    g: &[u8],
    b: &[u8],
    out: &mut [u8],
    w: usize,
    h: usize,
    stride: usize,
)
    requires
        12 * w <= stride,
        stride * h <= old(out)@.len(),
        4 * (w * h) <= r@.len(),
        4 * (w * h) <= g@.len(),
        4 * (w * h) <= b@.len(),
    ensures
        final(out)@ == scatter(
            old(out)@,
            interleave3(r@, g@, b@, w * h),
            stride as int,
            12 * w,
        ),
{
    let ghost before = out@;
    let mut i_in: usize = 0;
    proof {
        assert(before.len() == out.len());
        assert(r@.len() == r.len());
        assert(0 * w == 0 && h * w == w * h) by (nonlinear_arith);
        reveal(interleave3);
        assert(interleave3(r@, g@, b@, 0) =~= Seq::<u8>::empty());
        lemma_scatter_empty(before, stride as int, 12 * w);
    }
    for y in 0..h
        invariant
            12 * w <= stride,
            stride * h <= before.len() == out@.len() <= usize::MAX,
            4 * (w * h) <= r@.len() <= usize::MAX,
            4 * (w * h) <= g@.len(),
            4 * (w * h) <= b@.len(),
            i_in == 4 * (y * w),
            out@ == scatter(before, interleave3(r@, g@, b@, y * w), stride as int, 12 * w),
    {
        for x in 0..w
            invariant
                y < h,
                12 * w <= stride,
                stride * h <= before.len() == out@.len() <= usize::MAX,
                4 * (w * h) <= r@.len() <= usize::MAX,
                4 * (w * h) <= g@.len(),
                4 * (w * h) <= b@.len(),
                i_in == 4 * (y * w + x),
                out@ == scatter(
                    before,
                    interleave3(r@, g@, b@, y * w + x),
                    stride as int,
                    12 * w,
                ),
        {
            let ghost n = y * w + x;
            let ghost s = stride as int;
            let ghost done = interleave3(r@, g@, b@, n);
            proof {
                lemma_pixel_place(
                    x as int,
                    y as int,
                    w as int,
                    h as int,
                    s,
                    12,
                    before.len() as int,
                );
                lemma_interleave3(r@, g@, b@, n);
            }
            let i_out = y * stride + x * 12;
            let rs = &r[i_in..i_in + 4];
            let gs = &g[i_in..i_in + 4];
            let bs = &b[i_in..i_in + 4];
            lay(
                out,
                i_out,
                rs,
                Ghost(before),
                Ghost(done),
                Ghost(y as int),
                Ghost(12 * x),
                Ghost(s),
                Ghost(12 * w),
            );
            lay(
                out,
                i_out + 4,
                gs,
                Ghost(before),
                Ghost(done + rs@),
                Ghost(y as int),
                Ghost(12 * x + 4),
                Ghost(s),
                Ghost(12 * w),
            );
            lay(
                out,
                i_out + 8,
                bs,
                Ghost(before),
                Ghost(done + rs@ + gs@),
                Ghost(y as int),
                Ghost(12 * x + 8),
                Ghost(s),
                Ghost(12 * w),
            );
            i_in += 4;
        }
        assert((y + 1) * w == y * w + w) by (nonlinear_arith);
    }
}

/// Splits the strided image `data` of `w` by `h` pixels into the three packed
/// planes `r`, `g` and `b`. The samples are moved as they are.
pub fn cairo_rgb96f_to_pil_f(
    data: &[u8],
    r: &mut [u8],
    g: &mut [u8],
    b: &mut [u8],
    w: usize,
    h: usize,
    stride: usize,
)
    requires
        12 * w <= stride,
        stride * h <= data@.len(),
        4 * (w * h) <= old(r)@.len(),
        4 * (w * h) <= old(g)@.len(),
        4 * (w * h) <= old(b)@.len(),
    ensures
        final(r)@ == overlay(
            old(r)@,
            channel_plane(gather(data@, h as int, stride as int, 12 * w), w * h, 3, 0),
        ),
        final(g)@ == overlay(
            old(g)@,
            channel_plane(gather(data@, h as int, stride as int, 12 * w), w * h, 3, 1),
        ),
        final(b)@ == overlay(
            old(b)@,
            channel_plane(gather(data@, h as int, stride as int, 12 * w), w * h, 3, 2),
        ),
{
    let ghost r0 = r@;
    let ghost g0 = g@;
    let ghost b0 = b@;
    let ghost src = gather(data@, h as int, stride as int, 12 * w);
    let mut j: usize = 0;
    proof {
        assert(r0.len() == r.len());
        assert(data@.len() == data.len());
        assert(0 * w == 0 && h * w == w * h && h * (12 * w) == 12 * (w * h)) by (nonlinear_arith);
        lemma_gather_len(data@, h as int, stride as int, 12 * w);
        reveal(channel_plane);
        assert(channel_plane(src, 0, 3, 0) =~= Seq::<u8>::empty());
        assert(channel_plane(src, 0, 3, 1) =~= Seq::<u8>::empty());
        assert(channel_plane(src, 0, 3, 2) =~= Seq::<u8>::empty());
        assert(r@ =~= overlay(r0, Seq::empty()));
        assert(g@ =~= overlay(g0, Seq::empty()));
        assert(b@ =~= overlay(b0, Seq::empty()));
    }
    for y in 0..h
        invariant
            12 * w <= stride,
            stride * h <= data@.len() <= usize::MAX,
            4 * (w * h) <= r0.len() == r@.len() <= usize::MAX,
            4 * (w * h) <= g0.len() == g@.len(),
            4 * (w * h) <= b0.len() == b@.len(),
            src == gather(data@, h as int, stride as int, 12 * w),
            src.len() == 12 * (w * h),
            j == 4 * (y * w),
            r@ == overlay(r0, channel_plane(src, y * w, 3, 0)),
            g@ == overlay(g0, channel_plane(src, y * w, 3, 1)),
            b@ == overlay(b0, channel_plane(src, y * w, 3, 2)),
    {
        for x in 0..w
            invariant
                y < h,
                12 * w <= stride,
                stride * h <= data@.len() <= usize::MAX,
                4 * (w * h) <= r0.len() == r@.len() <= usize::MAX,
                4 * (w * h) <= g0.len() == g@.len(),
                4 * (w * h) <= b0.len() == b@.len(),
                src == gather(data@, h as int, stride as int, 12 * w),
                src.len() == 12 * (w * h),
                j == 4 * (y * w + x),
                r@ == overlay(r0, channel_plane(src, y * w + x, 3, 0)),
                g@ == overlay(g0, channel_plane(src, y * w + x, 3, 1)),
                b@ == overlay(b0, channel_plane(src, y * w + x, 3, 2)),
        {
            let ghost n = y * w + x;
            let ghost s = stride as int;
            proof {
                lemma_pixel_place(
                    x as int,
                    y as int,
                    w as int,
                    h as int,
                    s,
                    12,
                    data@.len() as int,
                );
                lemma_gather_range(data@, h as int, y as int, 12 * x, 4, s, 12 * w);
                lemma_gather_range(data@, h as int, y as int, 12 * x + 4, 4, s, 12 * w);
                lemma_gather_range(data@, h as int, y as int, 12 * x + 8, 4, s, 12 * w);
                lemma_channel_plane(src, n, 3, 0);
                lemma_channel_plane(src, n, 3, 1);
                lemma_channel_plane(src, n, 3, 2);
            }
            let i = y * stride + x * 12;
            put(r, j, &data[i..i + 4], Ghost(r0), Ghost(channel_plane(src, n, 3, 0)));
            put(g, j, &data[i + 4..i + 8], Ghost(g0), Ghost(channel_plane(src, n, 3, 1)));
            put(b, j, &data[i + 8..i + 12], Ghost(b0), Ghost(channel_plane(src, n, 3, 2)));
            j += 4;
        }
        assert((y + 1) * w == y * w + w) by (nonlinear_arith);
    }
}

/// Converts the strided image `data` of `w` by `h` pixels of binary32 samples
/// to the packed 8-bit RGB image `out`. `byte` gives the 8-bit sample of a
/// binary32: 255 times its value, cut to a whole number of eight bits.
pub fn cairo_rgb96f_to_pil_rgb<B: Fn(u32) -> u8>(
    data: &[u8],
    out: &mut [u8],
    w: usize,
    h: usize,
    stride: usize,
    order: ByteOrder,
    byte: B,
)
    requires
        12 * w <= stride,
        stride * h <= data@.len(),
        3 * (w * h) <= old(out)@.len(),
        forall|v: u32| byte.requires((v,)),
    ensures
        only_start_changed(old(out)@, final(out)@, 3 * (w * h)),
        forall|k: int|
            0 <= k < 3 * (w * h) ==> byte.ensures(
                (nth_word(gather(data@, h as int, stride as int, 12 * w), k, order),),
                #[trigger] final(out)@[k],
            ),
{
    let ghost before = out@;
    let ghost src = gather(data@, h as int, stride as int, 12 * w);
    let ghost mut content: Seq<u8> = Seq::empty();
    let mut i_out: usize = 0;
    proof {
        assert(before.len() == out.len());
        assert(data@.len() == data.len());
        assert(0 * w == 0 && h * w == w * h) by (nonlinear_arith);
        assert(out@ =~= overlay(before, content));
    }
    for y in 0..h
        invariant
            12 * w <= stride,
            stride * h <= data@.len() <= usize::MAX,
            3 * (w * h) <= before.len() == out@.len() <= usize::MAX,
            forall|v: u32| byte.requires((v,)),
            src == gather(data@, h as int, stride as int, 12 * w),
            i_out == 3 * (y * w) == content.len(),
            out@ == overlay(before, content),
            forall|k: int|
                0 <= k < 3 * (y * w) ==> byte.ensures(
                    (nth_word(src, k, order),),
                    #[trigger] content[k],
                ),
    {
        for x in 0..w
            invariant
                y < h,
                12 * w <= stride,
                stride * h <= data@.len() <= usize::MAX,
                3 * (w * h) <= before.len() == out@.len() <= usize::MAX,
                forall|v: u32| byte.requires((v,)),
                src == gather(data@, h as int, stride as int, 12 * w),
                i_out == 3 * (y * w + x) == content.len(),
                out@ == overlay(before, content),
                forall|k: int|
                    0 <= k < 3 * (y * w + x) ==> byte.ensures(
                        (nth_word(src, k, order),),
                        #[trigger] content[k],
                    ),
        {
            let ghost n = y * w + x;
            let ghost s = stride as int;
            proof {
                lemma_pixel_place(
                    x as int,
                    y as int,
                    w as int,
                    h as int,
                    s,
                    12,
                    data@.len() as int,
                );
                assert(y * (3 * w) + 3 * x == 3 * n) by (nonlinear_arith)
                    requires
                        n == y * w + x,
                ;
            }
            let i_in = y * stride + x * 12;
            let r = row_word(
                data,
                i_in,
                order,
                Ghost(h as int),
                Ghost(y as int),
                Ghost(3 * x),
                Ghost(s),
                Ghost(3 * w),
            );
            let g = row_word(
                data,
                i_in + 4,
                order,
                Ghost(h as int),
                Ghost(y as int),
                Ghost(3 * x + 1),
                Ghost(s),
                Ghost(3 * w),
            );
            let b = row_word(
                data,
                i_in + 8,
                order,
                Ghost(h as int),
                Ghost(y as int),
                Ghost(3 * x + 2),
                Ghost(s),
                Ghost(3 * w),
            );
            let px: [u8; 3] = [byte(r), byte(g), byte(b)];
            put(out, i_out, &px, Ghost(before), Ghost(content));
            i_out += 3;
            proof {
                content = content + px@;
            }
        }
        assert((y + 1) * w == y * w + w) by (nonlinear_arith);
    }
    proof {
        assert forall|k: int| 0 <= k < 3 * (w * h) implies byte.ensures(
            (nth_word(src, k, order),),
            #[trigger] out@[k],
        ) by {
            assert(out@[k] == content[k]);
        }
    }
}

} // verus!
