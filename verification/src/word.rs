//! 32-bit values at their places in strided and packed images.

use vstd::prelude::*;
use crate::layout::{
    gather, overlay, scatter, lemma_gather_at, lemma_overlay_append, lemma_row_end,
    lemma_scatter_append, lemma_scatter_beyond,
};
use crate::order::{
    load_u32, nth_word, store_u32, u32_bytes, word_at, ByteOrder, lemma_append_word,
};

verus! {

/// The 32-bit value at word `k` of row `y` of a strided image is that of its
/// packed image at its place.
pub proof fn lemma_row_word(
    data: Seq<u8>,
    h: int,
    y: int,
    k: int,
    stride: int,
    row_words: int,
    order: ByteOrder,
)
    requires
        0 <= y < h,
        0 <= k < row_words,
    ensures
        0 <= y * row_words + k < h * row_words,
        word_at(data, y * stride + 4 * k, order) == nth_word(
            gather(data, h, stride, 4 * row_words),
            y * row_words + k,
            order,
        ),
{
    let src = gather(data, h, stride, 4 * row_words);
    let at = y * stride + 4 * k;
    let from = 4 * (y * row_words + k);
    lemma_row_end(y, h, row_words);
    assert(y * (4 * row_words) == 4 * (y * row_words)) by (nonlinear_arith);
    lemma_gather_at(data, h, y, 4 * k, stride, 4 * row_words);
    lemma_gather_at(data, h, y, 4 * k + 1, stride, 4 * row_words);
    lemma_gather_at(data, h, y, 4 * k + 2, stride, 4 * row_words);
    lemma_gather_at(data, h, y, 4 * k + 3, stride, 4 * row_words);
    assert(data[at] == src[from]);
    assert(data[at + 1] == src[from + 1]);
    assert(data[at + 2] == src[from + 2]);
    assert(data[at + 3] == src[from + 3]);
}

/// The 32-bit value at word `k` of row `y` of a strided buffer that a packed
/// image is being laid out in, and has not reached there, is as before.
pub proof fn lemma_unreached_word(
    before: Seq<u8>,
    content: Seq<u8>,
    y: int,
    k: int,
    stride: int,
    row_words: int,
    order: ByteOrder,
)
    requires
        0 <= y,
        0 <= k < row_words,
        4 * row_words <= stride,
        content.len() <= y * (4 * row_words) + 4 * k,
        y * stride + 4 * k + 4 <= before.len(),
    ensures
        word_at(scatter(before, content, stride, 4 * row_words), y * stride + 4 * k, order)
            == word_at(before, y * stride + 4 * k, order),
{
    let now = scatter(before, content, stride, 4 * row_words);
    let at = y * stride + 4 * k;
    lemma_scatter_beyond(before, content, y, 4 * k, stride, 4 * row_words);
    lemma_scatter_beyond(before, content, y, 4 * k + 1, stride, 4 * row_words);
    lemma_scatter_beyond(before, content, y, 4 * k + 2, stride, 4 * row_words);
    lemma_scatter_beyond(before, content, y, 4 * k + 3, stride, 4 * row_words);
    assert(now[at] == before[at]);
    assert(now[at + 1] == before[at + 1]);
    assert(now[at + 2] == before[at + 2]);
    assert(now[at + 3] == before[at + 3]);
}

/// Reads word `k` of row `y` of a strided image.
pub(crate) fn row_word(
    data: &[u8],
    at: usize,
    order: ByteOrder,
    Ghost(h): Ghost<int>,
    Ghost(y): Ghost<int>,
    Ghost(k): Ghost<int>,
    Ghost(stride): Ghost<int>,
    Ghost(row_words): Ghost<int>,
) -> (v: u32)
    requires
        0 <= y < h,
        0 <= k < row_words,
        at == y * stride + 4 * k,
        at + 4 <= data@.len(),
    ensures
        v == nth_word(gather(data@, h, stride, 4 * row_words), y * row_words + k, order),
{
    proof {
        lemma_row_word(data@, h, y, k, stride, row_words, order);
    }
    load_u32(data, at, order)
}

/// Lays the next 32-bit value of the packed image down at its place in the
/// strided buffer.
pub(crate) fn lay_word(
    out: &mut [u8],
    at: usize,
    v: u32,
    order: ByteOrder,
    Ghost(before): Ghost<Seq<u8>>,
    Ghost(content): Ghost<Seq<u8>>,
    Ghost(y): Ghost<int>,
    Ghost(col): Ghost<int>,
    Ghost(stride): Ghost<int>,
    Ghost(row_bytes): Ghost<int>,
)
    requires
        old(out)@ == scatter(before, content, stride, row_bytes),
        0 <= y,
        0 <= col,
        col + 4 <= row_bytes <= stride,
        content.len() == y * row_bytes + col,
        at == y * stride + col,
        at + 4 <= old(out)@.len(),
    ensures
        final(out)@ == scatter(before, content + u32_bytes(v, order), stride, row_bytes),
        final(out)@.len() == old(out)@.len(),
{
    store_u32(out, at, v, order);
    proof {
        lemma_scatter_append(before, content, u32_bytes(v, order), y, col, stride, row_bytes);
    }
}

/// Puts the next 32-bit value behind those that a packed plane holds.
pub(crate) fn put_word(
    out: &mut [u8],
    at: usize,
    v: u32,
    order: ByteOrder,
    Ghost(before): Ghost<Seq<u8>>,
    Ghost(content): Ghost<Seq<u8>>,
)
    requires
        old(out)@ == overlay(before, content),
        at == content.len(),
        at + 4 <= old(out)@.len(),
    ensures
        final(out)@ == overlay(before, content + u32_bytes(v, order)),
        final(out)@.len() == old(out)@.len(),
{
    store_u32(out, at, v, order);
    proof {
        lemma_overlay_append(before, content, u32_bytes(v, order));
    }
}

/// The bytes of the 32-bit values `a`, `b` and `c`, one after the other.
pub open spec fn words3(a: u32, b: u32, c: u32, order: ByteOrder) -> Seq<u8> {
    u32_bytes(a, order) + u32_bytes(b, order) + u32_bytes(c, order)
}

/// The bytes of the 32-bit values `a`, `b`, `c` and `d`, one after the other.
pub open spec fn words4(a: u32, b: u32, c: u32, d: u32, order: ByteOrder) -> Seq<u8> {
    u32_bytes(a, order) + u32_bytes(b, order) + u32_bytes(c, order) + u32_bytes(d, order)
}

/// A sequence of 32-bit values with three more put behind it: the values that
/// were there stay, and the new ones follow them.
pub proof fn lemma_append_words3(s: Seq<u8>, m: int, a: u32, b: u32, c: u32, order: ByteOrder)
    requires
        s.len() == 4 * m,
    ensures
        (s + words3(a, b, c, order)).len() == 4 * (m + 3),
        nth_word(s + words3(a, b, c, order), m, order) == a,
        nth_word(s + words3(a, b, c, order), m + 1, order) == b,
        nth_word(s + words3(a, b, c, order), m + 2, order) == c,
        forall|k: int|
            0 <= k < m ==> #[trigger] nth_word(s + words3(a, b, c, order), k, order) == nth_word(
                s,
                k,
                order,
            ),
{
    let s1 = s + u32_bytes(a, order);
    let s2 = s1 + u32_bytes(b, order);
    let s3 = s2 + u32_bytes(c, order);
    lemma_append_word(s, m, a, order);
    lemma_append_word(s1, m + 1, b, order);
    lemma_append_word(s2, m + 2, c, order);
    assert(s3 =~= s + words3(a, b, c, order));
    assert(nth_word(s3, m, order) == nth_word(s2, m, order));
    assert(nth_word(s2, m, order) == nth_word(s1, m, order));
    assert(nth_word(s3, m + 1, order) == nth_word(s2, m + 1, order));
    assert forall|k: int| 0 <= k < m implies #[trigger] nth_word(s3, k, order) == nth_word(
        s,
        k,
        order,
    ) by {
        assert(nth_word(s3, k, order) == nth_word(s2, k, order));
        assert(nth_word(s2, k, order) == nth_word(s1, k, order));
        assert(nth_word(s1, k, order) == nth_word(s, k, order));
    }
}

/// A sequence of 32-bit values with four more put behind it: the values that
/// were there stay, and the new ones follow them.
pub proof fn lemma_append_words4(
    s: Seq<u8>,
    m: int,
    a: u32,
    b: u32,
    c: u32,
    d: u32,
    order: ByteOrder,
)
    requires
        s.len() == 4 * m,
    ensures
        (s + words4(a, b, c, d, order)).len() == 4 * (m + 4),
        nth_word(s + words4(a, b, c, d, order), m, order) == a,
        nth_word(s + words4(a, b, c, d, order), m + 1, order) == b,
        nth_word(s + words4(a, b, c, d, order), m + 2, order) == c,
        nth_word(s + words4(a, b, c, d, order), m + 3, order) == d,
        forall|k: int|
            0 <= k < m ==> #[trigger] nth_word(s + words4(a, b, c, d, order), k, order)
                == nth_word(s, k, order),
{
    let s3 = s + words3(a, b, c, order);
    let s4 = s3 + u32_bytes(d, order);
    lemma_append_words3(s, m, a, b, c, order);
    lemma_append_word(s3, m + 3, d, order);
    assert(s4 =~= s + words4(a, b, c, d, order));
    assert(nth_word(s4, m, order) == nth_word(s3, m, order));
    assert(nth_word(s4, m + 1, order) == nth_word(s3, m + 1, order));
    assert(nth_word(s4, m + 2, order) == nth_word(s3, m + 2, order));
    assert forall|k: int| 0 <= k < m implies #[trigger] nth_word(s4, k, order) == nth_word(
        s,
        k,
        order,
    ) by {
        assert(nth_word(s4, k, order) == nth_word(s3, k, order));
        assert(nth_word(s3, k, order) == nth_word(s, k, order));
    }
}

/// Lays the next three 32-bit values of the packed image down at their place
/// in the strided buffer.
pub(crate) fn lay_words3(
    out: &mut [u8],
    at: usize,
    v: (u32, u32, u32),
    order: ByteOrder,
    Ghost(before): Ghost<Seq<u8>>,
    Ghost(content): Ghost<Seq<u8>>,
    Ghost(y): Ghost<int>,
    Ghost(col): Ghost<int>,
    Ghost(stride): Ghost<int>,
    Ghost(row_bytes): Ghost<int>,
)
    requires
        old(out)@ == scatter(before, content, stride, row_bytes),
        0 <= y,
        0 <= col,
        col + 12 <= row_bytes <= stride,
        content.len() == y * row_bytes + col,
        at == y * stride + col,
        at + 12 <= old(out)@.len(),
    ensures
        final(out)@ == scatter(before, content + words3(v.0, v.1, v.2, order), stride, row_bytes),
        final(out)@.len() == old(out)@.len(),
{
    assert(out@.len() == out.len());
    let ghost c1 = content + u32_bytes(v.0, order);
    let ghost c2 = c1 + u32_bytes(v.1, order);
    let ghost c3 = c2 + u32_bytes(v.2, order);
    lay_word(
        out,
        at,
        v.0,
        order,
        Ghost(before),
        Ghost(content),
        Ghost(y),
        Ghost(col),
        Ghost(stride),
        Ghost(row_bytes),
    );
    lay_word(
        out,
        at + 4,
        v.1,
        order,
        Ghost(before),
        Ghost(c1),
        Ghost(y),
        Ghost(col + 4),
        Ghost(stride),
        Ghost(row_bytes),
    );
    lay_word(
        out,
        at + 8,
        v.2,
        order,
        Ghost(before),
        Ghost(c2),
        Ghost(y),
        Ghost(col + 8),
        Ghost(stride),
        Ghost(row_bytes),
    );
    assert(c3 =~= content + words3(v.0, v.1, v.2, order));
}

/// Lays the next four 32-bit values of the packed image down at their place
/// in the strided buffer.
pub(crate) fn lay_words4(
    out: &mut [u8],
    at: usize,
    v: (u32, u32, u32, u32),
    order: ByteOrder,
    Ghost(before): Ghost<Seq<u8>>,
    Ghost(content): Ghost<Seq<u8>>,
    Ghost(y): Ghost<int>,
    Ghost(col): Ghost<int>,
    Ghost(stride): Ghost<int>,
    Ghost(row_bytes): Ghost<int>,
)
    requires
        old(out)@ == scatter(before, content, stride, row_bytes),
        0 <= y,
        0 <= col,
        col + 16 <= row_bytes <= stride,
        content.len() == y * row_bytes + col,
        at == y * stride + col,
        at + 16 <= old(out)@.len(),
    ensures
        final(out)@ == scatter(
            before,
            content + words4(v.0, v.1, v.2, v.3, order),
            stride,
            row_bytes,
        ),
        final(out)@.len() == old(out)@.len(),
{
    assert(out@.len() == out.len());
    let ghost c3 = content + words3(v.0, v.1, v.2, order);
    let ghost c4 = c3 + u32_bytes(v.3, order);
    lay_words3(
        out,
        at,
        (v.0, v.1, v.2),
        order,
        Ghost(before),
        Ghost(content),
        Ghost(y),
        Ghost(col),
        Ghost(stride),
        Ghost(row_bytes),
    );
    lay_word(
        out,
        at + 12,
        v.3,
        order,
        Ghost(before),
        Ghost(c3),
        Ghost(y),
        Ghost(col + 12),
        Ghost(stride),
        Ghost(row_bytes),
    );
    assert(c4 =~= content + words4(v.0, v.1, v.2, v.3, order));
}

} // verus!
