//! Where the bytes of an image lie in a buffer.
//!
//! A *packed* image stores its rows one after the other. A *strided* image
//! starts a row every `stride` bytes and uses only the first `row_bytes` bytes
//! of each; what lies between the rows is padding that no conversion touches.

use vstd::prelude::*;
use vstd::arithmetic::div_mod::{lemma_fundamental_div_mod, lemma_fundamental_div_mod_converse};
use vstd::arithmetic::mul::lemma_mul_is_commutative;

verus! {

/// `s` with `bytes` written over it from offset `at` on.
pub open spec fn splice(s: Seq<u8>, at: int, bytes: Seq<u8>) -> Seq<u8> {
    Seq::new(
        s.len(),
        |i: int|
            if at <= i < at + bytes.len() {
                bytes[i - at]
            } else {
                s[i]
            },
    )
}

/// `before` with `content` written over its start.
pub open spec fn overlay(before: Seq<u8>, content: Seq<u8>) -> Seq<u8> {
    splice(before, 0, content)
}

/// Whether byte `i` of a strided buffer belongs to a row rather than to the
/// padding behind it.
pub open spec fn in_row(i: int, stride: int, row_bytes: int) -> bool {
    stride > 0 && 0 <= i && i % stride < row_bytes
}

/// The position in the packed image of byte `i` of the strided one.
pub open spec fn packed_index(i: int, stride: int, row_bytes: int) -> int {
    (i / stride) * row_bytes + i % stride
}

/// The position in the strided image of byte `k` of the packed one.
pub open spec fn strided_index(k: int, stride: int, row_bytes: int) -> int {
    (k / row_bytes) * stride + k % row_bytes
}

/// The strided buffer `before` after the packed image `content` has been laid
/// out in it: every byte of a row that `content` reaches holds the byte of
/// `content` at its packed position, and every other byte is as before.
#[verifier::opaque]
pub open spec fn scatter(before: Seq<u8>, content: Seq<u8>, stride: int, row_bytes: int) -> Seq<
    u8,
> {
    Seq::new(
        before.len(),
        |i: int|
            if in_row(i, stride, row_bytes) && packed_index(i, stride, row_bytes) < content.len() {
                content[packed_index(i, stride, row_bytes)]
            } else {
                before[i]
            },
    )
}

/// The packed image of the `h` rows held in the strided buffer `data`.
#[verifier::opaque]
pub open spec fn gather(data: Seq<u8>, h: int, stride: int, row_bytes: int) -> Seq<u8> {
    Seq::new((h * row_bytes) as nat, |k: int| data[strided_index(k, stride, row_bytes)])
}

/// Whether `after` differs from `before` at most within the first `h` rows:
/// what lies behind the rows, and between them, is as it was.
pub open spec fn only_rows_changed(
    before: Seq<u8>,
    after: Seq<u8>,
    h: int,
    stride: int,
    row_bytes: int,
) -> bool {
    &&& after.len() == before.len()
    &&& forall|i: int|
        0 <= i < before.len() && !(in_row(i, stride, row_bytes) && i / stride < h)
            ==> #[trigger] after[i] == before[i]
}

/// Whether `after` differs from `before` at most within the first `n` bytes.
pub open spec fn only_start_changed(before: Seq<u8>, after: Seq<u8>, n: int) -> bool {
    &&& after.len() == before.len()
    &&& forall|i: int| n <= i < before.len() ==> after[i] == before[i]
}

/// Whether a strided buffer of `len` bytes holds `h` rows of `w` pixels of
/// `bpp` bytes each.
pub open spec fn strided_fits_spec(
    len: usize,
    w: usize,
    h: usize,
    stride: usize,
    bpp: usize,
) -> bool {
    bpp * w <= stride && stride * h <= len
}

/// Whether a packed buffer of `len` bytes holds `w` by `h` pixels of `bpp`
/// bytes each.
pub open spec fn packed_fits_spec(len: usize, w: usize, h: usize, bpp: usize) -> bool {
    bpp * (w * h) <= len
}

/// Whether a strided buffer of `len` bytes holds `h` rows of `w` pixels of
/// `bpp` bytes each.
#[verifier::when_used_as_spec(strided_fits_spec)]
pub fn strided_fits(len: usize, w: usize, h: usize, stride: usize, bpp: usize) -> (ok: bool)
    ensures
        ok == strided_fits_spec(len, w, h, stride, bpp),
{
    let row_fits = match bpp.checked_mul(w) {
        Some(row_bytes) => row_bytes <= stride,
        None => false,
    };
    let rows_fit = match stride.checked_mul(h) {
        Some(bytes) => bytes <= len,
        None => false,
    };
    row_fits && rows_fit
}

/// Whether a packed buffer of `len` bytes holds `w` by `h` pixels of `bpp`
/// bytes each.
#[verifier::when_used_as_spec(packed_fits_spec)]
pub fn packed_fits(len: usize, w: usize, h: usize, bpp: usize) -> (ok: bool)
    ensures
        ok == packed_fits_spec(len, w, h, bpp),
{
    if bpp == 0 {
        assert(0 * (w * h) == 0) by (nonlinear_arith);
        return true;
    }
    match w.checked_mul(h) {
        Some(pixels) => match bpp.checked_mul(pixels) {
            Some(bytes) => bytes <= len,
            None => false,
        },
        None => {
            assert(bpp * (w * h) > len) by (nonlinear_arith)
                requires
                    bpp >= 1,
                    w * h > usize::MAX,
                    len <= usize::MAX,
            ;
            false
        },
    }
}

/// Writes `bytes` into `buf` from offset `at` on.
pub fn write_at(buf: &mut [u8], at: usize, bytes: &[u8])
    requires
        at + bytes@.len() <= old(buf)@.len(),
    ensures
        final(buf)@ == splice(old(buf)@, at as int, bytes@),
{
    let ghost before = buf@;
    let n = bytes.len();
    let mut j: usize = 0;
    assert(before.len() == buf.len());
    assert(buf@ =~= splice(before, at as int, bytes@.take(0)));
    while j < n
        invariant
            j <= n == bytes@.len(),
            at + n <= buf@.len() <= usize::MAX,
            buf@ == splice(before, at as int, bytes@.take(j as int)),
        decreases n - j,
    {
        buf[at + j] = bytes[j];
        j += 1;
        assert(buf@ =~= splice(before, at as int, bytes@.take(j as int)));
    }
    assert(bytes@.take(n as int) =~= bytes@);
}

/// Lays the next bytes of the packed image down at their place in the strided
/// buffer: from column `col` of row `y` on.
pub(crate) fn lay(
    out: &mut [u8],
    at: usize,
    bytes: &[u8],
    Ghost(before): Ghost<Seq<u8>>,
    Ghost(content): Ghost<Seq<u8>>,
    Ghost(y): Ghost<int>,
    Ghost(col): Ghost<int>,
    Ghost(stride): Ghost<int>,
    Ghost(row_bytes): Ghost<int>,
)
    requires
        old(out)@ == scatter(before, content, stride, row_bytes),
        0 <= y,
        0 <= col,
        col + bytes@.len() <= row_bytes <= stride,
        content.len() == y * row_bytes + col,
        at == y * stride + col,
        at + bytes@.len() <= old(out)@.len(),
    ensures
        final(out)@ == scatter(before, content + bytes@, stride, row_bytes),
        final(out)@.len() == old(out)@.len(),
{
    write_at(out, at, bytes);
    proof {
        lemma_scatter_append(before, content, bytes@, y, col, stride, row_bytes);
    }
}

/// Puts the next bytes behind those written over the start of a buffer.
pub(crate) fn put(
    out: &mut [u8],
    at: usize,
    bytes: &[u8],
    Ghost(before): Ghost<Seq<u8>>,
    Ghost(content): Ghost<Seq<u8>>,
)
    requires
        old(out)@ == overlay(before, content),
        at == content.len(),
        at + bytes@.len() <= old(out)@.len(),
    ensures
        final(out)@ == overlay(before, content + bytes@),
        final(out)@.len() == old(out)@.len(),
{
    write_at(out, at, bytes);
    proof {
        lemma_overlay_append(before, content, bytes@);
    }
}

/// Row `y` and column `k` of a number `y * d + k` with `0 <= k < d`.
pub proof fn lemma_row_col(y: int, k: int, d: int)
    requires
        0 <= k < d,
    ensures
        (y * d + k) / d == y,
        (y * d + k) % d == k,
{
    lemma_fundamental_div_mod_converse(y * d + k, d, y, k);
}

/// Rows below `h` end within `h` rows.
pub proof fn lemma_row_end(y: int, h: int, d: int)
    requires
        0 <= y < h,
        0 <= d,
    ensures
        0 <= y * d,
        y * d + d <= h * d,
{
    assert(0 <= y * d && y * d + d <= h * d) by (nonlinear_arith)
        requires
            0 <= y < h,
            0 <= d,
    ;
}

/// Where pixel `x` of row `y` lies: within the buffer, within its row, and at
/// place `y * w + x` among the pixels of the image.
pub proof fn lemma_pixel_place(x: int, y: int, w: int, h: int, stride: int, bpp: int, len: int)
    requires
        0 <= x < w,
        0 <= y < h,
        0 <= bpp,
        bpp * w <= stride,
        stride * h <= len,
    ensures
        0 <= y * stride,
        0 <= x * bpp,
        x * bpp + bpp <= bpp * w,
        y * stride + x * bpp + bpp <= len,
        0 <= y * w + x,
        y * w + x + 1 <= w * h,
        bpp * (y * w + x) == y * (bpp * w) + x * bpp,
        (y + 1) * w == y * w + w,
{
    lemma_row_end(y, h, stride);
    lemma_row_end(y, h, w);
    lemma_row_end(x, w, bpp);
    lemma_mul_is_commutative(stride, h);
    lemma_mul_is_commutative(w, h);
    lemma_mul_is_commutative(w, bpp);
    assert(bpp * (y * w + x) == y * (bpp * w) + x * bpp) by (nonlinear_arith);
    assert((y + 1) * w == y * w + w) by (nonlinear_arith);
}

/// Laying out changes no length.
pub proof fn lemma_scatter_len(before: Seq<u8>, content: Seq<u8>, stride: int, row_bytes: int)
    ensures
        scatter(before, content, stride, row_bytes).len() == before.len(),
{
    reveal(scatter);
}

/// Laying out nothing changes nothing.
pub proof fn lemma_scatter_empty(before: Seq<u8>, stride: int, row_bytes: int)
    ensures
        scatter(before, Seq::empty(), stride, row_bytes) == before,
{
    reveal(scatter);
    assert forall|i: int| 0 <= i < before.len() && in_row(i, stride, row_bytes) implies 0
        <= packed_index(i, stride, row_bytes) by {
        if 0 <= row_bytes {
            lemma_packed_strided(i, 0, stride, row_bytes);
        }
    }
    assert(scatter(before, Seq::empty(), stride, row_bytes) =~= before);
}

/// Laying out an image of `h` rows changes nothing but those rows.
pub proof fn lemma_scatter_only_rows(
    before: Seq<u8>,
    content: Seq<u8>,
    h: int,
    stride: int,
    row_bytes: int,
)
    requires
        0 <= h,
        content.len() == h * row_bytes,
    ensures
        only_rows_changed(
            before,
            scatter(before, content, stride, row_bytes),
            h,
            stride,
            row_bytes,
        ),
{
    reveal(scatter);
    let after = scatter(before, content, stride, row_bytes);
    assert forall|i: int|
        0 <= i < before.len() && !(in_row(i, stride, row_bytes) && i / stride < h)
        implies #[trigger] after[i] == before[i] by {
        if in_row(i, stride, row_bytes) {
            lemma_packed_strided(i, h, stride, row_bytes);
        }
    }
}

/// Writing the next bytes of the packed image at their place in the strided
/// buffer extends what has been laid out by those bytes.
pub proof fn lemma_scatter_append(
    before: Seq<u8>,
    content: Seq<u8>,
    bytes: Seq<u8>,
    y: int,
    col: int,
    stride: int,
    row_bytes: int,
)
    requires
        0 <= y,
        0 <= col,
        col + bytes.len() <= row_bytes <= stride,
        content.len() == y * row_bytes + col,
    ensures
        splice(scatter(before, content, stride, row_bytes), y * stride + col, bytes) == scatter(
            before,
            content + bytes,
            stride,
            row_bytes,
        ),
{
    reveal(scatter);
    let at = y * stride + col;
    let a = splice(scatter(before, content, stride, row_bytes), at, bytes);
    let b = scatter(before, content + bytes, stride, row_bytes);
    assert forall|i: int| 0 <= i < before.len() implies a[i] == b[i] by {
        if at <= i < at + bytes.len() {
            lemma_row_col(y, i - y * stride, stride);
        } else if in_row(i, stride, row_bytes) {
            let q = packed_index(i, stride, row_bytes);
            lemma_packed_strided(i, 0, stride, row_bytes);
            if content.len() <= q < content.len() + bytes.len() {
                lemma_row_col(i / stride, i % stride, row_bytes);
                lemma_row_col(y, q - y * row_bytes, row_bytes);
                assert(i / stride == y);
                assert(i == y * stride + i % stride) by {
                    lemma_fundamental_div_mod(i, stride);
                    lemma_mul_is_commutative(stride, i / stride);
                }
                assert(false);
            }
        }
    }
    assert(a =~= b);
}

/// A byte of a row that the packed image has not reached is as before.
pub proof fn lemma_scatter_beyond(
    before: Seq<u8>,
    content: Seq<u8>,
    y: int,
    col: int,
    stride: int,
    row_bytes: int,
)
    requires
        0 <= y,
        0 <= col < row_bytes <= stride,
        content.len() <= y * row_bytes + col,
        y * stride + col < before.len(),
    ensures
        scatter(before, content, stride, row_bytes)[y * stride + col] == before[y * stride + col],
{
    reveal(scatter);
    lemma_row_col(y, col, stride);
    assert(0 <= y * stride) by (nonlinear_arith)
        requires
            0 <= y,
            0 <= stride,
    ;
}

/// The packed image of `h` rows has `h * row_bytes` bytes.
pub proof fn lemma_gather_len(data: Seq<u8>, h: int, stride: int, row_bytes: int)
    requires
        0 <= h,
        0 <= row_bytes,
    ensures
        gather(data, h, stride, row_bytes).len() == h * row_bytes,
{
    reveal(gather);
    assert(0 <= h * row_bytes) by (nonlinear_arith)
        requires
            0 <= h,
            0 <= row_bytes,
    ;
}

/// Byte `col` of row `y` of a strided image is byte `y * row_bytes + col` of
/// its packed image.
pub proof fn lemma_gather_at(data: Seq<u8>, h: int, y: int, col: int, stride: int, row_bytes: int)
    requires
        0 <= y < h,
        0 <= col < row_bytes,
    ensures
        0 <= y * row_bytes + col < h * row_bytes,
        gather(data, h, stride, row_bytes)[y * row_bytes + col] == data[y * stride + col],
{
    reveal(gather);
    lemma_row_end(y, h, row_bytes);
    lemma_row_col(y, col, row_bytes);
}

/// The bytes from column `col` of row `y` of a strided image on are those of
/// its packed image from byte `y * row_bytes + col` on, as far as the row
/// goes.
pub proof fn lemma_gather_range(
    data: Seq<u8>,
    h: int,
    y: int,
    col: int,
    n: int,
    stride: int,
    row_bytes: int,
)
    requires
        0 <= y < h,
        0 <= col,
        0 <= n,
        col + n <= row_bytes <= stride,
        stride * h <= data.len(),
    ensures
        0 <= y * stride + col,
        y * stride + col + n <= data.len(),
        0 <= y * row_bytes + col,
        y * row_bytes + col + n <= h * row_bytes,
        data.subrange(y * stride + col, y * stride + col + n) == gather(
            data,
            h,
            stride,
            row_bytes,
        ).subrange(y * row_bytes + col, y * row_bytes + col + n),
{
    let src = gather(data, h, stride, row_bytes);
    let at = y * stride + col;
    let from = y * row_bytes + col;
    lemma_row_end(y, h, stride);
    lemma_row_end(y, h, row_bytes);
    lemma_mul_is_commutative(stride, h);
    lemma_gather_len(data, h, stride, row_bytes);
    let a = data.subrange(at, at + n);
    let b = src.subrange(from, from + n);
    assert forall|j: int| 0 <= j < n implies a[j] == b[j] by {
        lemma_gather_at(data, h, y, col + j, stride, row_bytes);
    }
    assert(a =~= b);
}

/// Writing the next bytes behind what has been written over the start of a
/// buffer extends it by those bytes.
pub proof fn lemma_overlay_append(before: Seq<u8>, content: Seq<u8>, bytes: Seq<u8>)
    ensures
        splice(overlay(before, content), content.len() as int, bytes) == overlay(
            before,
            content + bytes,
        ),
{
    assert(splice(overlay(before, content), content.len() as int, bytes) =~= overlay(
        before,
        content + bytes,
    ));
}

/// A byte of a row, and the byte of the packed image that its position leads
/// to: the same place, and within the first `h` rows of the one exactly when
/// it is within those of the other.
pub proof fn lemma_packed_strided(i: int, h: int, stride: int, row_bytes: int)
    requires
        in_row(i, stride, row_bytes),
        0 <= h,
    ensures
        0 <= i / stride,
        0 <= packed_index(i, stride, row_bytes),
        strided_index(packed_index(i, stride, row_bytes), stride, row_bytes) == i,
        packed_index(i, stride, row_bytes) < h * row_bytes <==> i / stride < h,
{
    let y = i / stride;
    let c = i % stride;
    lemma_fundamental_div_mod(i, stride);
    lemma_mul_is_commutative(stride, y);
    assert(0 <= y) by (nonlinear_arith)
        requires
            i == y * stride + c,
            0 <= c < stride,
            0 <= i,
    ;
    lemma_row_col(y, c, row_bytes);
    assert(0 <= y * row_bytes) by (nonlinear_arith)
        requires
            0 <= y,
            0 <= row_bytes,
    ;
    if y < h {
        lemma_row_end(y, h, row_bytes);
    } else {
        assert(h * row_bytes <= y * row_bytes) by (nonlinear_arith)
            requires
                0 <= h <= y,
                0 <= row_bytes,
        ;
    }
}

/// Byte `k` of a packed image of `h` rows has its place in the strided one,
/// within the rows, and that place leads back to `k`.
pub proof fn lemma_locate(k: int, h: int, stride: int, row_bytes: int)
    requires
        0 <= k < h * row_bytes,
        0 <= row_bytes <= stride,
    ensures
        0 <= strided_index(k, stride, row_bytes) < stride * h,
        in_row(strided_index(k, stride, row_bytes), stride, row_bytes),
        packed_index(strided_index(k, stride, row_bytes), stride, row_bytes) == k,
{
    let y = k / row_bytes;
    let c = k % row_bytes;
    assert(row_bytes > 0) by (nonlinear_arith)
        requires
            0 <= k < h * row_bytes,
            0 <= row_bytes,
    ;
    lemma_fundamental_div_mod(k, row_bytes);
    lemma_mul_is_commutative(row_bytes, y);
    assert(0 <= y < h) by (nonlinear_arith)
        requires
            0 <= k < h * row_bytes,
            row_bytes > 0,
            k == y * row_bytes + c,
            0 <= c < row_bytes,
    ;
    lemma_row_col(y, c, stride);
    lemma_row_end(y, h, stride);
    lemma_mul_is_commutative(stride, h);
}

/// What was laid out is what is found.
pub proof fn lemma_gather_scatter(
    before: Seq<u8>,
    content: Seq<u8>,
    h: int,
    stride: int,
    row_bytes: int,
)
    requires
        0 <= h,
        0 <= row_bytes <= stride,
        content.len() == h * row_bytes,
        stride * h <= before.len(),
    ensures
        gather(scatter(before, content, stride, row_bytes), h, stride, row_bytes) == content,
{
    reveal(scatter);
    reveal(gather);
    let laid = scatter(before, content, stride, row_bytes);
    let found = gather(laid, h, stride, row_bytes);
    assert forall|k: int| 0 <= k < content.len() implies found[k] == content[k] by {
        lemma_locate(k, h, stride, row_bytes);
    }
    assert(found =~= content);
}

} // verus!
