//! Samples of 32 bits in binary32 form.
//!
//! The library moves such samples as their bit patterns and leaves their
//! arithmetic to the caller, who hands each conversion the operations that it
//! applies. A conversion promises where it applies which operation to what,
//! and that its output holds what the operations returned.

use vstd::prelude::*;

verus! {

/// Whether the bit pattern is that of zero, of either sign.
pub open spec fn is_zero_spec(bits: u32) -> bool {
    bits == 0 || bits == 0x8000_0000
}

/// Whether the bit pattern is that of zero, of either sign: the patterns that
/// compare equal to zero.
#[verifier::when_used_as_spec(is_zero_spec)]
pub fn is_zero(bits: u32) -> (r: bool)
    ensures
        r == is_zero_spec(bits),
{
    assert((bits & 0x7fff_ffff == 0) <==> (bits == 0 || bits == 0x8000_0000)) by (bit_vector);
    bits & 0x7fff_ffff == 0
}

/// The plane that holds channel `c` of the first `n` pixels of the packed
/// image `src` of `channels` samples per pixel, byte for byte.
#[verifier::opaque]
pub open spec fn channel_plane(src: Seq<u8>, n: int, channels: int, c: int) -> Seq<u8> {
    Seq::new((4 * n) as nat, |k: int| src[4 * (channels * (k / 4) + c) + k % 4])
}

/// Byte `j` of sample `p` of a plane is byte `j` of channel `c` of pixel `p`
/// of the image.
pub proof fn lemma_channel_plane_at(src: Seq<u8>, n: int, channels: int, c: int, p: int, j: int)
    requires
        0 <= p < n,
        0 <= j < 4,
    ensures
        channel_plane(src, n, channels, c)[4 * p + j] == src[4 * (channels * p + c) + j],
{
    reveal(channel_plane);
    assert((4 * p + j) / 4 == p && (4 * p + j) % 4 == j);
}

/// The plane of no pixels is empty, and the plane of `n + 1` pixels is that
/// of `n` pixels and the sample of the next one.
pub proof fn lemma_channel_plane(src: Seq<u8>, n: int, channels: int, c: int)
    requires
        0 <= n,
        0 <= c < channels,
        4 * (channels * (n + 1)) <= src.len(),
    ensures
        channel_plane(src, 0, channels, c) == Seq::<u8>::empty(),
        channel_plane(src, n, channels, c).len() == 4 * n,
        channel_plane(src, n + 1, channels, c) == channel_plane(src, n, channels, c)
            + src.subrange(4 * (channels * n + c), 4 * (channels * n + c) + 4),
{
    let prev = channel_plane(src, n, channels, c);
    let next = channel_plane(src, n + 1, channels, c);
    let from = 4 * (channels * n + c);
    assert(channels * (n + 1) == channels * n + channels && 0 <= channels * n)
        by (nonlinear_arith)
        requires
            0 <= n,
            0 <= channels,
    ;
    let piece = src.subrange(from, from + 4);
    assert(prev.len() == 4 * n && next.len() == 4 * n + 4) by {
        reveal(channel_plane);
    }
    assert forall|k: int| 0 <= k < 4 * n + 4 implies next[k] == (prev + piece)[k] by {
        lemma_channel_plane_at(src, n + 1, channels, c, k / 4, k % 4);
        if k < 4 * n {
            lemma_channel_plane_at(src, n, channels, c, k / 4, k % 4);
        } else {
            assert(k / 4 == n && k % 4 == k - 4 * n);
            assert(piece[k - 4 * n] == src[from + (k - 4 * n)]);
        }
    }
    assert(next =~= prev + piece);
    assert(channel_plane(src, 0, channels, c) =~= Seq::<u8>::empty()) by {
        reveal(channel_plane);
    }
}

} // verus!
