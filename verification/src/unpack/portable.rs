//! The portable wide tier: block routines that each handle a fixed number
//! of bytes per step, the tile generators that build their index patterns,
//! and whole-buffer fronts that sweep the block widths from widest to
//! narrowest. Every routine is proved against the same field schedule as
//! the scalar kernel in [`crate::unpack`], which is the tier-equivalence
//! property in executable form.

use vstd::prelude::*;
use crate::unpack::{nibble, quintet, read_word, unpack4_post, unpack5_post, word_at};

verus! {

/// A byte pattern of repeated tiles, each repetition shifted up by
/// `increase`.
pub fn tiled(tile: &[u8], increase: usize, n: usize) -> (r: Vec<u8>)
    requires
        tile@.len() > 0,
        forall|i: int|
            0 <= i < n ==> #[trigger] tile@[i % tile@.len() as int] + (i / tile@.len() as int)
                * increase < 256,
    ensures
        r@.len() == n,
        forall|i: int|
            0 <= i < n ==> r@[i] == tile@[i % tile@.len() as int] + (i / tile@.len() as int)
                * increase,
{
    tiled_with_offset(tile, 0, increase, n)
}

/// A byte pattern of repeated tiles that picks up where a previous tiling
/// of `prev` elements left off.
pub fn tiled_with_offset(tile: &[u8], prev: usize, increase: usize, n: usize) -> (r: Vec<u8>)
    requires
        tile@.len() > 0,
        prev + n <= usize::MAX,
        forall|i: int|
            prev <= i < prev + n ==> #[trigger] tile@[i % tile@.len() as int] + (i
                / tile@.len() as int) * increase < 256,
    ensures
        r@.len() == n,
        forall|i: int|
            0 <= i < n ==> r@[i] == tile@[(i + prev) % tile@.len() as int] + ((i + prev)
                / tile@.len() as int) * increase,
{
    let len = tile.len();
    let mut out: Vec<u8> = Vec::new();
    let mut i: usize = 0;
    while i < n
        invariant
            len == tile@.len(),
            len > 0,
            prev + n <= usize::MAX,
            i <= n,
            out@.len() == i,
            forall|j: int|
                prev <= j < prev + n ==> #[trigger] tile@[j % len as int] + (j / len as int)
                    * increase < 256,
            forall|j: int|
                0 <= j < i ==> out@[j] == tile@[(j + prev) % len as int] + ((j + prev)
                    / len as int) * increase,
        decreases n - i,
    {
        let p = i + prev;
        let q = p / len;
        let m = p % len;
        proof {
            assert(q * increase <= p * increase || increase == 0) by (nonlinear_arith)
                requires
                    q == p as int / len as int,
                    len > 0,
                    p >= 0,
                    increase >= 0,
            ;
            assert(tile@[m as int] + q * increase < 256);
        }
        let v = (tile[m] as usize) + q * increase;
        out.push(v as u8);
        i += 1;
    }
    out
}

/// Unpacks the 4-bit fields of whole `lanes`-byte blocks of `src` into
/// `dst`, starting at byte `offset`; returns the new offset, just past the
/// last whole block.
pub fn simd_unpack4(
    src: &[u8], big_endian: bool, dst: &mut Vec<u16>, offset: usize, lanes: usize,
) -> (r: usize)
    requires
        lanes > 0,
        lanes % 8 == 0,
        offset % 8 == 0,
        offset <= src@.len(),
        old(dst)@.len() == 2 * src@.len(),
        forall|k: int|
            0 <= k < 2 * offset ==> old(dst)@[k] == nibble(
                word_at(src@, big_endian, k / 16),
                k % 16,
            ),
    ensures
        final(dst)@.len() == old(dst)@.len(),
        offset <= r <= src@.len(),
        r % 8 == 0,
        r == offset + ((src@.len() - offset) / lanes as int) * lanes as int,
        forall|k: int|
            0 <= k < 2 * r ==> final(dst)@[k] == nibble(
                word_at(src@, big_endian, k / 16),
                k % 16,
            ),
        forall|k: int| 2 * r <= k < final(dst)@.len() ==> final(dst)@[k] == old(dst)@[k],
{
    let n = src.len();
    let dl = dst.len();
    let mut pos = offset;
    proof {
        assert((pos - offset) % (lanes as int) == 0) by (nonlinear_arith)
            requires
                pos == offset,
                lanes > 0,
        ;
    }
    while lanes <= n - pos
        invariant
            n == src@.len(),
            dl == dst@.len(),
            lanes > 0,
            lanes % 8 == 0,
            pos % 8 == 0,
            offset <= pos <= n,
            (pos - offset) % lanes as int == 0,
            dst@.len() == 2 * n,
            forall|k: int|
                0 <= k < 2 * pos ==> dst@[k] == nibble(
                    word_at(src@, big_endian, k / 16),
                    k % 16,
                ),
            forall|k: int| 2 * pos <= k < dst@.len() ==> dst@[k] == old(dst)@[k],
        decreases n - pos,
    {
        let block_end = pos + lanes;
        let mut w: usize = pos / 8;
        proof {
            assert(8 * w == pos && (block_end % 8) == 0 && block_end / 8 * 8 == block_end)
                by (nonlinear_arith)
                requires
                    w == pos as int / 8,
                    pos % 8 == 0,
                    lanes % 8 == 0,
                    block_end == pos + lanes,
            ;
        }
        while w < block_end / 8
            invariant
                n == src@.len(),
                block_end <= n,
                block_end % 8 == 0,
                pos / 8 <= w <= block_end / 8,
                8 * (block_end / 8) == block_end,
                pos == 8 * (pos / 8),
                dl == dst@.len(),
                dst@.len() == 2 * n,
                forall|k: int|
                    0 <= k < 16 * w ==> dst@[k] == nibble(
                        word_at(src@, big_endian, k / 16),
                        k % 16,
                    ),
                forall|k: int| 16 * w <= k < dst@.len() ==> dst@[k] == old(dst)@[k],
            decreases block_end / 8 - w,
        {
            proof {
                assert(8 * w + 8 <= block_end) by (nonlinear_arith)
                    requires
                        w < block_end as int / 8,
                        8 * (block_end as int / 8) == block_end,
                ;
            }
            let word = read_word(src, w, big_endian);
            let mut j: usize = 0;
            while j < 16
                invariant
                    n == src@.len(),
                    8 * w + 8 <= n,
                    j <= 16,
                    16 * w + 16 <= 2 * n,
                    word == word_at(src@, big_endian, w as int),
                    dl == dst@.len(),
                    dst@.len() == 2 * n,
                    forall|k: int|
                        0 <= k < 16 * w + j ==> dst@[k] == nibble(
                            word_at(src@, big_endian, k / 16),
                            k % 16,
                        ),
                    forall|k: int| 16 * w + j <= k < dst@.len() ==> dst@[k] == old(dst)@[k],
                decreases 16 - j,
            {
                let field = ((word >> (4 * j) as u64) & 0xf) as u16;
                proof {
                    assert(field == nibble(word, j as int)) by (bit_vector)
                        requires
                            field == ((word >> ((4 * j) as u64)) & 0xf) as u16,
                            j < 16,
                    ;
                    assert((16 * w + j) / 16 == w && (16 * w + j) % 16 == j)
                        by (nonlinear_arith)
                        requires
                            0 <= j < 16,
                            0 <= w,
                    ;
                }
                dst.set(16 * w + j, field);
                j += 1;
            }
            w += 1;
        }
        proof {
            assert(16 * (block_end / 8) == 2 * block_end && ((block_end - offset) % lanes as int)
                == 0) by (nonlinear_arith)
                requires
                    8 * (block_end as int / 8) == block_end,
                    (pos - offset) % lanes as int == 0,
                    block_end == pos + lanes,
            ;
        }
        pos = block_end;
    }
    proof {
        assert(pos == offset + ((n - offset) / lanes as int) * lanes as int) by (nonlinear_arith)
            requires
                (pos - offset) % lanes as int == 0,
                offset <= pos <= n,
                pos + lanes > n,
                lanes > 0,
        ;
    }
    pos
}

/// Unpacks the 5-bit fields of whole `lanes`-byte blocks of `src` into
/// `dst`, starting at byte `offset`; returns the new offset, just past the
/// last whole block.
pub fn simd_unpack5(
    src: &[u8], big_endian: bool, dst: &mut Vec<u16>, offset: usize, lanes: usize,
) -> (r: usize)
    requires
        lanes > 0,
        lanes % 8 == 0,
        offset % 8 == 0,
        offset <= src@.len(),
        src@.len() % 8 == 0,
        8 * old(dst)@.len() == 12 * src@.len(),
        forall|k: int|
            0 <= k < 12 * (offset / 8) ==> old(dst)@[k] == quintet(
                word_at(src@, big_endian, k / 12),
                k % 12,
            ),
    ensures
        final(dst)@.len() == old(dst)@.len(),
        offset <= r <= src@.len(),
        r % 8 == 0,
        r == offset + ((src@.len() - offset) / lanes as int) * lanes as int,
        forall|k: int|
            0 <= k < 12 * (r / 8) ==> final(dst)@[k] == quintet(
                word_at(src@, big_endian, k / 12),
                k % 12,
            ),
        forall|k: int| 12 * (r / 8) <= k < final(dst)@.len() ==> final(dst)@[k] == old(dst)@[k],
{
    let n = src.len();
    let dl = dst.len();
    let mut pos = offset;
    proof {
        assert((pos - offset) % (lanes as int) == 0) by (nonlinear_arith)
            requires
                pos == offset,
                lanes > 0,
        ;
    }
    while lanes <= n - pos
        invariant
            n == src@.len(),
            dl == dst@.len(),
            n % 8 == 0,
            lanes > 0,
            lanes % 8 == 0,
            pos % 8 == 0,
            offset <= pos <= n,
            (pos - offset) % lanes as int == 0,
            8 * dst@.len() == 12 * n,
            forall|k: int|
                0 <= k < 12 * (pos as int / 8) ==> dst@[k] == quintet(
                    word_at(src@, big_endian, k / 12),
                    k % 12,
                ),
            forall|k: int|
                12 * (pos as int / 8) <= k < dst@.len() ==> dst@[k] == old(dst)@[k],
        decreases n - pos,
    {
        let block_end = pos + lanes;
        let mut w: usize = pos / 8;
        proof {
            assert(8 * w == pos && block_end % 8 == 0 && 8 * (block_end / 8) == block_end
                && 12 * (block_end / 8) <= dst@.len()) by (nonlinear_arith)
                requires
                    w == pos as int / 8,
                    pos % 8 == 0,
                    lanes % 8 == 0,
                    block_end == pos + lanes,
                    block_end <= n,
                    8 * dst@.len() == 12 * n,
            ;
        }
        while w < block_end / 8
            invariant
                n == src@.len(),
                block_end <= n,
                block_end % 8 == 0,
                pos / 8 <= w <= block_end / 8,
                8 * (block_end / 8) == block_end,
                pos == 8 * (pos / 8),
                dl == dst@.len(),
                8 * dst@.len() == 12 * n,
                12 * (block_end as int / 8) <= dst@.len(),
                forall|k: int|
                    0 <= k < 12 * w ==> dst@[k] == quintet(
                        word_at(src@, big_endian, k / 12),
                        k % 12,
                    ),
                forall|k: int| 12 * w <= k < dst@.len() ==> dst@[k] == old(dst)@[k],
            decreases block_end / 8 - w,
        {
            proof {
                assert(8 * w + 8 <= block_end && 12 * w + 12 <= 12 * (block_end as int / 8))
                    by (nonlinear_arith)
                    requires
                        w < block_end as int / 8,
                        8 * (block_end as int / 8) == block_end,
                ;
            }
            let word = read_word(src, w, big_endian);
            let mut j: usize = 0;
            while j < 12
                invariant
                    n == src@.len(),
                    8 * w + 8 <= n,
                    j <= 12,
                    12 * w + 12 <= dst@.len(),
                    word == word_at(src@, big_endian, w as int),
                    dl == dst@.len(),
                    8 * dst@.len() == 12 * n,
                    forall|k: int|
                        0 <= k < 12 * w + j ==> dst@[k] == quintet(
                            word_at(src@, big_endian, k / 12),
                            k % 12,
                        ),
                    forall|k: int| 12 * w + j <= k < dst@.len() ==> dst@[k] == old(dst)@[k],
                decreases 12 - j,
            {
                let field = ((word >> (5 * j) as u64) & 0x1f) as u16;
                proof {
                    assert(field == quintet(word, j as int)) by (bit_vector)
                        requires
                            field == ((word >> ((5 * j) as u64)) & 0x1f) as u16,
                            j < 12,
                    ;
                    assert((12 * w + j) / 12 == w && (12 * w + j) % 12 == j)
                        by (nonlinear_arith)
                        requires
                            0 <= j < 12,
                            0 <= w,
                    ;
                }
                dst.set(12 * w + j, field);
                j += 1;
            }
            w += 1;
        }
        proof {
            assert(((block_end - offset) % lanes as int) == 0) by (nonlinear_arith)
                requires
                    (pos - offset) % lanes as int == 0,
                    block_end == pos + lanes,
            ;
        }
        pos = block_end;
    }
    proof {
        assert(pos == offset + ((n - offset) / lanes as int) * lanes as int) by (nonlinear_arith)
            requires
                (pos - offset) % lanes as int == 0,
                offset <= pos <= n,
                pos + lanes > n,
                lanes > 0,
        ;
    }
    pos
}

/// Unpacks 4-bit fields from a buffer of 64-bit words, sweeping the block
/// widths from widest to narrowest. Returns an empty vector if the input
/// length is not a multiple of 8 or is 0.
pub fn unpack4(src: &[u8], big_endian: bool) -> (dst: Vec<u16>)
    ensures
        unpack4_post(src@, big_endian, dst@),
        forall|k: int| 0 <= k < dst@.len() ==> dst@[k] < 16,
{
    if src.len() % 8 != 0 || src.is_empty() {
        return Vec::new();
    }
    let n = src.len();
    let mut dst: Vec<u16> = vec_double_zeroes(n);
    let mut offset: usize = 0;
    offset = simd_unpack4(src, big_endian, &mut dst, offset, 64);
    offset = simd_unpack4(src, big_endian, &mut dst, offset, 32);
    offset = simd_unpack4(src, big_endian, &mut dst, offset, 16);
    let last = simd_unpack4(src, big_endian, &mut dst, offset, 8);
    proof {
        assert(last == n) by (nonlinear_arith)
            requires
                last == offset + ((n - offset) / 8) * 8,
                offset % 8 == 0,
                offset <= n,
                n % 8 == 0,
        ;
        assert forall|k: int| 0 <= k < dst@.len() implies dst@[k] < 16 by {
            crate::unpack::lemma_nibble_range(word_at(src@, big_endian, k / 16), k % 16);
        };
    }
    dst
}

/// Unpacks 5-bit fields from a buffer of 64-bit words, sweeping the block
/// widths from widest to narrowest. Returns an empty vector if the input
/// length is not a multiple of 8 or is 0.
pub fn unpack5(src: &[u8], big_endian: bool) -> (dst: Vec<u16>)
    ensures
        unpack5_post(src@, big_endian, dst@),
        forall|k: int| 0 <= k < dst@.len() ==> dst@[k] < 32,
{
    if src.len() % 8 != 0 || src.is_empty() {
        return Vec::new();
    }
    let n = src.len();
    proof {
        assert(8 * (n as int / 8 * 12) == 12 * n && n / 8 * 12 <= 2 * n) by (nonlinear_arith)
            requires
                n % 8 == 0,
                n >= 0,
        ;
    }
    let mut dst: Vec<u16> = vec_word_zeroes(n);
    let mut offset: usize = 0;
    offset = simd_unpack5(src, big_endian, &mut dst, offset, 64);
    offset = simd_unpack5(src, big_endian, &mut dst, offset, 32);
    offset = simd_unpack5(src, big_endian, &mut dst, offset, 16);
    let last = simd_unpack5(src, big_endian, &mut dst, offset, 8);
    proof {
        assert(last == n && 12 * (n as int / 8) == n as int / 8 * 12) by (nonlinear_arith)
            requires
                last == offset + ((n - offset) / 8) * 8,
                offset % 8 == 0,
                offset <= n,
                n % 8 == 0,
        ;
        assert forall|k: int| 0 <= k < dst@.len() implies dst@[k] < 32 by {
            crate::unpack::lemma_quintet_range(word_at(src@, big_endian, k / 12), k % 12);
        };
    }
    dst
}

/// Swaps the byte order of the 32-bit words of a whole buffer.
pub fn simd_swap_endianness_32bit(bytes: &[u8]) -> (r: Vec<u8>)
    requires
        bytes@.len() % 4 == 0,
    ensures
        r@ == crate::unpack::swap_groups(bytes@, 4),
{
    let r = crate::unpack::swap_endianness_32bit(bytes);
    proof {
        if bytes@.len() == 0 {
            assert(r@ =~= crate::unpack::swap_groups(bytes@, 4));
        }
    }
    r
}

/// Swaps the byte order of the 64-bit words of a whole buffer.
pub fn simd_swap_endianness_64bit(bytes: &[u8]) -> (r: Vec<u8>)
    requires
        bytes@.len() % 8 == 0,
    ensures
        r@ == crate::unpack::swap_groups(bytes@, 8),
{
    let r = crate::unpack::swap_endianness_64bit(bytes);
    proof {
        if bytes@.len() == 0 {
            assert(r@ =~= crate::unpack::swap_groups(bytes@, 8));
        }
    }
    r
}

/// Swaps the byte order of the 32-bit words of a buffer. Returns an empty
/// vector if the input length is not a multiple of 4 or is 0.
pub fn swap_endianness_32bit(src: &[u8]) -> (dst: Vec<u8>)
    ensures
        src@.len() % 4 == 0 && src@.len() > 0 ==> dst@ == crate::unpack::swap_groups(src@, 4),
        !(src@.len() % 4 == 0 && src@.len() > 0) ==> dst@.len() == 0,
{
    crate::unpack::swap_endianness_32bit(src)
}

/// Swaps the byte order of the 64-bit words of a buffer. Returns an empty
/// vector if the input length is not a multiple of 8 or is 0.
pub fn swap_endianness_64bit(src: &[u8]) -> (dst: Vec<u8>)
    ensures
        src@.len() % 8 == 0 && src@.len() > 0 ==> dst@ == crate::unpack::swap_groups(src@, 8),
        !(src@.len() % 8 == 0 && src@.len() > 0) ==> dst@.len() == 0,
{
    crate::unpack::swap_endianness_64bit(src)
}

fn vec_double_zeroes(n: usize) -> (r: Vec<u16>)
    ensures
        r@.len() == 2 * n,
{
    let mut out: Vec<u16> = Vec::new();
    let mut i: usize = 0;
    while i < n
        invariant
            i <= n,
            out@.len() == 2 * i,
        decreases n - i,
    {
        out.push(0);
        out.push(0);
        i += 1;
    }
    out
}

fn vec_word_zeroes(n: usize) -> (r: Vec<u16>)
    ensures
        r@.len() == n as int / 8 * 12,
{
    let words = n / 8;
    let mut out: Vec<u16> = Vec::new();
    let mut i: usize = 0;
    while i < words
        invariant
            words == n as int / 8,
            i <= words,
            out@.len() == 12 * i,
        decreases words - i,
    {
        let mut j: usize = 0;
        while j < 12
            invariant
                j <= 12,
                out@.len() == 12 * i + j,
            decreases 12 - j,
        {
            out.push(0);
            j += 1;
        }
        i += 1;
    }
    proof {
        assert(12 * (n as int / 8) == n as int / 8 * 12) by (nonlinear_arith);
    }
    out
}

} // verus!
