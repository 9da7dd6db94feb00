//! The lane-dispatched unpacking tier: each call works through the input in
//! blocks of a fixed lane width, leaving a trailing partial block alone, and
//! produces bit-for-bit the output of the scalar kernel in [`crate::unpack`]
//! on the block-aligned prefix.

use vstd::prelude::*;
use vstd::arithmetic::div_mod::lemma_mul_mod_noop_left;
use vstd::slice::slice_subrange;
use crate::unpack::{nibble, quintet, unpack4, unpack4_post, unpack5, unpack5_post, word_at};

verus! {

/// A byte pattern made of repeated tiles, each repetition shifted up by the
/// tile's length; the lane-wide analogue of an index permutation.
pub fn tiled(tile: &[u8], n: usize) -> (r: Vec<u8>)
    requires
        tile@.len() > 0,
        forall|i: int|
            0 <= i < n ==> #[trigger] tile@[i % tile@.len() as int] + (i / tile@.len() as int)
                * tile@.len() < 256,
    ensures
        r@.len() == n,
        forall|i: int|
            0 <= i < n ==> r@[i] == tile@[i % tile@.len() as int] + (i / tile@.len() as int)
                * tile@.len(),
{
    let len = tile.len();
    let mut out: Vec<u8> = Vec::new();
    let mut i: usize = 0;
    while i < n
        invariant
            len == tile@.len(),
            len > 0,
            i <= n,
            out@.len() == i,
            forall|j: int|
                0 <= j < n ==> #[trigger] tile@[j % len as int] + (j / len as int) * len < 256,
            forall|j: int|
                0 <= j < i ==> out@[j] == tile@[j % len as int] + (j / len as int) * len,
        decreases n - i,
    {
        let q = i / len;
        let m = i % len;
        proof {
            assert(q * len <= i) by (nonlinear_arith)
                requires
                    q == i as int / len as int,
                    len > 0,
                    i >= 0,
            ;
        }
        let v = (tile[m] as usize) + q * len;
        out.push(v as u8);
        i += 1;
    }
    out
}

/// Unpacks 4-bit fields from the block-aligned prefix of a buffer of
/// little-endian words, `lanes` bytes per block.
pub fn unpack4_le(bytes: &[u8], lanes: usize) -> (r: Vec<u16>)
    requires
        lanes > 0,
        lanes % 8 == 0,
    ensures
        r@.len() == 2 * ((bytes@.len() as int / lanes as int) * lanes as int),
        forall|k: int|
            0 <= k < r@.len() ==> r@[k] == nibble(word_at(bytes@, false, k / 16), k % 16),
{
    unpack4_tier(bytes, false, lanes)
}

/// Unpacks 4-bit fields from the block-aligned prefix of a buffer of
/// big-endian words, `lanes` bytes per block.
pub fn unpack4_be(bytes: &[u8], lanes: usize) -> (r: Vec<u16>)
    requires
        lanes > 0,
        lanes % 8 == 0,
    ensures
        r@.len() == 2 * ((bytes@.len() as int / lanes as int) * lanes as int),
        forall|k: int|
            0 <= k < r@.len() ==> r@[k] == nibble(word_at(bytes@, true, k / 16), k % 16),
{
    unpack4_tier(bytes, true, lanes)
}

fn unpack4_tier(bytes: &[u8], big_endian: bool, lanes: usize) -> (r: Vec<u16>)
    requires
        lanes > 0,
        lanes % 8 == 0,
    ensures
        r@.len() == 2 * ((bytes@.len() as int / lanes as int) * lanes as int),
        forall|k: int|
            0 <= k < r@.len() ==> r@[k] == nibble(word_at(bytes@, big_endian, k / 16), k % 16),
{
    let n = bytes.len();
    let q = n / lanes;
    proof {
        assert(q * lanes <= n) by (nonlinear_arith)
            requires
                q == n as int / lanes as int,
                lanes > 0,
                n >= 0,
        ;
        let lq = lanes as int / 8;
        assert(lanes == 8 * lq) by (nonlinear_arith)
            requires
                lanes % 8 == 0,
                lq == lanes as int / 8,
        ;
        lemma_mul_mod_noop_left(lanes as int, q as int, 8);
        assert(lanes as int % 8 == 0);
        assert((0int * (q as int)) % 8 == 0) by (nonlinear_arith);
        assert((lanes as int * q as int) % 8 == 0);
        assert(q as int * lanes as int == lanes as int * q as int) by (nonlinear_arith);
    }
    let m = q * lanes;
    let prefix = slice_subrange(bytes, 0, m);
    let r = unpack4(prefix, big_endian);
    proof {
        if m > 0 {
            assert(r@.len() == 2 * m);
        } else {
            assert(r@.len() == 0);
        }
        assert forall|k: int| 0 <= k < r@.len() implies r@[k] == nibble(
            word_at(bytes@, big_endian, k / 16),
            k % 16,
        ) by {
            assert(0 <= k / 16 && 8 * (k / 16) + 8 <= m) by (nonlinear_arith)
                requires
                    0 <= k < 2 * m,
                    m % 8 == 0,
            ;
            assert(word_at(prefix@, big_endian, k / 16) == word_at(bytes@, big_endian, k / 16));
        };
    }
    r
}

/// Unpacks 5-bit fields from the 16-byte-aligned prefix of a buffer of
/// little-endian words; blocks hold two words each.
pub fn unpack5_le(bytes: &[u8]) -> (r: Vec<u16>)
    ensures
        r@.len() == bytes@.len() / 16 * 24,
        forall|k: int|
            0 <= k < r@.len() ==> r@[k] == quintet(word_at(bytes@, false, k / 12), k % 12),
{
    unpack5_tier(bytes, false)
}

/// Unpacks 5-bit fields from the 16-byte-aligned prefix of a buffer of
/// big-endian words; blocks hold two words each.
pub fn unpack5_be(bytes: &[u8]) -> (r: Vec<u16>)
    ensures
        r@.len() == bytes@.len() / 16 * 24,
        forall|k: int|
            0 <= k < r@.len() ==> r@[k] == quintet(word_at(bytes@, true, k / 12), k % 12),
{
    unpack5_tier(bytes, true)
}

fn unpack5_tier(bytes: &[u8], big_endian: bool) -> (r: Vec<u16>)
    ensures
        r@.len() == bytes@.len() / 16 * 24,
        forall|k: int|
            0 <= k < r@.len() ==> r@[k] == quintet(word_at(bytes@, big_endian, k / 12), k % 12),
{
    let n = bytes.len();
    let q = n / 16;
    proof {
        assert(q * 16 <= n) by (nonlinear_arith)
            requires
                q == n as int / 16,
                n >= 0,
        ;
        assert((q as int * 16) % 8 == 0 && (q as int * 16) / 8 * 12 == n as int / 16 * 24)
            by (nonlinear_arith)
            requires
                q == n as int / 16,
                q >= 0,
        ;
    }
    let m = q * 16;
    let prefix = slice_subrange(bytes, 0, m);
    let r = unpack5(prefix, big_endian);
    proof {
        if m > 0 {
            assert(r@.len() == m / 8 * 12);
        } else {
            assert(r@.len() == 0);
        }
        assert forall|k: int| 0 <= k < r@.len() implies r@[k] == quintet(
            word_at(bytes@, big_endian, k / 12),
            k % 12,
        ) by {
            assert(0 <= k / 12 && 8 * (k / 12) + 8 <= m) by (nonlinear_arith)
                requires
                    0 <= k < m / 8 * 12,
                    m % 8 == 0,
            ;
            assert(word_at(prefix@, big_endian, k / 12) == word_at(bytes@, big_endian, k / 12));
        };
    }
    r
}

/// The tier-equivalence law for the 4-bit unpackers: on any input whose
/// length the lane width divides, a lane-dispatched output and the scalar
/// kernel's output are identical, whatever the byte order.
pub proof fn lemma_unpack4_tier_equivalence(
    src: Seq<u8>, big_endian: bool, lanes: int, scalar: Seq<u16>, laned: Seq<u16>,
)
    requires
        lanes > 0,
        lanes % 8 == 0,
        src.len() as int % lanes == 0,
        unpack4_post(src, big_endian, scalar),
        laned.len() == 2 * ((src.len() as int / lanes) * lanes),
        forall|k: int|
            0 <= k < laned.len() ==> laned[k] == nibble(word_at(src, big_endian, k / 16), k % 16),
    ensures
        scalar == laned,
{
    let lq = lanes / 8;
    assert(lanes == 8 * lq) by (nonlinear_arith)
        requires
            lanes % 8 == 0,
            lq == lanes / 8,
    ;
    assert((src.len() as int / lanes) * lanes == src.len() as int) by (nonlinear_arith)
        requires
            lanes > 0,
            src.len() as int % lanes == 0,
    ;
    let qq = src.len() as int / lanes;
    lemma_mul_mod_noop_left(lanes, qq, 8);
    assert((0int * qq) % 8 == 0) by (nonlinear_arith);
    assert((lanes * qq) % 8 == 0);
    assert(qq * lanes == lanes * qq) by (nonlinear_arith);
    assert(src.len() as int % 8 == 0);
    assert(scalar =~= laned);
}

/// The tier-equivalence law for the 5-bit unpackers: on any input whose
/// length 16 divides, a lane-dispatched output and the scalar kernel's
/// output are identical, whatever the byte order.
pub proof fn lemma_unpack5_tier_equivalence(
    src: Seq<u8>, big_endian: bool, scalar: Seq<u16>, laned: Seq<u16>,
)
    requires
        src.len() % 16 == 0,
        unpack5_post(src, big_endian, scalar),
        laned.len() == src.len() / 16 * 24,
        forall|k: int|
            0 <= k < laned.len() ==> laned[k] == quintet(word_at(src, big_endian, k / 12), k % 12),
    ensures
        scalar == laned,
{
    assert(src.len() % 8 == 0 && src.len() / 8 * 12 == src.len() / 16 * 24) by (nonlinear_arith)
        requires
            src.len() % 16 == 0,
    ;
    assert(scalar =~= laned);
}

} // verus!
