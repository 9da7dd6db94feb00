//! Unpacking of 4- and 5-bit fields from buffers of 64-bit words, and
//! byte-order swaps of 32- and 64-bit words.
//!
//! Each 64-bit word holds contiguous fields starting at the least significant
//! bit of the word's little-endian value; words may be stored in either byte
//! order, selected by a `big_endian` flag.

use vstd::prelude::*;

pub mod portable;
pub mod wide;

verus! {

/// The 64-bit value assembled from eight bytes given in little-endian order.
pub open spec fn u64_le(
    b0: u8, b1: u8, b2: u8, b3: u8, b4: u8, b5: u8, b6: u8, b7: u8,
) -> u64 {
    (b0 as u64)
        | ((b1 as u64) << 8)
        | ((b2 as u64) << 16)
        | ((b3 as u64) << 24)
        | ((b4 as u64) << 32)
        | ((b5 as u64) << 40)
        | ((b6 as u64) << 48)
        | ((b7 as u64) << 56)
}

/// The `i`-th 64-bit word of a byte buffer, honouring the buffer's byte order.
pub open spec fn word_at(b: Seq<u8>, big_endian: bool, i: int) -> u64
    recommends
        0 <= i,
        8 * i + 8 <= b.len(),
{
    if big_endian {
        u64_le(
            b[8 * i + 7], b[8 * i + 6], b[8 * i + 5], b[8 * i + 4],
            b[8 * i + 3], b[8 * i + 2], b[8 * i + 1], b[8 * i],
        )
    } else {
        u64_le(
            b[8 * i], b[8 * i + 1], b[8 * i + 2], b[8 * i + 3],
            b[8 * i + 4], b[8 * i + 5], b[8 * i + 6], b[8 * i + 7],
        )
    }
}

/// The `j`-th 4-bit field of a word, counted from the least significant bit.
pub open spec fn nibble(w: u64, j: int) -> u16
    recommends
        0 <= j < 16,
{
    ((w >> ((4 * j) as u64)) & 0xf) as u16
}

/// The `j`-th 5-bit field of a word, counted from the least significant bit.
pub open spec fn quintet(w: u64, j: int) -> u16
    recommends
        0 <= j < 12,
{
    ((w >> ((5 * j) as u64)) & 0x1f) as u16
}

/// What a whole `unpack4` output looks like: field `k` comes from word
/// `k / 16` of the source, position `k % 16`.
pub open spec fn unpack4_post(src: Seq<u8>, big_endian: bool, dst: Seq<u16>) -> bool {
    &&& dst.len() == (if src.len() % 8 == 0 { 2 * src.len() } else { 0 })
    &&& forall|k: int|
        0 <= k < dst.len() ==> dst[k] == nibble(word_at(src, big_endian, k / 16), k % 16)
}

/// What a whole `unpack5` output looks like: field `k` comes from word
/// `k / 12` of the source, position `k % 12`.
pub open spec fn unpack5_post(src: Seq<u8>, big_endian: bool, dst: Seq<u16>) -> bool {
    &&& dst.len() == (if src.len() % 8 == 0 { src.len() / 8 * 12 } else { 0 })
    &&& forall|k: int|
        0 <= k < dst.len() ==> dst[k] == quintet(word_at(src, big_endian, k / 12), k % 12)
}

/// Every 4-bit field is below 16.
pub proof fn lemma_nibble_range(w: u64, j: int)
    ensures
        nibble(w, j) < 16,
{
    let y = w >> ((4 * j) as u64);
    assert(((y & 0xf) as u16) < 16) by (bit_vector);
}

/// Every 5-bit field is below 32.
pub proof fn lemma_quintet_range(w: u64, j: int)
    ensures
        quintet(w, j) < 32,
{
    let y = w >> ((5 * j) as u64);
    assert(((y & 0x1f) as u16) < 32) by (bit_vector);
}

/// A buffer with the byte order of each aligned `w`-byte group reversed.
pub open spec fn swap_groups(b: Seq<u8>, w: int) -> Seq<u8>
    recommends
        w > 0,
        b.len() % (w as nat) == 0,
{
    Seq::new(b.len(), |i: int| b[w * (i / w) + (w - 1 - i % w)])
}

proof fn lemma_group_index(i: int, k: int, w: int)
    by (nonlinear_arith)
    requires
        w > 0,
        0 <= i,
        w * i <= k < w * i + w,
    ensures
        k / w == i,
        k % w == k - w * i,
{
}

fn u64_from_le(b0: u8, b1: u8, b2: u8, b3: u8, b4: u8, b5: u8, b6: u8, b7: u8) -> (w: u64)
    ensures
        w == u64_le(b0, b1, b2, b3, b4, b5, b6, b7),
{
    (b0 as u64)
        | ((b1 as u64) << 8u64)
        | ((b2 as u64) << 16u64)
        | ((b3 as u64) << 24u64)
        | ((b4 as u64) << 32u64)
        | ((b5 as u64) << 40u64)
        | ((b6 as u64) << 48u64)
        | ((b7 as u64) << 56u64)
}

/// Reads the `i`-th 64-bit word of `src` in the byte order given by
/// `big_endian`.
pub fn read_word(src: &[u8], i: usize, big_endian: bool) -> (w: u64)
    requires
        8 * i + 8 <= src@.len(),
    ensures
        w == word_at(src@, big_endian, i as int),
{
    let n = src.len();
    let base = i * 8;
    if big_endian {
        u64_from_le(
            src[base + 7], src[base + 6], src[base + 5], src[base + 4],
            src[base + 3], src[base + 2], src[base + 1], src[base],
        )
    } else {
        u64_from_le(
            src[base], src[base + 1], src[base + 2], src[base + 3],
            src[base + 4], src[base + 5], src[base + 6], src[base + 7],
        )
    }
}

/// Unpacks 4-bit fields from a buffer of 64-bit words into 16-bit values.
/// Returns an empty vector if the input length is not a multiple of 8 or is 0.
pub fn unpack4(src: &[u8], big_endian: bool) -> (dst: Vec<u16>)
    ensures
        unpack4_post(src@, big_endian, dst@),
        src@.len() == 0 ==> dst@.len() == 0,
        forall|k: int| 0 <= k < dst@.len() ==> dst@[k] < 16,
{
    if src.len() % 8 != 0 || src.is_empty() {
        return Vec::new();
    }

    let words = src.len() / 8;
    let mut dst: Vec<u16> = Vec::new();
    let mut i: usize = 0;
    while i < words
        invariant
            words == src@.len() / 8,
            src@.len() % 8 == 0,
            i <= words,
            dst@.len() == 16 * i,
            forall|k: int|
                0 <= k < dst@.len() ==> dst@[k] == nibble(
                    word_at(src@, big_endian, k / 16),
                    k % 16,
                ) && dst@[k] < 16,
        decreases words - i,
    {
        assert(8 * i + 8 <= src@.len()) by (nonlinear_arith)
            requires
                i < words,
                words == src@.len() / 8,
                src@.len() % 8 == 0,
        ;
        let w = read_word(src, i, big_endian);
        let mut j: usize = 0;
        while j < 16
            invariant
                j <= 16,
                dst@.len() == 16 * i + j,
                w == word_at(src@, big_endian, i as int),
                forall|k: int|
                    0 <= k < dst@.len() ==> dst@[k] == nibble(
                        word_at(src@, big_endian, k / 16),
                        k % 16,
                    ) && dst@[k] < 16,
        decreases 16 - j,
        {
            let field = ((w >> (4 * j) as u64) & 0xf) as u16;
            assert(field == nibble(w, j as int) && field < 16) by (bit_vector)
                requires
                    field == ((w >> ((4 * j) as u64)) & 0xf) as u16,
                    j < 16,
            ;
            dst.push(field);
            proof {
                let k = dst@.len() - 1;
                assert(k == 16 * i + j);
                assert(k / 16 == i && k % 16 == j) by (nonlinear_arith)
                    requires
                        k == 16 * i + j,
                        0 <= j < 16,
                        0 <= i,
                ;
            }
            j += 1;
        }
        i += 1;
    }
    proof {
        assert(dst@.len() == 16 * (src@.len() / 8));
        assert(16 * (src@.len() / 8) == 2 * src@.len()) by (nonlinear_arith)
            requires
                src@.len() % 8 == 0,
        ;
    }
    dst
}

/// Unpacks 5-bit fields from a buffer of 64-bit words into 16-bit values;
/// each word carries twelve fields in its low 60 bits.
/// Returns an empty vector if the input length is not a multiple of 8 or is 0.
pub fn unpack5(src: &[u8], big_endian: bool) -> (dst: Vec<u16>)
    ensures
        unpack5_post(src@, big_endian, dst@),
        src@.len() == 0 ==> dst@.len() == 0,
        forall|k: int| 0 <= k < dst@.len() ==> dst@[k] < 32,
{
    if src.len() % 8 != 0 || src.is_empty() {
        return Vec::new();
    }

    let words = src.len() / 8;
    let mut dst: Vec<u16> = Vec::new();
    let mut i: usize = 0;
    while i < words
        invariant
            words == src@.len() / 8,
            src@.len() % 8 == 0,
            i <= words,
            dst@.len() == 12 * i,
            forall|k: int|
                0 <= k < dst@.len() ==> dst@[k] == quintet(
                    word_at(src@, big_endian, k / 12),
                    k % 12,
                ) && dst@[k] < 32,
        decreases words - i,
    {
        assert(8 * i + 8 <= src@.len()) by (nonlinear_arith)
            requires
                i < words,
                words == src@.len() / 8,
                src@.len() % 8 == 0,
        ;
        let w = read_word(src, i, big_endian);
        let mut j: usize = 0;
        while j < 12
            invariant
                j <= 12,
                dst@.len() == 12 * i + j,
                w == word_at(src@, big_endian, i as int),
                forall|k: int|
                    0 <= k < dst@.len() ==> dst@[k] == quintet(
                        word_at(src@, big_endian, k / 12),
                        k % 12,
                    ) && dst@[k] < 32,
            decreases 12 - j,
        {
            let field = ((w >> (5 * j) as u64) & 0x1f) as u16;
            assert(field == quintet(w, j as int) && field < 32) by (bit_vector)
                requires
                    field == ((w >> ((5 * j) as u64)) & 0x1f) as u16,
                    j < 12,
            ;
            dst.push(field);
            proof {
                let k = dst@.len() - 1;
                assert(k == 12 * i + j);
                assert(k / 12 == i && k % 12 == j) by (nonlinear_arith)
                    requires
                        k == 12 * i + j,
                        0 <= j < 12,
                        0 <= i,
                ;
            }
            j += 1;
        }
        i += 1;
    }
    proof {
        assert(dst@.len() == 12 * (src@.len() / 8));
        assert(12 * (src@.len() / 8) == src@.len() / 8 * 12) by (nonlinear_arith);
    }
    dst
}

/// Swaps the byte order of the 32-bit words of a buffer. Returns an empty
/// vector if the input length is not a multiple of 4 or is 0.
pub fn swap_endianness_32bit(src: &[u8]) -> (dst: Vec<u8>)
    ensures
        src@.len() % 4 == 0 && src@.len() > 0 ==> dst@ == swap_groups(src@, 4),
        !(src@.len() % 4 == 0 && src@.len() > 0) ==> dst@.len() == 0,
{
    if src.len() % 4 != 0 || src.is_empty() {
        return Vec::new();
    }

    let groups = src.len() / 4;
    let mut dst: Vec<u8> = Vec::new();
    let mut i: usize = 0;
    while i < groups
        invariant
            groups == src@.len() / 4,
            src@.len() % 4 == 0,
            i <= groups,
            dst@.len() == 4 * i,
            forall|k: int| 0 <= k < dst@.len() ==> dst@[k] == src@[4 * (k / 4) + (3 - k % 4)],
        decreases groups - i,
    {
        assert(4 * i + 4 <= src@.len()) by (nonlinear_arith)
            requires
                i < groups,
                groups == src@.len() / 4,
                src@.len() % 4 == 0,
        ;
        let n = src.len();
        let base = i * 4;
        dst.push(src[base + 3]);
        dst.push(src[base + 2]);
        dst.push(src[base + 1]);
        dst.push(src[base]);
        proof {
            lemma_group_index(i as int, 4 * (i as int), 4);
            lemma_group_index(i as int, 4 * (i as int) + 1, 4);
            lemma_group_index(i as int, 4 * (i as int) + 2, 4);
            lemma_group_index(i as int, 4 * (i as int) + 3, 4);
        }
        i += 1;
    }
    proof {
        assert(4 * (src@.len() / 4) == src@.len()) by (nonlinear_arith)
            requires
                src@.len() % 4 == 0,
        ;
        assert(dst@ =~= swap_groups(src@, 4));
    }
    dst
}

/// Swaps the byte order of the 64-bit words of a buffer. Returns an empty
/// vector if the input length is not a multiple of 8 or is 0.
pub fn swap_endianness_64bit(src: &[u8]) -> (dst: Vec<u8>)
    ensures
        src@.len() % 8 == 0 && src@.len() > 0 ==> dst@ == swap_groups(src@, 8),
        !(src@.len() % 8 == 0 && src@.len() > 0) ==> dst@.len() == 0,
{
    if src.len() % 8 != 0 || src.is_empty() {
        return Vec::new();
    }

    let groups = src.len() / 8;
    let mut dst: Vec<u8> = Vec::new();
    let mut i: usize = 0;
    while i < groups
        invariant
            groups == src@.len() / 8,
            src@.len() % 8 == 0,
            i <= groups,
            dst@.len() == 8 * i,
            forall|k: int| 0 <= k < dst@.len() ==> dst@[k] == src@[8 * (k / 8) + (7 - k % 8)],
        decreases groups - i,
    {
        assert(8 * i + 8 <= src@.len()) by (nonlinear_arith)
            requires
                i < groups,
                groups == src@.len() / 8,
                src@.len() % 8 == 0,
        ;
        let n = src.len();
        let base = i * 8;
        dst.push(src[base + 7]);
        dst.push(src[base + 6]);
        dst.push(src[base + 5]);
        dst.push(src[base + 4]);
        dst.push(src[base + 3]);
        dst.push(src[base + 2]);
        dst.push(src[base + 1]);
        dst.push(src[base]);
        proof {
            lemma_group_index(i as int, 8 * (i as int), 8);
            lemma_group_index(i as int, 8 * (i as int) + 1, 8);
            lemma_group_index(i as int, 8 * (i as int) + 2, 8);
            lemma_group_index(i as int, 8 * (i as int) + 3, 8);
            lemma_group_index(i as int, 8 * (i as int) + 4, 8);
            lemma_group_index(i as int, 8 * (i as int) + 5, 8);
            lemma_group_index(i as int, 8 * (i as int) + 6, 8);
            lemma_group_index(i as int, 8 * (i as int) + 7, 8);
        }
        i += 1;
    }
    proof {
        assert(8 * (src@.len() / 8) == src@.len()) by (nonlinear_arith)
            requires
                src@.len() % 8 == 0,
        ;
        assert(dst@ =~= swap_groups(src@, 8));
    }
    dst
}

/// Swapping the byte order of a buffer's words twice gives the buffer back;
/// with `w == 4` and `w == 8` this is the involution law for the 32- and
/// 64-bit endianness swaps.
pub proof fn lemma_swap_groups_involution(b: Seq<u8>, w: int)
    requires
        w > 0,
        b.len() as int % w == 0,
    ensures
        swap_groups(swap_groups(b, w), w) == b,
{
    let s = swap_groups(b, w);
    assert forall|i: int| 0 <= i < b.len() implies swap_groups(s, w)[i] == b[i] by {
        let j = w * (i / w) + (w - 1 - i % w);
        assert(0 <= j < b.len() && j / w == i / w && j % w == w - 1 - i % w) by (nonlinear_arith)
            requires
                w > 0,
                0 <= i < b.len(),
                b.len() as int % w == 0,
                j == w * (i / w) + (w - 1 - i % w),
        ;
        assert(w * (j / w) + (w - 1 - j % w) == i) by (nonlinear_arith)
            requires
                w > 0,
                0 <= i,
                j / w == i / w,
                j % w == w - 1 - i % w,
        ;
    };
    assert(swap_groups(swap_groups(b, w), w) =~= b);
}

/// The 4-bit unpacking contract pins its output down: any two outputs for
/// the same input are identical, which is the tier-equivalence property
/// for implementations that share this contract.
pub proof fn lemma_unpack4_post_unique(src: Seq<u8>, big_endian: bool, a: Seq<u16>, b: Seq<u16>)
    requires
        unpack4_post(src, big_endian, a),
        unpack4_post(src, big_endian, b),
    ensures
        a == b,
{
    assert(a =~= b);
}

/// The 5-bit unpacking contract pins its output down: any two outputs for
/// the same input are identical, which is the tier-equivalence property
/// for implementations that share this contract.
pub proof fn lemma_unpack5_post_unique(src: Seq<u8>, big_endian: bool, a: Seq<u16>, b: Seq<u16>)
    requires
        unpack5_post(src, big_endian, a),
        unpack5_post(src, big_endian, b),
    ensures
        a == b,
{
    assert(a =~= b);
}

/// The sixteen 4-bit fields of a word match the per-byte schedule: byte `m`
/// of the word's little-endian form carries fields `2m` (low nibble) and
/// `2m + 1` (high nibble).
pub proof fn lemma_nibble_byte_schedule(
    b0: u8, b1: u8, b2: u8, b3: u8, b4: u8, b5: u8, b6: u8, b7: u8,
)
    by (bit_vector)
    ensures
        nibble(u64_le(b0, b1, b2, b3, b4, b5, b6, b7), 0) == (b0 & 0xf) as u16,
        nibble(u64_le(b0, b1, b2, b3, b4, b5, b6, b7), 1) == ((b0 >> 4) & 0xf) as u16,
        nibble(u64_le(b0, b1, b2, b3, b4, b5, b6, b7), 2) == (b1 & 0xf) as u16,
        nibble(u64_le(b0, b1, b2, b3, b4, b5, b6, b7), 3) == ((b1 >> 4) & 0xf) as u16,
        nibble(u64_le(b0, b1, b2, b3, b4, b5, b6, b7), 4) == (b2 & 0xf) as u16,
        nibble(u64_le(b0, b1, b2, b3, b4, b5, b6, b7), 5) == ((b2 >> 4) & 0xf) as u16,
        nibble(u64_le(b0, b1, b2, b3, b4, b5, b6, b7), 6) == (b3 & 0xf) as u16,
        nibble(u64_le(b0, b1, b2, b3, b4, b5, b6, b7), 7) == ((b3 >> 4) & 0xf) as u16,
        nibble(u64_le(b0, b1, b2, b3, b4, b5, b6, b7), 8) == (b4 & 0xf) as u16,
        nibble(u64_le(b0, b1, b2, b3, b4, b5, b6, b7), 9) == ((b4 >> 4) & 0xf) as u16,
        nibble(u64_le(b0, b1, b2, b3, b4, b5, b6, b7), 10) == (b5 & 0xf) as u16,
        nibble(u64_le(b0, b1, b2, b3, b4, b5, b6, b7), 11) == ((b5 >> 4) & 0xf) as u16,
        nibble(u64_le(b0, b1, b2, b3, b4, b5, b6, b7), 12) == (b6 & 0xf) as u16,
        nibble(u64_le(b0, b1, b2, b3, b4, b5, b6, b7), 13) == ((b6 >> 4) & 0xf) as u16,
        nibble(u64_le(b0, b1, b2, b3, b4, b5, b6, b7), 14) == (b7 & 0xf) as u16,
        nibble(u64_le(b0, b1, b2, b3, b4, b5, b6, b7), 15) == ((b7 >> 4) & 0xf) as u16,
{
}

/// The twelve 5-bit fields of a word match the per-byte schedule of the
/// packed format, stated over the word's little-endian bytes.
pub proof fn lemma_quintet_byte_schedule(
    b0: u8, b1: u8, b2: u8, b3: u8, b4: u8, b5: u8, b6: u8, b7: u8,
)
    by (bit_vector)
    ensures
        quintet(u64_le(b0, b1, b2, b3, b4, b5, b6, b7), 0) == (b0 & 0x1f) as u16,
        quintet(u64_le(b0, b1, b2, b3, b4, b5, b6, b7), 1) == (((b1 << 3) | (b0 >> 5)) & 0x1f) as u16,
        quintet(u64_le(b0, b1, b2, b3, b4, b5, b6, b7), 2) == ((b1 >> 2) & 0x1f) as u16,
        quintet(u64_le(b0, b1, b2, b3, b4, b5, b6, b7), 3) == (((b2 << 1) | (b1 >> 7)) & 0x1f) as u16,
        quintet(u64_le(b0, b1, b2, b3, b4, b5, b6, b7), 4) == (((b3 << 4) | (b2 >> 4)) & 0x1f) as u16,
        quintet(u64_le(b0, b1, b2, b3, b4, b5, b6, b7), 5) == ((b3 >> 1) & 0x1f) as u16,
        quintet(u64_le(b0, b1, b2, b3, b4, b5, b6, b7), 6) == (((b4 << 2) | (b3 >> 6)) & 0x1f) as u16,
        quintet(u64_le(b0, b1, b2, b3, b4, b5, b6, b7), 7) == ((b4 >> 3) & 0x1f) as u16,
        quintet(u64_le(b0, b1, b2, b3, b4, b5, b6, b7), 8) == (b5 & 0x1f) as u16,
        quintet(u64_le(b0, b1, b2, b3, b4, b5, b6, b7), 9) == (((b6 << 3) | (b5 >> 5)) & 0x1f) as u16,
        quintet(u64_le(b0, b1, b2, b3, b4, b5, b6, b7), 10) == ((b6 >> 2) & 0x1f) as u16,
        quintet(u64_le(b0, b1, b2, b3, b4, b5, b6, b7), 11) == (((b7 << 1) | (b6 >> 7)) & 0x1f) as u16,
{
}

/// The bytes of one aligned 4-byte group after a 32-bit byte-order swap.
pub proof fn lemma_byte_group_swap_4(b: Seq<u8>, i: int)
    requires
        0 <= i,
        i < b.len() / 4,
    ensures
        4 * i + 4 <= b.len(),
        swap_groups(b, 4)[4 * i] == b[4 * i + 3],
        swap_groups(b, 4)[4 * i + 1] == b[4 * i + 2],
        swap_groups(b, 4)[4 * i + 2] == b[4 * i + 1],
        swap_groups(b, 4)[4 * i + 3] == b[4 * i],
{
    assert(4 * i + 4 <= b.len()) by (nonlinear_arith)
        requires
            0 <= i < b.len() / 4,
    ;
    lemma_group_index(i, 4 * i, 4);
    lemma_group_index(i, 4 * i + 1, 4);
    lemma_group_index(i, 4 * i + 2, 4);
    lemma_group_index(i, 4 * i + 3, 4);
}

/// The bytes of one aligned 8-byte group after a 64-bit byte-order swap.
pub proof fn lemma_byte_group_swap_8(b: Seq<u8>, i: int)
    requires
        0 <= i,
        i < b.len() / 8,
    ensures
        8 * i + 8 <= b.len(),
        swap_groups(b, 8)[8 * i] == b[8 * i + 7],
        swap_groups(b, 8)[8 * i + 1] == b[8 * i + 6],
        swap_groups(b, 8)[8 * i + 2] == b[8 * i + 5],
        swap_groups(b, 8)[8 * i + 3] == b[8 * i + 4],
        swap_groups(b, 8)[8 * i + 4] == b[8 * i + 3],
        swap_groups(b, 8)[8 * i + 5] == b[8 * i + 2],
        swap_groups(b, 8)[8 * i + 6] == b[8 * i + 1],
        swap_groups(b, 8)[8 * i + 7] == b[8 * i],
{
    assert(8 * i + 8 <= b.len()) by (nonlinear_arith)
        requires
            0 <= i < b.len() / 8,
    ;
    lemma_group_index(i, 8 * i, 8);
    lemma_group_index(i, 8 * i + 1, 8);
    lemma_group_index(i, 8 * i + 2, 8);
    lemma_group_index(i, 8 * i + 3, 8);
    lemma_group_index(i, 8 * i + 4, 8);
    lemma_group_index(i, 8 * i + 5, 8);
    lemma_group_index(i, 8 * i + 6, 8);
    lemma_group_index(i, 8 * i + 7, 8);
}

} // verus!
