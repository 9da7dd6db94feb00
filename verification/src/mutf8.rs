//! Modified UTF-8, the string encoding of the tagged binary format: U+0000
//! is written as the two bytes `C0 80`, scalars below U+10000 keep their
//! UTF-8 shape, and supplementary scalars are written as a surrogate pair,
//! each half in three bytes.
//!
//! Decoding here is strict: it accepts exactly the canonical encoding, so
//! that decode followed by encode gives the original bytes back.

use vstd::prelude::*;
use vstd::utf8::*;

verus! {

/// The high (leading) surrogate of a supplementary scalar.
pub open spec fn high_surrogate(c: u32) -> u32
    recommends
        0x10000 <= c <= 0x10ffff,
{
    (0xd800 + (((c - 0x10000) as u32) >> 10)) as u32
}

/// The low (trailing) surrogate of a supplementary scalar.
pub open spec fn low_surrogate(c: u32) -> u32
    recommends
        0x10000 <= c <= 0x10ffff,
{
    (0xdc00 + (((c - 0x10000) as u32) & 0x3ff)) as u32
}

/// A three-byte sequence in the shape of a 3-byte UTF-8 encoding; unlike
/// UTF-8 proper, modified UTF-8 also uses this shape for surrogates.
pub open spec fn three_byte(c: u32) -> Seq<u8>
    recommends
        0x800 <= c < 0x10000,
{
    seq![
        leading_byte_width_3(c),
        second_last_continuation_byte(c),
        last_continuation_byte(c),
    ]
}

/// The modified-UTF-8 bytes of one Unicode scalar.
pub open spec fn mutf8_scalar(c: u32) -> Seq<u8>
    recommends
        is_scalar(c),
{
    if c == 0 {
        seq![0xc0u8, 0x80u8]
    } else if c < 0x10000 {
        encode_scalar(c)
    } else {
        three_byte(high_surrogate(c)) + three_byte(low_surrogate(c))
    }
}

/// The modified-UTF-8 encoding of a character sequence.
pub open spec fn mutf8(s: Seq<char>) -> Seq<u8>
    decreases s.len(),
{
    if s.len() == 0 {
        seq![]
    } else {
        mutf8_scalar(s[0] as u32) + mutf8(s.drop_first())
    }
}

/// One step of strict modified-UTF-8 decoding: the first scalar of `b` and
/// the number of bytes it occupies, or `None` when `b` does not begin with
/// the canonical encoding of a scalar.
pub open spec fn mutf8_step(b: Seq<u8>) -> Option<(u32, int)> {
    if b.len() == 0 {
        None
    } else {
        let b0 = b[0];
        if b0 == 0x00 {
            // U+0000 is only ever written as C0 80
            None
        } else if b0 < 0x80 {
            Some(((b0 as u32), 1))
        } else if b0 < 0xc0 {
            // stray continuation byte
            None
        } else if b0 == 0xc0 {
            if b.len() >= 2 && b[1] == 0x80 {
                Some((0, 2))
            } else {
                None
            }
        } else if b0 < 0xc2 {
            // overlong two-byte encoding
            None
        } else if b0 < 0xe0 {
            if b.len() >= 2 && is_continuation_byte(b[1]) {
                Some((codepoint_width_2(b0, b[1]), 2))
            } else {
                None
            }
        } else if b0 < 0xf0 {
            if b.len() >= 3 && is_continuation_byte(b[1]) && is_continuation_byte(b[2]) {
                let c = codepoint_width_3(b0, b[1], b[2]);
                if c < 0x800 {
                    // overlong three-byte encoding
                    None
                } else if 0xd800 <= c <= 0xdbff {
                    // a high surrogate must be followed by a low surrogate
                    if b.len() >= 6 && b[3] == 0xed && is_continuation_byte(b[4])
                        && is_continuation_byte(b[5]) {
                        let c2 = codepoint_width_3(b[3], b[4], b[5]);
                        if 0xdc00 <= c2 <= 0xdfff {
                            Some(
                                (
                                    ((0x10000 + (c - 0xd800) * 0x400 + (c2 - 0xdc00)) as u32),
                                    6,
                                ),
                            )
                        } else {
                            None
                        }
                    } else {
                        None
                    }
                } else if 0xdc00 <= c <= 0xdfff {
                    // lone low surrogate
                    None
                } else {
                    Some((c, 3))
                }
            } else {
                None
            }
        } else {
            // modified UTF-8 has no four-byte encodings
            None
        }
    }
}

/// Strict decoding of modified UTF-8 into the UTF-8 bytes of the same text.
pub open spec fn mutf8_to_utf8(b: Seq<u8>) -> Option<Seq<u8>>
    decreases b.len(),
{
    if b.len() == 0 {
        Some(seq![])
    } else {
        match mutf8_step(b) {
            Option::None => None,
            Option::Some((c, n)) => {
                if 1 <= n <= b.len() {
                    match mutf8_to_utf8(b.skip(n)) {
                        Option::None => None,
                        Option::Some(u) => Some(encode_scalar(c) + u),
                    }
                } else {
                    None
                }
            },
        }
    }
}

/// The modified-UTF-8 bytes of the text that the given UTF-8 bytes spell.
pub open spec fn mutf8_of_utf8(u: Seq<u8>) -> Seq<u8>
    recommends
        valid_utf8(u),
    decreases u.len(),
    when valid_utf8(u)
{
    if u.len() == 0 {
        seq![]
    } else {
        mutf8_scalar(decode_first_scalar(u)) + mutf8_of_utf8(pop_first_scalar(u))
    }
}

proof fn bv_ascii(b0: u8)
    by (bit_vector)
    requires
        b0 < 0x80,
    ensures
        codepoint_width_1(b0) == b0 as u32,
        leading_byte_width_1(b0 as u32) == b0,
{
}

proof fn bv_w2(c: u32)
    by (bit_vector)
    requires
        0x80 <= c < 0x800,
    ensures
        0xc2 <= leading_byte_width_2(c) < 0xe0,
        is_continuation_byte(last_continuation_byte(c)),
        codepoint_width_2(leading_byte_width_2(c), last_continuation_byte(c)) == c,
{
}

proof fn bv_w2_rev(b0: u8, b1: u8)
    by (bit_vector)
    requires
        0xc0 <= b0 < 0xe0,
        is_continuation_byte(b1),
    ensures
        codepoint_width_2(b0, b1) < 0x800,
        0xc2 <= b0 ==> 0x80 <= codepoint_width_2(b0, b1),
        0x80 <= codepoint_width_2(b0, b1) ==> {
            let c = codepoint_width_2(b0, b1);
            &&& 0xc2 <= b0
            &&& leading_byte_width_2(c) == b0
            &&& last_continuation_byte(c) == b1
        },
{
}

proof fn bv_w3(c: u32)
    by (bit_vector)
    requires
        0x800 <= c < 0x10000,
    ensures
        0xe0 <= leading_byte_width_3(c) < 0xf0,
        is_continuation_byte(second_last_continuation_byte(c)),
        is_continuation_byte(last_continuation_byte(c)),
        codepoint_width_3(
            leading_byte_width_3(c),
            second_last_continuation_byte(c),
            last_continuation_byte(c),
        ) == c,
        0xd800 <= c <= 0xdfff ==> leading_byte_width_3(c) == 0xed,
        0xd800 <= c <= 0xdbff ==> 0xa0 <= second_last_continuation_byte(c) <= 0xaf,
        0xdc00 <= c <= 0xdfff ==> 0xb0 <= second_last_continuation_byte(c) <= 0xbf,
{
}

proof fn bv_w3_rev(b0: u8, b1: u8, b2: u8)
    by (bit_vector)
    requires
        0xe0 <= b0 < 0xf0,
        is_continuation_byte(b1),
        is_continuation_byte(b2),
    ensures
        codepoint_width_3(b0, b1, b2) < 0x10000,
        codepoint_width_3(b0, b1, b2) >= 0x800 ==> {
            let c = codepoint_width_3(b0, b1, b2);
            &&& leading_byte_width_3(c) == b0
            &&& second_last_continuation_byte(c) == b1
            &&& last_continuation_byte(c) == b2
        },
{
}

proof fn bv_pair(c: u32)
    by (bit_vector)
    requires
        0x10000 <= c <= 0x10ffff,
    ensures
        0xd800 <= high_surrogate(c) <= 0xdbff,
        0xdc00 <= low_surrogate(c) <= 0xdfff,
        (0x10000 + (high_surrogate(c) - 0xd800) * 0x400 + (low_surrogate(c) - 0xdc00)) as u32
            == c,
        0x10000 + (high_surrogate(c) - 0xd800) * 0x400 + (low_surrogate(c) - 0xdc00) == c,
{
}

proof fn bv_pair_rev(h: u32, l: u32)
    by (bit_vector)
    requires
        0xd800 <= h <= 0xdbff,
        0xdc00 <= l <= 0xdfff,
    ensures
        0x10000 <= 0x10000 + (h - 0xd800) * 0x400 + (l - 0xdc00) <= 0x10ffff,
        high_surrogate((0x10000 + (h - 0xd800) * 0x400 + (l - 0xdc00)) as u32) == h,
        low_surrogate((0x10000 + (h - 0xd800) * 0x400 + (l - 0xdc00)) as u32) == l,
{
}

/// Prepending the UTF-8 encoding of one scalar to a valid UTF-8 tail gives
/// valid UTF-8 whose first scalar is that scalar.
proof fn lemma_scalar_prefix(c: u32, tail: Seq<u8>)
    requires
        is_scalar(c),
        valid_utf8(tail),
    ensures
        valid_utf8(encode_scalar(c) + tail),
        decode_first_scalar(encode_scalar(c) + tail) == c,
        length_of_first_scalar(encode_scalar(c) + tail) == encode_scalar(c).len(),
        pop_first_scalar(encode_scalar(c) + tail) == tail,
        decode_utf8(encode_scalar(c) + tail) == seq![c as char] + decode_utf8(tail),
{
    let ch = c as char;
    let chars = seq![ch] + decode_utf8(tail);
    decode_utf8_encode_utf8(tail);
    assert(chars.drop_first() =~= decode_utf8(tail));
    assert(chars[0] == ch);
    assert((ch as u32) == c);
    assert(encode_utf8(chars) =~= encode_scalar(c) + tail);
    encode_utf8_first_scalar(chars);
    encode_utf8_valid_utf8(chars);
    encode_utf8_decode_utf8(chars);
    assert(pop_first_scalar(encode_scalar(c) + tail) =~= tail);
}

/// Decoding one step off the canonical encoding of a scalar gives that
/// scalar back, whatever follows it.
proof fn lemma_step_of_scalar(c: u32, rest: Seq<u8>)
    requires
        is_scalar(c),
    ensures
        mutf8_step(mutf8_scalar(c) + rest) == Some((c, mutf8_scalar(c).len() as int)),
{
    let b = mutf8_scalar(c) + rest;
    if c == 0 {
        assert(b[0] == 0xc0 && b[1] == 0x80 && b.len() >= 2);
    } else if c < 0x80 {
        bv_ascii(c as u8);
        assert(leading_byte_width_1(c) == c as u8) by (bit_vector)
            requires
                c < 0x80,
        ;
        assert(b[0] == c as u8);
        assert((c as u8) as u32 == c);
    } else if c < 0x800 {
        bv_w2(c);
        assert(b[0] == leading_byte_width_2(c) && b[1] == last_continuation_byte(c));
        assert(b.len() >= 2);
    } else if c < 0x10000 {
        bv_w3(c);
        assert(!(0xd800 <= c <= 0xdfff));
        assert(b[0] == leading_byte_width_3(c) && b[1] == second_last_continuation_byte(c)
            && b[2] == last_continuation_byte(c));
        assert(b.len() >= 3);
    } else {
        bv_pair(c);
        let h = high_surrogate(c);
        let l = low_surrogate(c);
        bv_w3(h);
        bv_w3(l);
        assert(b[0] == leading_byte_width_3(h) && b[1] == second_last_continuation_byte(h)
            && b[2] == last_continuation_byte(h));
        assert(b[3] == leading_byte_width_3(l) && b[4] == second_last_continuation_byte(l)
            && b[5] == last_continuation_byte(l));
        assert(b.len() >= 6);
        assert(codepoint_width_3(b[0], b[1], b[2]) == h);
        assert(codepoint_width_3(b[3], b[4], b[5]) == l);
        assert(b[3] == 0xed);
        assert(mutf8_scalar(c).len() == 6);
    }
}

/// Encoding a character sequence as modified UTF-8 and decoding strictly
/// gives the UTF-8 bytes of the same text.
pub proof fn lemma_mutf8_to_utf8_of_mutf8(s: Seq<char>)
    ensures
        mutf8_to_utf8(mutf8(s)) == Some(encode_utf8(s)),
    decreases s.len(),
{
    if s.len() == 0 {
        assert(mutf8(s) =~= Seq::<u8>::empty());
        assert(encode_utf8(s) =~= Seq::<u8>::empty());
    } else {
        let c = s[0];
        char_is_scalar(c);
        let rest = mutf8(s.drop_first());
        lemma_step_of_scalar(c as u32, rest);
        let b = mutf8(s);
        let n = mutf8_scalar(c as u32).len() as int;
        assert(b == mutf8_scalar(c as u32) + rest);
        assert(1 <= n <= b.len());
        assert(b.skip(n) =~= rest);
        lemma_mutf8_to_utf8_of_mutf8(s.drop_first());
        assert(encode_scalar(c as u32) + encode_utf8(s.drop_first()) =~= encode_utf8(s));
    }
}

/// What strict decoding accepts is exactly the canonical encoding: the
/// decoded UTF-8 is valid, and re-encoding it as modified UTF-8 restores the
/// input bytes.
pub proof fn lemma_mutf8_to_utf8_canonical(b: Seq<u8>)
    requires
        mutf8_to_utf8(b) is Some,
    ensures
        valid_utf8(mutf8_to_utf8(b)->0),
        mutf8_of_utf8(mutf8_to_utf8(b)->0) == b,
    decreases b.len(),
{
    if b.len() == 0 {
        assert(mutf8_to_utf8(b)->0 =~= Seq::<u8>::empty());
    } else {
        let (c, n) = mutf8_step(b)->0;
        let tail = b.skip(n);
        lemma_mutf8_to_utf8_canonical(tail);
        let u = mutf8_to_utf8(tail)->0;
        // the step read the canonical encoding of a scalar
        let b0 = b[0];
        if b0 < 0x80 {
            bv_ascii(b0);
            assert(is_scalar(c));
            assert(mutf8_scalar(c) =~= b.subrange(0, n)) by {
                assert(leading_byte_width_1(b0 as u32) == b0) by (bit_vector)
                    requires
                        b0 < 0x80,
                ;
            };
        } else if b0 == 0xc0 {
            assert(c == 0 && n == 2);
            assert(mutf8_scalar(c) =~= b.subrange(0, n));
        } else if b0 < 0xe0 {
            bv_w2_rev(b0, b[1]);
            assert(is_scalar(c));
            assert(mutf8_scalar(c) =~= b.subrange(0, n));
        } else {
            let c1 = codepoint_width_3(b0, b[1], b[2]);
            bv_w3_rev(b0, b[1], b[2]);
            if 0xd800 <= c1 <= 0xdbff {
                let c2 = codepoint_width_3(b[3], b[4], b[5]);
                bv_w3_rev(b[3], b[4], b[5]);
                assert(c2 >= 0x800);
                bv_pair_rev(c1, c2);
                assert(is_scalar(c));
                assert(high_surrogate(c) == c1 && low_surrogate(c) == c2);
                bv_w3(c1);
                bv_w3(c2);
                assert(mutf8_scalar(c) =~= b.subrange(0, n));
            } else {
                assert(c == c1 && n == 3);
                assert(is_scalar(c));
                assert(mutf8_scalar(c) =~= b.subrange(0, n));
            }
        }
        lemma_scalar_prefix(c, u);
        assert(mutf8_to_utf8(b)->0 == encode_scalar(c) + u);
        assert(mutf8_of_utf8(encode_scalar(c) + u) == mutf8_scalar(c) + mutf8_of_utf8(u));
        assert(mutf8_scalar(c) + tail =~= b);
    }
}

/// The modified-UTF-8 bytes of a UTF-8 text are the modified-UTF-8 encoding
/// of its characters.
pub proof fn lemma_mutf8_of_utf8_chars(u: Seq<u8>)
    requires
        valid_utf8(u),
    ensures
        mutf8_of_utf8(u) == mutf8(decode_utf8(u)),
    decreases u.len(),
{
    if u.len() == 0 {
        assert(decode_utf8(u) =~= Seq::<char>::empty());
    } else {
        let c = decode_first_scalar(u);
        assert(is_scalar(c)) by {
            if is_leading_byte_width_1(u[0]) {
            } else if is_leading_byte_width_2(u[0]) {
                bv_cp_bounds(u[0], u[1], u[2]);
            } else if is_leading_byte_width_3(u[0]) {
                bv_cp_bounds(u[0], u[1], u[2]);
            } else {
            }
        };
        assert((c as char) as u32 == c);
        lemma_mutf8_of_utf8_chars(pop_first_scalar(u));
        assert(decode_utf8(u).drop_first() =~= decode_utf8(pop_first_scalar(u)));
        assert(decode_utf8(u)[0] == c as char);
    }
}

proof fn bv_cp_bounds(b0: u8, b1: u8, b2: u8)
    by (bit_vector)
    ensures
        codepoint_width_2(b0, b1) < 0x800,
        codepoint_width_3(b0, b1, b2) < 0x10000,
{
}

/// The decoding loop's state: the modified-UTF-8 input decodes exactly when
/// its unread suffix does, and the output so far is the decoded prefix.
spec fn decode_state(b: Seq<u8>, pos: int, out: Seq<u8>) -> bool {
    &&& 0 <= pos <= b.len()
    &&& mutf8_to_utf8(b) == (match mutf8_to_utf8(b.skip(pos)) {
        Option::None => Option::<Seq<u8>>::None,
        Option::Some(u) => Option::Some(out + u),
    })
}

proof fn lemma_decode_advance(b: Seq<u8>, pos: int, c: u32, n: int, out: Seq<u8>)
    requires
        decode_state(b, pos, out),
        mutf8_step(b.skip(pos)) == Some((c, n)),
        1 <= n,
        pos + n <= b.len(),
    ensures
        decode_state(b, pos + n, out + encode_scalar(c)),
{
    assert(b.skip(pos).skip(n) =~= b.skip(pos + n));
    if mutf8_to_utf8(b.skip(pos + n)) is Some {
        let u = mutf8_to_utf8(b.skip(pos + n))->0;
        assert(mutf8_to_utf8(b.skip(pos)) == Some(encode_scalar(c) + u));
        assert(out + (encode_scalar(c) + u) =~= (out + encode_scalar(c)) + u);
    }
}

proof fn lemma_decode_stuck(b: Seq<u8>, pos: int, out: Seq<u8>)
    requires
        decode_state(b, pos, out),
        pos < b.len(),
        mutf8_step(b.skip(pos)) is None,
    ensures
        mutf8_to_utf8(b) is None,
{
}

/// Relies on String::from_utf8: it succeeds exactly on valid UTF-8 and
/// yields the string those bytes spell.
#[verifier::external_body]
fn string_from_utf8(v: Vec<u8>) -> (r: Option<String>)
    ensures
        r is Some <==> valid_utf8(v@),
        r is Some ==> r->0@ == decode_utf8(v@),
{
    String::from_utf8(v).ok()
}

/// Decodes strict modified UTF-8; `None` when the bytes are not the
/// canonical modified-UTF-8 encoding of any text.
pub fn decode(bytes: &[u8]) -> (r: Option<String>)
    ensures
        r is Some <==> mutf8_to_utf8(bytes@) is Some,
        r is Some ==> mutf8(r->0@) == bytes@,
        r is Some ==> r->0@ == decode_utf8(mutf8_to_utf8(bytes@)->0),
{
    let n = bytes.len();
    let mut out: Vec<u8> = Vec::new();
    let mut pos: usize = 0;
    proof {
        assert(bytes@.skip(0) =~= bytes@);
        if mutf8_to_utf8(bytes@) is Some {
            assert(Seq::<u8>::empty() + mutf8_to_utf8(bytes@)->0 =~= mutf8_to_utf8(bytes@)->0);
        }
    }
    while pos < n
        invariant
            n == bytes@.len(),
            pos <= n,
            decode_state(bytes@, pos as int, out@),
        decreases n - pos,
    {
        let ghost suffix = bytes@.skip(pos as int);
        let ghost out0 = out@;
        proof {
            assert(suffix[0] == bytes@[pos as int]);
        }
        let b0 = bytes[pos];
        if b0 == 0x00 {
            proof {
                lemma_decode_stuck(bytes@, pos as int, out@);
            }
            return None;
        } else if b0 < 0x80 {
            out.push(b0);
            proof {
                bv_ascii(b0);
                assert(mutf8_step(suffix) == Some((b0 as u32, 1int)));
                assert(encode_scalar(b0 as u32) =~= seq![b0]);
                assert(out@ =~= out0 + encode_scalar(b0 as u32));
                lemma_decode_advance(bytes@, pos as int, b0 as u32, 1, out0);
            }
            pos = pos + 1;
        } else if b0 < 0xc2 {
            // a stray continuation byte, an overlong two-byte form, or C0 80
            if b0 == 0xc0 && n - pos > 1 && bytes[pos + 1] == 0x80 {
                out.push(0x00);
                proof {
                    assert(suffix[1] == bytes@[pos + 1]);
                    assert(mutf8_step(suffix) == Some((0u32, 2int)));
                    bv_ascii(0x00);
                    assert(encode_scalar(0u32) =~= seq![0x00u8]);
                    assert(out@ =~= out0 + encode_scalar(0u32));
                    lemma_decode_advance(bytes@, pos as int, 0u32, 2, out0);
                }
                pos = pos + 2;
            } else {
                proof {
                    if pos + 1 < n {
                        assert(suffix[1] == bytes@[pos + 1]);
                    }
                    assert(mutf8_step(suffix) is None);
                    lemma_decode_stuck(bytes@, pos as int, out@);
                }
                return None;
            }
        } else if b0 < 0xe0 {
            if n - pos > 1 && 0x80 <= bytes[pos + 1] && bytes[pos + 1] <= 0xbf {
                let b1 = bytes[pos + 1];
                out.push(b0);
                out.push(b1);
                proof {
                    assert(suffix[1] == bytes@[pos + 1]);
                    let c = codepoint_width_2(b0, b1);
                    bv_w2_rev(b0, b1);
                    assert(mutf8_step(suffix) == Some((c, 2int)));
                    assert(encode_scalar(c) =~= seq![b0, b1]);
                    assert(out@ =~= out0 + encode_scalar(c));
                    lemma_decode_advance(bytes@, pos as int, c, 2, out0);
                }
                pos = pos + 2;
            } else {
                proof {
                    if pos + 1 < n {
                        assert(suffix[1] == bytes@[pos + 1]);
                    }
                    assert(mutf8_step(suffix) is None);
                    lemma_decode_stuck(bytes@, pos as int, out@);
                }
                return None;
            }
        } else if b0 < 0xf0 {
            if n - pos > 2 && 0x80 <= bytes[pos + 1] && bytes[pos + 1] <= 0xbf
                && 0x80 <= bytes[pos + 2] && bytes[pos + 2] <= 0xbf {
                let b1 = bytes[pos + 1];
                let b2 = bytes[pos + 2];
                let c: u32 = (((b0 & 0x0f) as u32) << 12) | (((b1 & 0x3f) as u32) << 6)
                    | ((b2 & 0x3f) as u32);
                proof {
                    assert(suffix[1] == bytes@[pos + 1] && suffix[2] == bytes@[pos + 2]);
                    assert(c == codepoint_width_3(b0, b1, b2));
                    bv_w3_rev(b0, b1, b2);
                }
                if c < 0x800 {
                    proof {
                        assert(mutf8_step(suffix) is None);
                        lemma_decode_stuck(bytes@, pos as int, out@);
                    }
                    return None;
                } else if 0xd800 <= c && c <= 0xdbff {
                    // high surrogate: a low surrogate must follow
                    if n - pos > 5 && bytes[pos + 3] == 0xed && 0xb0 <= bytes[pos + 4]
                        && bytes[pos + 4] <= 0xbf && 0x80 <= bytes[pos + 5]
                        && bytes[pos + 5] <= 0xbf {
                        let b4 = bytes[pos + 4];
                        let b5 = bytes[pos + 5];
                        let c2: u32 = (0xd000u32) | (((b4 & 0x3f) as u32) << 6)
                            | ((b5 & 0x3f) as u32);
                        proof {
                            assert(suffix[3] == bytes@[pos + 3] && suffix[4] == bytes@[pos + 4]
                                && suffix[5] == bytes@[pos + 5]);
                            assert(c2 == codepoint_width_3(0xed, b4, b5)
                                && 0xdc00 <= c2 <= 0xdfff) by (bit_vector)
                                requires
                                    c2 == (0xd000u32) | (((b4 & 0x3f) as u32) << 6) | ((b5
                                        & 0x3f) as u32),
                                    0xb0 <= b4 <= 0xbf,
                                    0x80 <= b5 <= 0xbf,
                            ;
                        }
                        let cc: u32 = 0x10000 + (c - 0xd800) * 0x400 + (c2 - 0xdc00);
                        out.push(0xf0 | (((cc >> 18) & 0x7) as u8));
                        out.push(0x80 | (((cc >> 12) & 0x3f) as u8));
                        out.push(0x80 | (((cc >> 6) & 0x3f) as u8));
                        out.push(0x80 | ((cc & 0x3f) as u8));
                        proof {
                            let c2s = codepoint_width_3(bytes@[pos + 3], bytes@[pos + 4],
                                bytes@[pos + 5]);
                            assert(c2s == c2);
                            assert(mutf8_step(suffix) == Some(
                                (((0x10000 + (c - 0xd800) * 0x400 + (c2 - 0xdc00)) as u32),
                                6int),
                            ));
                            assert(cc == (0x10000 + (c - 0xd800) * 0x400 + (c2
                                - 0xdc00)) as u32);
                            assert(0x10000 <= cc <= 0x10ffff);
                            assert(encode_scalar(cc) =~= seq![
                                0xf0 | (((cc >> 18) & 0x7) as u8),
                                0x80 | (((cc >> 12) & 0x3f) as u8),
                                0x80 | (((cc >> 6) & 0x3f) as u8),
                                0x80 | ((cc & 0x3f) as u8),
                            ]);
                            assert(out@ =~= out0 + encode_scalar(cc));
                            lemma_decode_advance(bytes@, pos as int, cc, 6, out0);
                        }
                        pos = pos + 6;
                    } else {
                        proof {
                            if pos + 3 < n {
                                assert(suffix[3] == bytes@[pos + 3]);
                            }
                            if pos + 4 < n {
                                assert(suffix[4] == bytes@[pos + 4]);
                            }
                            if pos + 5 < n {
                                assert(suffix[5] == bytes@[pos + 5]);
                                let x3 = bytes@[pos + 3];
                                let x4 = bytes@[pos + 4];
                                let x5 = bytes@[pos + 5];
                                let c2s = codepoint_width_3(x3, x4, x5);
                                if x3 == 0xed && is_continuation_byte(x4)
                                    && is_continuation_byte(x5) && !(0xb0 <= x4 <= 0xbf) {
                                    assert(!(0xdc00 <= c2s <= 0xdfff)) by (bit_vector)
                                        requires
                                            c2s == codepoint_width_3(x3, x4, x5),
                                            x3 == 0xed,
                                            0x80 <= x4 <= 0xbf,
                                            !(0xb0 <= x4 <= 0xbf),
                                    ;
                                }
                            }
                            assert(mutf8_step(suffix) is None);
                            lemma_decode_stuck(bytes@, pos as int, out@);
                        }
                        return None;
                    }
                } else if 0xdc00 <= c && c <= 0xdfff {
                    proof {
                        assert(mutf8_step(suffix) is None);
                        lemma_decode_stuck(bytes@, pos as int, out@);
                    }
                    return None;
                } else {
                    out.push(b0);
                    out.push(b1);
                    out.push(b2);
                    proof {
                        assert(mutf8_step(suffix) == Some((c, 3int)));
                        assert(encode_scalar(c) =~= seq![b0, b1, b2]);
                        assert(out@ =~= out0 + encode_scalar(c));
                        lemma_decode_advance(bytes@, pos as int, c, 3, out0);
                    }
                    pos = pos + 3;
                }
            } else {
                proof {
                    if pos + 1 < n {
                        assert(suffix[1] == bytes@[pos + 1]);
                    }
                    if pos + 2 < n {
                        assert(suffix[2] == bytes@[pos + 2]);
                    }
                    assert(mutf8_step(suffix) is None);
                    lemma_decode_stuck(bytes@, pos as int, out@);
                }
                return None;
            }
        } else {
            proof {
                assert(mutf8_step(suffix) is None);
                lemma_decode_stuck(bytes@, pos as int, out@);
            }
            return None;
        }
    }
    proof {
        assert(bytes@.skip(n as int) =~= Seq::<u8>::empty());
        assert(mutf8_to_utf8(Seq::<u8>::empty()) == Some(Seq::<u8>::empty()));
        assert(out@ + Seq::<u8>::empty() =~= out@);
        assert(mutf8_to_utf8(bytes@) == Some(out@));
        lemma_mutf8_to_utf8_canonical(bytes@);
        lemma_mutf8_of_utf8_chars(out@);
    }
    let r = string_from_utf8(out);
    r
}

proof fn lemma_encode_advance(b: Seq<u8>, pos: int, out: Seq<u8>, emitted: Seq<u8>)
    requires
        0 <= pos < b.len(),
        valid_utf8(b.skip(pos)),
        mutf8_of_utf8(b) == out + mutf8_of_utf8(b.skip(pos)),
        emitted == mutf8_scalar(decode_first_scalar(b.skip(pos))),
    ensures
        pos + length_of_first_scalar(b.skip(pos)) <= b.len(),
        valid_utf8(b.skip(pos + length_of_first_scalar(b.skip(pos)))),
        mutf8_of_utf8(b) == (out + emitted) + mutf8_of_utf8(
            b.skip(pos + length_of_first_scalar(b.skip(pos))),
        ),
{
    let suffix = b.skip(pos);
    let w = length_of_first_scalar(suffix);
    assert(valid_first_scalar(suffix));
    assert(1 <= w <= suffix.len());
    assert(pop_first_scalar(suffix) =~= b.skip(pos + w));
    assert(mutf8_of_utf8(suffix) == emitted + mutf8_of_utf8(b.skip(pos + w)));
    assert(out + (emitted + mutf8_of_utf8(b.skip(pos + w))) =~= (out + emitted)
        + mutf8_of_utf8(b.skip(pos + w)));
}

/// Encodes a string as modified UTF-8.
pub fn encode(s: &str) -> (r: Vec<u8>)
    ensures
        r@ == mutf8(s@),
{
    let bytes = s.as_bytes();
    proof {
        encode_utf8_valid_utf8(s@);
        assert(bytes@.skip(0) =~= bytes@);
        assert(Seq::<u8>::empty() + mutf8_of_utf8(bytes@) =~= mutf8_of_utf8(bytes@));
    }
    let n = bytes.len();
    let mut out: Vec<u8> = Vec::new();
    let mut pos: usize = 0;
    while pos < n
        invariant
            n == bytes@.len(),
            pos <= n,
            valid_utf8(bytes@.skip(pos as int)),
            mutf8_of_utf8(bytes@) == out@ + mutf8_of_utf8(bytes@.skip(pos as int)),
        decreases n - pos,
    {
        let ghost suffix = bytes@.skip(pos as int);
        let ghost out0 = out@;
        let ghost c = decode_first_scalar(suffix);
        proof {
            assert(valid_first_scalar(suffix));
            assert(suffix[0] == bytes@[pos as int]);
        }
        let b0 = bytes[pos];
        if b0 < 0x80 {
            proof {
                bv_ascii(b0);
                assert(c == b0 as u32 && length_of_first_scalar(suffix) == 1);
            }
            if b0 == 0x00 {
                out.push(0xc0);
                out.push(0x80);
                proof {
                    assert(out@ =~= out0 + mutf8_scalar(c));
                }
            } else {
                out.push(b0);
                proof {
                    assert(encode_scalar(c) =~= seq![b0]);
                    assert(out@ =~= out0 + mutf8_scalar(c));
                }
            }
            proof {
                lemma_encode_advance(bytes@, pos as int, out0, mutf8_scalar(c));
            }
            pos = pos + 1;
        } else if b0 < 0xe0 {
            proof {
                assert(is_leading_byte_width_2(b0));
                assert(length_of_first_scalar(suffix) == 2);
                assert(suffix.len() >= 2);
                assert(suffix[1] == bytes@[pos + 1]);
                assert(c == codepoint_width_2(b0, suffix[1]));
                assert(0x80 <= c);
                bv_w2_rev(b0, suffix[1]);
            }
            let b1 = bytes[pos + 1];
            out.push(b0);
            out.push(b1);
            proof {
                assert(encode_scalar(c) =~= seq![b0, b1]);
                assert(out@ =~= out0 + mutf8_scalar(c));
                lemma_encode_advance(bytes@, pos as int, out0, mutf8_scalar(c));
            }
            pos = pos + 2;
        } else if b0 < 0xf0 {
            proof {
                assert(is_leading_byte_width_3(b0));
                assert(length_of_first_scalar(suffix) == 3);
                assert(suffix.len() >= 3);
                assert(suffix[1] == bytes@[pos + 1] && suffix[2] == bytes@[pos + 2]);
                assert(c == codepoint_width_3(b0, suffix[1], suffix[2]));
                assert(0x800 <= c && !(0xd800 <= c <= 0xdfff));
                bv_w3_rev(b0, suffix[1], suffix[2]);
            }
            let b1 = bytes[pos + 1];
            let b2 = bytes[pos + 2];
            out.push(b0);
            out.push(b1);
            out.push(b2);
            proof {
                assert(encode_scalar(c) =~= seq![b0, b1, b2]);
                assert(out@ =~= out0 + mutf8_scalar(c));
                lemma_encode_advance(bytes@, pos as int, out0, mutf8_scalar(c));
            }
            pos = pos + 3;
        } else {
            proof {
                assert(is_leading_byte_width_4(b0));
                assert(length_of_first_scalar(suffix) == 4);
                assert(suffix.len() >= 4);
                assert(suffix[1] == bytes@[pos + 1] && suffix[2] == bytes@[pos + 2]
                    && suffix[3] == bytes@[pos + 3]);
                assert(c == codepoint_width_4(b0, suffix[1], suffix[2], suffix[3]));
                assert(0x10000 <= c <= 0x10ffff);
            }
            let b1 = bytes[pos + 1];
            let b2 = bytes[pos + 2];
            let b3 = bytes[pos + 3];
            let cc: u32 = (((b0 & 0x07) as u32) << 18) | (((b1 & 0x3f) as u32) << 12)
                | (((b2 & 0x3f) as u32) << 6) | ((b3 & 0x3f) as u32);
            proof {
                assert(cc == c);
                bv_pair(c);
                assert(((cc - 0x10000) as u32) >> 10 <= 0x3ff && ((cc - 0x10000) as u32)
                    & 0x3ff <= 0x3ff) by (bit_vector)
                    requires
                        0x10000 <= cc <= 0x10ffff,
                ;
            }
            let hi: u32 = 0xd800 + ((cc - 0x10000) >> 10);
            let lo: u32 = 0xdc00 + ((cc - 0x10000) & 0x3ff);
            proof {
                assert(hi == high_surrogate(c) && lo == low_surrogate(c));
            }
            out.push(0xe0 | (((hi >> 12) & 0x0f) as u8));
            out.push(0x80 | (((hi >> 6) & 0x3f) as u8));
            out.push(0x80 | ((hi & 0x3f) as u8));
            out.push(0xe0 | (((lo >> 12) & 0x0f) as u8));
            out.push(0x80 | (((lo >> 6) & 0x3f) as u8));
            out.push(0x80 | ((lo & 0x3f) as u8));
            proof {
                assert(out@ =~= out0 + mutf8_scalar(c));
                lemma_encode_advance(bytes@, pos as int, out0, mutf8_scalar(c));
            }
            pos = pos + 4;
        }
    }
    proof {
        assert(bytes@.skip(n as int) =~= Seq::<u8>::empty());
        assert(out@ + Seq::<u8>::empty() =~= out@);
        assert(out@ == mutf8_of_utf8(bytes@));
        lemma_mutf8_of_utf8_chars(bytes@);
        encode_utf8_decode_utf8(s@);
    }
    out
}

} // verus!
