//! Reading the tagged binary format: the mathematical decoding of a byte
//! buffer, and a verified parser that produces exactly that decoding.
//!
//! Decoding is the exact inverse of the encoding in [`crate::ser`]: what the
//! parser accepts re-encodes to the consumed bytes, byte for byte, and every
//! well-formed tag's encoding parses back to the tag.

use vstd::prelude::*;
use vstd::utf8::decode_utf8;
use crate::mutf8::{lemma_mutf8_of_utf8_chars, lemma_mutf8_to_utf8_canonical, mutf8,
    mutf8_to_utf8};
use crate::nbt::lemma_tag_type_code_round_trip;
use crate::ser::{be2, be4, be8, enc, enc_entries, enc_entry, enc_list, ints_wire, longs_wire,
    wf, wf_entries, wf_list};
use crate::nbt::TagType;
use crate::nbt::owned::{ByteArray, IntArray, LongArray, NamedTag, Tag, TagView, entries_of,
    u32_be, u64_be, views_of};

pub mod read;

verus! {

/// The errors of the reading side.
#[derive(Debug, PartialEq)]
pub enum Error {
    /// A failure reported by a caller-supplied layer.
    Message(String),
    /// The input ended before the value did, or the underlying reader
    /// failed.
    Io,
    /// A byte standing for a boolean was neither 0 nor 1.
    InvalidBooleanValue(i8),
    /// A negative count where an unsigned value was wanted.
    NegativeUnsigned,
    /// A negative length prefix.
    NegativeLength,
    /// The top-level tag is neither a compound nor a list.
    InvalidTopLevel(TagType),
    /// A string is not canonical modified UTF-8.
    InvalidMUTF8,
    /// An `End` tag where a value was wanted.
    UnexpectedEndTag,
    /// A tag kind that cannot stand for a sequence.
    InvalidTagForSeq(TagType),
    /// A byte that names no tag kind.
    InvalidTagType(u8),
    /// A tag kind that cannot stand for a byte array.
    InvalidTagForBytes(TagType),
}

/// The big-endian 16-bit value at position `pos`.
pub open spec fn be16_at(b: Seq<u8>, pos: int) -> u16 {
    ((b[pos] as u16) << 8) | (b[pos + 1] as u16)
}

/// The big-endian 32-bit value at position `pos`.
pub open spec fn be32_at(b: Seq<u8>, pos: int) -> u32 {
    ((b[pos] as u32) << 24) | ((b[pos + 1] as u32) << 16) | ((b[pos + 2] as u32) << 8) | (b[pos
        + 3] as u32)
}

/// The big-endian 64-bit value at position `pos`.
pub open spec fn be64_at(b: Seq<u8>, pos: int) -> u64 {
    ((b[pos] as u64) << 56) | ((b[pos + 1] as u64) << 48) | ((b[pos + 2] as u64) << 40) | ((b[pos
        + 3] as u64) << 32) | ((b[pos + 4] as u64) << 24) | ((b[pos + 5] as u64) << 16) | ((b[pos
        + 6] as u64) << 8) | (b[pos + 7] as u64)
}

/// The 32-bit integers held by big-endian bytes.
pub open spec fn ints_of_be(b: Seq<u8>, n: int) -> Seq<i32> {
    Seq::new(n as nat, |i: int| u32_be(b[4 * i], b[4 * i + 1], b[4 * i + 2], b[4 * i + 3]) as i32)
}

/// The 64-bit integers held by big-endian bytes.
pub open spec fn longs_of_be(b: Seq<u8>, n: int) -> Seq<i64> {
    Seq::new(
        n as nat,
        |i: int| u64_be(
            b[8 * i], b[8 * i + 1], b[8 * i + 2], b[8 * i + 3],
            b[8 * i + 4], b[8 * i + 5], b[8 * i + 6], b[8 * i + 7],
        ) as i64,
    )
}

/// Decodes the payload of one tag of the given kind from the front of `b`:
/// the decoded value and the number of bytes it occupied, or the error the
/// bytes force. Stray bytes after the payload are left alone.
pub open spec fn dec_payload(b: Seq<u8>, kind: TagType) -> Result<(TagView, int), Error>
    decreases b.len(), 0int, 1int,
{
    match kind {
        TagType::End => Err(Error::UnexpectedEndTag),
        TagType::Byte => if b.len() >= 1 {
            Ok((TagView::Byte(b[0] as i8), 1))
        } else {
            Err(Error::Io)
        },
        TagType::Short => if b.len() >= 2 {
            Ok((TagView::Short(be16_at(b, 0) as i16), 2))
        } else {
            Err(Error::Io)
        },
        TagType::Int => if b.len() >= 4 {
            Ok((TagView::Int(be32_at(b, 0) as i32), 4))
        } else {
            Err(Error::Io)
        },
        TagType::Long => if b.len() >= 8 {
            Ok((TagView::Long(be64_at(b, 0) as i64), 8))
        } else {
            Err(Error::Io)
        },
        TagType::Float => if b.len() >= 4 {
            Ok((TagView::Float(be32_at(b, 0)), 4))
        } else {
            Err(Error::Io)
        },
        TagType::Double => if b.len() >= 8 {
            Ok((TagView::Double(be64_at(b, 0)), 8))
        } else {
            Err(Error::Io)
        },
        TagType::ByteArray => if b.len() < 4 {
            Err(Error::Io)
        } else {
            let n = be32_at(b, 0) as i32;
            if n < 0 {
                Err(Error::NegativeLength)
            } else if b.len() < 4 + n {
                Err(Error::Io)
            } else {
                Ok((TagView::ByteArray(b.subrange(4, 4 + n)), 4 + n))
            }
        },
        TagType::String => if b.len() < 2 {
            Err(Error::Io)
        } else {
            let n = be16_at(b, 0) as int;
            if b.len() < 2 + n {
                Err(Error::Io)
            } else {
                match mutf8_to_utf8(b.subrange(2, 2 + n)) {
                    Option::None => Err(Error::InvalidMUTF8),
                    Option::Some(u) => Ok((TagView::String(decode_utf8(u)), 2 + n)),
                }
            }
        },
        TagType::List => if b.len() < 1 {
            Err(Error::Io)
        } else {
            match TagType::spec_from_u8(b[0]) {
                Option::None => Err(Error::InvalidTagType(b[0])),
                Option::Some(et) => {
                    if b.len() < 5 {
                        Err(Error::Io)
                    } else {
                        let n = be32_at(b, 1) as i32;
                        if n < 0 {
                            Err(Error::NegativeLength)
                        } else {
                            match dec_elems(b.skip(5), et, n as int) {
                                Err(e) => Err(e),
                                Ok((elems, used)) => Ok((TagView::List(et, elems), 5 + used)),
                            }
                        }
                    }
                },
            }
        },
        TagType::Compound => match dec_entries(b) {
            Err(e) => Err(e),
            Ok((es, used)) => Ok((TagView::Compound(es), used)),
        },
        TagType::IntArray => if b.len() < 4 {
            Err(Error::Io)
        } else {
            let n = be32_at(b, 0) as i32;
            if n < 0 {
                Err(Error::NegativeLength)
            } else if b.len() < 4 + 4 * n {
                Err(Error::Io)
            } else {
                Ok((TagView::IntArray(ints_of_be(b.subrange(4, 4 + 4 * n), n as int)), 4 + 4
                    * n))
            }
        },
        TagType::LongArray => if b.len() < 4 {
            Err(Error::Io)
        } else {
            let n = be32_at(b, 0) as i32;
            if n < 0 {
                Err(Error::NegativeLength)
            } else if b.len() < 4 + 8 * n {
                Err(Error::Io)
            } else {
                Ok((TagView::LongArray(longs_of_be(b.subrange(4, 4 + 8 * n), n as int)), 4 + 8
                    * n))
            }
        },
    }
}

/// Decodes `n` unnamed payloads of kind `et` from the front of `b`.
pub open spec fn dec_elems(b: Seq<u8>, et: TagType, n: int) -> Result<(Seq<TagView>, int), Error>
    decreases b.len(), n, 0int,
{
    if n <= 0 {
        Ok((seq![], 0))
    } else {
        match dec_payload(b, et) {
            Err(e) => Err(e),
            Ok((t, used)) => {
                if 1 <= used <= b.len() {
                    match dec_elems(b.skip(used), et, n - 1) {
                        Err(e) => Err(e),
                        Ok((rest, used2)) => Ok((seq![t] + rest, used + used2)),
                    }
                } else {
                    Err(Error::Io)
                }
            },
        }
    }
}

/// Decodes compound entries from the front of `b`, up to and including the
/// closing `End` byte.
pub open spec fn dec_entries(b: Seq<u8>) -> Result<(Seq<(Seq<char>, TagView)>, int), Error>
    decreases b.len(), 0int, 0int,
{
    if b.len() < 1 {
        Err(Error::Io)
    } else {
        match TagType::spec_from_u8(b[0]) {
            Option::None => Err(Error::InvalidTagType(b[0])),
            Option::Some(kind) => {
                if kind == TagType::End {
                    Ok((seq![], 1))
                } else if b.len() < 3 {
                    Err(Error::Io)
                } else {
                    let nlen = be16_at(b, 1) as int;
                    if b.len() < 3 + nlen {
                        Err(Error::Io)
                    } else {
                        match mutf8_to_utf8(b.subrange(3, 3 + nlen)) {
                            Option::None => Err(Error::InvalidMUTF8),
                            Option::Some(u) => match dec_payload(b.skip(3 + nlen), kind) {
                                Err(e) => Err(e),
                                Ok((t, used)) => {
                                    if 1 <= used <= b.len() - 3 - nlen {
                                        match dec_entries(b.skip(3 + nlen + used)) {
                                            Err(e) => Err(e),
                                            Ok((rest, used2)) => Ok(
                                                (
                                                    seq![(decode_utf8(u), t)] + rest,
                                                    3 + nlen + used + used2,
                                                ),
                                            ),
                                        }
                                    } else {
                                        Err(Error::Io)
                                    }
                                },
                            },
                        }
                    }
                }
            },
        }
    }
}

/// Decodes a whole document from the front of `b`: the top-level tag's
/// name, its value, and the bytes consumed. The top-level tag must be a
/// compound or a list.
pub open spec fn dec_document(b: Seq<u8>) -> Result<(Seq<char>, TagView, int), Error> {
    if b.len() < 1 {
        Err(Error::Io)
    } else {
        match TagType::spec_from_u8(b[0]) {
            Option::None => Err(Error::InvalidTagType(b[0])),
            Option::Some(kind) => {
                if b.len() < 3 {
                    Err(Error::Io)
                } else {
                    let nlen = be16_at(b, 1) as int;
                    if b.len() < 3 + nlen {
                        Err(Error::Io)
                    } else {
                        match mutf8_to_utf8(b.subrange(3, 3 + nlen)) {
                            Option::None => Err(Error::InvalidMUTF8),
                            Option::Some(u) => {
                                if kind != TagType::Compound && kind != TagType::List {
                                    Err(Error::InvalidTopLevel(kind))
                                } else {
                                    match dec_payload(b.skip(3 + nlen), kind) {
                                        Err(e) => Err(e),
                                        Ok((t, used)) => Ok(
                                            (decode_utf8(u), t, 3 + nlen + used),
                                        ),
                                    }
                                }
                            },
                        }
                    }
                }
            },
        }
    }
}

/// Every successful payload decode consumes at least one byte and no more
/// than the buffer holds.
pub proof fn lemma_dec_payload_bounds(b: Seq<u8>, kind: TagType)
    ensures
        dec_payload(b, kind) matches Ok(p) ==> 1 <= p.1 <= b.len(),
    decreases b.len(), 0int, 1int,
{
    match kind {
        TagType::List => {
            if b.len() >= 5 && b.len() >= 1 && TagType::spec_from_u8(b[0]) is Some {
                let et = TagType::spec_from_u8(b[0])->0;
                let n = be32_at(b, 1) as i32;
                if n >= 0 {
                    lemma_dec_elems_bounds(b.skip(5), et, n as int);
                }
            }
        },
        TagType::Compound => {
            lemma_dec_entries_bounds(b);
        },
        _ => {},
    }
}

/// Every successful run of element decodes stays within the buffer.
pub proof fn lemma_dec_elems_bounds(b: Seq<u8>, et: TagType, n: int)
    ensures
        dec_elems(b, et, n) matches Ok(p) ==> 0 <= p.1 <= b.len(),
    decreases b.len(), n, 0int,
{
    if n > 0 {
        match dec_payload(b, et) {
            Ok((t, consumed)) => {
                if 1 <= consumed <= b.len() {
                    lemma_dec_elems_bounds(b.skip(consumed), et, n - 1);
                }
            },
            Err(_) => {},
        }
    }
}

/// Every successful run of entry decodes consumes at least the closing
/// `End` byte and stays within the buffer.
pub proof fn lemma_dec_entries_bounds(b: Seq<u8>)
    ensures
        dec_entries(b) matches Ok(p) ==> 1 <= p.1 <= b.len(),
    decreases b.len(), 0int, 0int,
{
    if b.len() >= 1 && TagType::spec_from_u8(b[0]) is Some {
        let kind = TagType::spec_from_u8(b[0])->0;
        if kind != TagType::End && b.len() >= 3 {
            let nlen = be16_at(b, 1) as int;
            if b.len() >= 3 + nlen && mutf8_to_utf8(b.subrange(3, 3 + nlen)) is Some {
                match dec_payload(b.skip(3 + nlen), kind) {
                    Ok((t, consumed)) => {
                        if 1 <= consumed <= b.len() - 3 - nlen {
                            lemma_dec_entries_bounds(b.skip(3 + nlen + consumed));
                        }
                    },
                    Err(_) => {},
                }
            }
        }
    }
}

/// Parses the payload of one tag of the given kind, advancing the reader by
/// exactly the bytes the payload occupies; the result and the error are
/// exactly those of [`dec_payload`] on the unread bytes.
pub fn parse_payload(s: &mut read::Slice, kind: TagType) -> (r: Result<Tag, Error>)
    requires
        old(s).inv(),
    ensures
        final(s).inv(),
        final(s).data@ == old(s).data@,
        ({
            match dec_payload(old(s).remaining(), kind) {
                Ok(p) => r is Ok && r->Ok_0@ == p.0 && final(s).pos == old(s).pos + p.1,
                Err(e) => r is Err && r->Err_0 == e,
            }
        }),
    decreases old(s).remaining().len(), 0int, 1int,
{
    let ghost b = old(s).remaining();
    match kind {
        TagType::End => Err(Error::UnexpectedEndTag),
        TagType::Byte => match s.read_byte() {
            Ok(v) => Ok(Tag::Byte(v)),
            Err(e) => Err(e),
        },
        TagType::Short => match s.read_short() {
            Ok(v) => Ok(Tag::Short(v)),
            Err(e) => Err(e),
        },
        TagType::Int => match s.read_int() {
            Ok(v) => Ok(Tag::Int(v)),
            Err(e) => Err(e),
        },
        TagType::Long => match s.read_long() {
            Ok(v) => Ok(Tag::Long(v)),
            Err(e) => Err(e),
        },
        TagType::Float => match s.read_float() {
            Ok(v) => Ok(Tag::Float(v)),
            Err(e) => Err(e),
        },
        TagType::Double => match s.read_double() {
            Ok(v) => Ok(Tag::Double(v)),
            Err(e) => Err(e),
        },
        TagType::ByteArray => match s.read_bytes(1) {
            Ok(v) => {
                proof {
                    let n = be32_at(b, 0) as i32;
                    if n >= 0 && b.len() >= 4 + n {
                        assert(b.subrange(4, 4 + 1 * n) =~= b.subrange(4, 4 + n));
                    }
                }
                Ok(Tag::ByteArray(ByteArray::new(v)))
            },
            Err(e) => Err(e),
        },
        TagType::String => match s.read_string() {
            Ok(v) => Ok(Tag::String(v)),
            Err(e) => Err(e),
        },
        TagType::List => {
            let et = match s.read_tag_type() {
                Ok(t) => t,
                Err(e) => {
                    return Err(e);
                },
            };
            let n = match s.read_int() {
                Ok(v) => v,
                Err(e) => {
                    proof {
                        assert(s.remaining() =~= b.skip(1));
                    }
                    return Err(e);
                },
            };
            proof {
                assert(s.remaining() =~= b.skip(5));
                assert(be32_at(b.skip(1), 0) == be32_at(b, 1));
            }
            if n < 0 {
                return Err(Error::NegativeLength);
            }
            let elems = match parse_elems(s, et, n as usize) {
                Ok(v) => v,
                Err(e) => {
                    return Err(e);
                },
            };
            Ok(Tag::List(et, elems))
        },
        TagType::Compound => match parse_entries(s) {
            Ok(es) => Ok(Tag::Compound(es)),
            Err(e) => Err(e),
        },
        TagType::IntArray => match s.read_bytes(4) {
            Ok(v) => {
                let arr = IntArray::new(v);
                proof {
                    let n = be32_at(b, 0) as i32;
                    if n >= 0 && b.len() >= 4 + 4 * n {
                        assert(arr.inner@.len() == 4 * n);
                        assert(arr.inner@.len() / 4 == n as int) by (nonlinear_arith)
                            requires
                                arr.inner@.len() == 4 * n,
                                n >= 0,
                        ;
                        assert(arr.view_spec() =~= ints_of_be(b.subrange(4, 4 + 4 * n),
                            n as int));
                    }
                }
                Ok(Tag::IntArray(arr))
            },
            Err(e) => Err(e),
        },
        TagType::LongArray => match s.read_bytes(8) {
            Ok(v) => {
                let arr = LongArray::new(v);
                proof {
                    let n = be32_at(b, 0) as i32;
                    if n >= 0 && b.len() >= 4 + 8 * n {
                        assert(arr.inner@.len() == 8 * n);
                        assert(arr.inner@.len() / 8 == n as int) by (nonlinear_arith)
                            requires
                                arr.inner@.len() == 8 * n,
                                n >= 0,
                        ;
                        assert(arr.view_spec() =~= longs_of_be(b.subrange(4, 4 + 8 * n),
                            n as int));
                    }
                }
                Ok(Tag::LongArray(arr))
            },
            Err(e) => Err(e),
        },
    }
}

/// Parses `n` unnamed payloads of kind `et`.
fn parse_elems(s: &mut read::Slice, et: TagType, n: usize) -> (r: Result<Vec<Tag>, Error>)
    requires
        old(s).inv(),
    ensures
        final(s).inv(),
        final(s).data@ == old(s).data@,
        ({
            match dec_elems(old(s).remaining(), et, n as int) {
                Ok(p) => r is Ok && views_of(r->Ok_0@) == p.0 && final(s).pos == old(s).pos
                    + p.1,
                Err(e) => r is Err && r->Err_0 == e,
            }
        }),
    decreases old(s).remaining().len(), n, 0int,
{
    let ghost b = old(s).remaining();
    if n == 0 {
        let empty: Vec<Tag> = Vec::new();
        proof {
            assert(views_of(empty@) =~= Seq::<TagView>::empty());
        }
        return Ok(empty);
    }
    let t = match parse_payload(s, et) {
        Ok(t) => t,
        Err(e) => {
            return Err(e);
        },
    };
    proof {
        lemma_dec_payload_bounds(b, et);
        let consumed = dec_payload(b, et)->Ok_0.1;
        assert(s.remaining() =~= b.skip(consumed));
    }
    let mut rest = match parse_elems(s, et, n - 1) {
        Ok(v) => v,
        Err(e) => {
            return Err(e);
        },
    };
    let ghost rest0 = rest@;
    let mut out: Vec<Tag> = Vec::new();
    out.push(t);
    out.append(&mut rest);
    proof {
        assert(out@ =~= seq![t] + rest0);
        assert(out@.drop_first() =~= rest0);
        assert(views_of(out@) == seq![out@[0]@] + views_of(out@.drop_first()));
        let tv = dec_payload(b, et)->Ok_0.0;
        assert(seq![t@] + views_of(rest0) =~= views_of(out@));
    }
    Ok(out)
}

/// Parses compound entries up to and including the closing `End` byte.
fn parse_entries(s: &mut read::Slice) -> (r: Result<Vec<NamedTag>, Error>)
    requires
        old(s).inv(),
    ensures
        final(s).inv(),
        final(s).data@ == old(s).data@,
        ({
            match dec_entries(old(s).remaining()) {
                Ok(p) => r is Ok && entries_of(r->Ok_0@) == p.0 && final(s).pos == old(s).pos
                    + p.1,
                Err(e) => r is Err && r->Err_0 == e,
            }
        }),
    decreases old(s).remaining().len(), 0int, 0int,
{
    let ghost b = old(s).remaining();
    let kind = match s.read_tag_type() {
        Ok(t) => t,
        Err(e) => {
            return Err(e);
        },
    };
    if kind == TagType::End {
        let empty: Vec<NamedTag> = Vec::new();
        proof {
            assert(entries_of(empty@) =~= Seq::<(Seq<char>, TagView)>::empty());
        }
        return Ok(empty);
    }
    proof {
        assert(s.remaining() =~= b.skip(1));
        if b.len() >= 3 {
            assert(b.skip(1)[0] == b[1] && b.skip(1)[1] == b[2]);
            assert(be16_at(b.skip(1), 0) == be16_at(b, 1));
            let nlen = be16_at(b, 1) as int;
            if b.len() >= 3 + nlen {
                assert(b.skip(1).subrange(2, 2 + nlen) =~= b.subrange(3, 3 + nlen));
            }
        }
    }
    let name = match s.read_string() {
        Ok(v) => v,
        Err(e) => {
            return Err(e);
        },
    };
    proof {
        let nlen = be16_at(b, 1) as int;
        assert(s.remaining() =~= b.skip(3 + nlen));
    }
    let value = match parse_payload(s, kind) {
        Ok(t) => t,
        Err(e) => {
            return Err(e);
        },
    };
    proof {
        let nlen = be16_at(b, 1) as int;
        lemma_dec_payload_bounds(b.skip(3 + nlen), kind);
        let consumed = dec_payload(b.skip(3 + nlen), kind)->Ok_0.1;
        assert(s.remaining() =~= b.skip(3 + nlen + consumed));
    }
    let mut rest = match parse_entries(s) {
        Ok(v) => v,
        Err(e) => {
            return Err(e);
        },
    };
    let ghost rest0 = rest@;
    let entry = NamedTag { name, value };
    let mut out: Vec<NamedTag> = Vec::new();
    out.push(entry);
    out.append(&mut rest);
    proof {
        assert(out@ =~= seq![entry] + rest0);
        assert(out@.drop_first() =~= rest0);
        assert(entries_of(out@) == seq![(out@[0].name@, out@[0].value@)] + entries_of(
            out@.drop_first(),
        ));
        assert(seq![(entry.name@, entry.value@)] + entries_of(rest0) =~= entries_of(out@));
    }
    Ok(out)
}

/// Parses a whole document from a byte slice, returning the top-level tag's
/// name together with its value; bytes after the document are ignored, as a
/// streaming reader would leave them unread.
pub fn from_slice_named(data: &[u8]) -> (r: Result<(String, Tag), Error>)
    ensures
        ({
            match dec_document(data@) {
                Ok(p) => r is Ok && r->Ok_0.0@ == p.0 && r->Ok_0.1@ == p.1,
                Err(e) => r is Err && r->Err_0 == e,
            }
        }),
{
    let mut s = read::Slice::new(data);
    let kind = match s.read_tag_type() {
        Ok(t) => t,
        Err(e) => {
            return Err(e);
        },
    };
    proof {
        assert(s.remaining() =~= data@.skip(1));
        if data@.len() >= 3 {
            assert(data@.skip(1)[0] == data@[1] && data@.skip(1)[1] == data@[2]);
            assert(be16_at(data@.skip(1), 0) == be16_at(data@, 1));
            let nlen = be16_at(data@, 1) as int;
            if data@.len() >= 3 + nlen {
                assert(data@.skip(1).subrange(2, 2 + nlen) =~= data@.subrange(3, 3 + nlen));
            }
        }
    }
    let name = match s.read_string() {
        Ok(v) => v,
        Err(e) => {
            return Err(e);
        },
    };
    if !(kind == TagType::Compound || kind == TagType::List) {
        return Err(Error::InvalidTopLevel(kind));
    }
    proof {
        let nlen = be16_at(data@, 1) as int;
        assert(s.remaining() =~= data@.skip(3 + nlen));
    }
    match parse_payload(&mut s, kind) {
        Ok(t) => Ok((name, t)),
        Err(e) => Err(e),
    }
}

/// Parses a whole document from a byte slice and discards the top-level
/// tag's name.
pub fn from_slice(data: &[u8]) -> (r: Result<Tag, Error>)
    ensures
        ({
            match dec_document(data@) {
                Ok(p) => r is Ok && r->Ok_0@ == p.1,
                Err(e) => r is Err && r->Err_0 == e,
            }
        }),
{
    match from_slice_named(data) {
        Ok((_, t)) => Ok(t),
        Err(e) => Err(e),
    }
}

proof fn bv_round8(x: u8, y: i8)
    by (bit_vector)
    ensures
        (x as i8) as u8 == x,
        (y as u8) as i8 == y,
{
}

proof fn bv_round16(x0: u8, x1: u8, v: u16, y: i16)
    by (bit_vector)
    ensures
        ({
            let w = ((x0 as u16) << 8) | (x1 as u16);
            (w >> 8) as u8 == x0 && w as u8 == x1
        }),
        ((((v >> 8) as u8) as u16) << 8) | ((v as u8) as u16) == v,
        (v as i16) as u16 == v,
        (y as u16) as i16 == y,
{
}

proof fn bv_round32(x0: u8, x1: u8, x2: u8, x3: u8, v: u32, y: i32)
    by (bit_vector)
    ensures
        ({
            let w = ((x0 as u32) << 24) | ((x1 as u32) << 16) | ((x2 as u32) << 8) | (x3 as u32);
            (w >> 24) as u8 == x0 && (w >> 16) as u8 == x1 && (w >> 8) as u8 == x2 && w as u8
                == x3
        }),
        ((((v >> 24) as u8) as u32) << 24) | ((((v >> 16) as u8) as u32) << 16) | ((((v
            >> 8) as u8) as u32) << 8) | ((v as u8) as u32) == v,
        (v as i32) as u32 == v,
        (y as u32) as i32 == y,
        (v as i32) >= 0 <==> v <= 0x7fffffff,
        v <= 0x7fffffff ==> (v as i32) == v as int,
{
}

proof fn bv_round64(
    x0: u8, x1: u8, x2: u8, x3: u8, x4: u8, x5: u8, x6: u8, x7: u8, v: u64, y: i64,
)
    by (bit_vector)
    ensures
        ({
            let w = ((x0 as u64) << 56) | ((x1 as u64) << 48) | ((x2 as u64) << 40) | ((
            x3 as u64) << 32) | ((x4 as u64) << 24) | ((x5 as u64) << 16) | ((x6 as u64) << 8)
                | (x7 as u64);
            (w >> 56) as u8 == x0 && (w >> 48) as u8 == x1 && (w >> 40) as u8 == x2 && (w
                >> 32) as u8 == x3 && (w >> 24) as u8 == x4 && (w >> 16) as u8 == x5 && (w
                >> 8) as u8 == x6 && w as u8 == x7
        }),
        ((((v >> 56) as u8) as u64) << 56) | ((((v >> 48) as u8) as u64) << 48) | ((((v
            >> 40) as u8) as u64) << 40) | ((((v >> 32) as u8) as u64) << 32) | ((((v
            >> 24) as u8) as u64) << 24) | ((((v >> 16) as u8) as u64) << 16) | ((((v
            >> 8) as u8) as u64) << 8) | ((v as u8) as u64) == v,
        (v as i64) as u64 == v,
        (y as u64) as i64 == y,
{
}

proof fn bv_u64be(x0: u8, x1: u8, x2: u8, x3: u8, x4: u8, x5: u8, x6: u8, x7: u8, v: u64)
    by (bit_vector)
    requires
        v == u64_be(x0, x1, x2, x3, x4, x5, x6, x7),
    ensures
        (v >> 56) as u8 == x0,
        (v >> 48) as u8 == x1,
        (v >> 40) as u8 == x2,
        (v >> 32) as u8 == x3,
        (v >> 24) as u8 == x4,
        (v >> 16) as u8 == x5,
        (v >> 8) as u8 == x6,
        v as u8 == x7,
        (v as i64) as u64 == v,
{
}

/// The wire bytes of the integers read from big-endian bytes are those
/// bytes back.
proof fn lemma_ints_wire_of_be(sub: Seq<u8>, n: int)
    requires
        n >= 0,
        sub.len() == 4 * n,
    ensures
        ints_wire(ints_of_be(sub, n)) == sub,
    decreases n,
{
    let ints = ints_of_be(sub, n);
    if n == 0 {
        assert(ints.len() == 0);
        assert(ints_wire(ints) =~= sub);
    } else {
        lemma_ints_wire_of_be(sub.skip(4), n - 1);
        assert(ints.drop_first() =~= ints_of_be(sub.skip(4), n - 1));
        let v = u32_be(sub[0], sub[1], sub[2], sub[3]);
        bv_round32(sub[0], sub[1], sub[2], sub[3], v, 0);
        assert(ints[0] == v as i32);
        assert(be4((v as i32) as u32) =~= seq![sub[0], sub[1], sub[2], sub[3]]);
        assert(ints_wire(ints) == be4(ints[0] as u32) + ints_wire(ints.drop_first()));
        assert(be4(ints[0] as u32) + sub.skip(4) =~= sub);
    }
}

/// The wire bytes of the integers read from big-endian bytes are those
/// bytes back.
proof fn lemma_longs_wire_of_be(sub: Seq<u8>, n: int)
    requires
        n >= 0,
        sub.len() == 8 * n,
    ensures
        longs_wire(longs_of_be(sub, n)) == sub,
    decreases n,
{
    let ints = longs_of_be(sub, n);
    if n == 0 {
        assert(ints.len() == 0);
        assert(longs_wire(ints) =~= sub);
    } else {
        lemma_longs_wire_of_be(sub.skip(8), n - 1);
        let v = u64_be(sub[0], sub[1], sub[2], sub[3], sub[4], sub[5], sub[6], sub[7]);
        bv_u64be(sub[0], sub[1], sub[2], sub[3], sub[4], sub[5], sub[6], sub[7], v);
        assert forall|i: int| 0 <= i < n - 1 implies ints.drop_first()[i] == longs_of_be(
            sub.skip(8), n - 1)[i] by {
            assert(ints[i + 1] == u64_be(sub[8 * (i + 1)], sub[8 * (i + 1) + 1], sub[8 * (i + 1)
                + 2], sub[8 * (i + 1) + 3], sub[8 * (i + 1) + 4], sub[8 * (i + 1) + 5], sub[8 * (
            i + 1) + 6], sub[8 * (i + 1) + 7]) as i64);
            assert(longs_of_be(sub.skip(8), n - 1)[i] == u64_be(sub.skip(8)[8 * i], sub.skip(
                8)[8 * i + 1], sub.skip(8)[8 * i + 2], sub.skip(8)[8 * i + 3], sub.skip(8)[8 * i
                + 4], sub.skip(8)[8 * i + 5], sub.skip(8)[8 * i + 6], sub.skip(8)[8 * i
                + 7]) as i64);
        };
        assert(ints.drop_first() =~= longs_of_be(sub.skip(8), n - 1));
        assert(ints[0] == v as i64);
        assert(be8((v as i64) as u64) =~= seq![
            sub[0], sub[1], sub[2], sub[3], sub[4], sub[5], sub[6], sub[7],
        ]);
        assert(longs_wire(ints) == be8(ints[0] as u64) + longs_wire(ints.drop_first()));
        assert(be8(ints[0] as u64) + sub.skip(8) =~= sub);
    }
}

/// What the parser accepts for a byte array re-encodes to the consumed
/// bytes.
proof fn lemma_dec_byte_array_exact(b: Seq<u8>)
    ensures
        dec_payload(b, TagType::ByteArray) matches Ok(p) ==> wf(p.0) && p.0.kind()
            == TagType::ByteArray && enc(p.0) == b.subrange(0, p.1),
{
    if dec_payload(b, TagType::ByteArray) is Ok {
        let v = be32_at(b, 0);
        let n = v as i32;
        bv_round32(b[0], b[1], b[2], b[3], v, 0);
        let sub = b.subrange(4, 4 + n);
        let t = TagView::ByteArray(sub);
        assert(sub.len() == n);
        assert((sub.len() as u32) == v);
        assert(be4(v) =~= seq![b[0], b[1], b[2], b[3]]);
        assert(enc(t) =~= b.subrange(0, 4 + n));
    }
}

/// What the parser accepts for a string re-encodes to the consumed bytes.
proof fn lemma_dec_string_exact(b: Seq<u8>)
    ensures
        dec_payload(b, TagType::String) matches Ok(p) ==> wf(p.0) && p.0.kind()
            == TagType::String && enc(p.0) == b.subrange(0, p.1),
{
    if dec_payload(b, TagType::String) is Ok {
        let n = be16_at(b, 0) as int;
        let strb = b.subrange(2, 2 + n);
        let u = mutf8_to_utf8(strb)->0;
        lemma_mutf8_to_utf8_canonical(strb);
        lemma_mutf8_of_utf8_chars(u);
        let sv = decode_utf8(u);
        assert(mutf8(sv) == strb);
        assert(mutf8(sv).len() == n <= 0xffff);
        bv_round16(b[0], b[1], be16_at(b, 0), 0);
        assert((mutf8(sv).len() as u16) == be16_at(b, 0));
        assert(be2(be16_at(b, 0)) =~= seq![b[0], b[1]]);
        let t = TagView::String(sv);
        assert(enc(t) =~= b.subrange(0, 2 + n));
    }
}

/// What the parser accepts for an integer array re-encodes to the consumed
/// bytes.
proof fn lemma_dec_int_array_exact(b: Seq<u8>)
    ensures
        dec_payload(b, TagType::IntArray) matches Ok(p) ==> wf(p.0) && p.0.kind()
            == TagType::IntArray && enc(p.0) == b.subrange(0, p.1),
{
    if dec_payload(b, TagType::IntArray) is Ok {
        let v = be32_at(b, 0);
        let n = v as i32;
        bv_round32(b[0], b[1], b[2], b[3], v, 0);
        let sub = b.subrange(4, 4 + 4 * n);
        lemma_ints_wire_of_be(sub, n as int);
        let ints = ints_of_be(sub, n as int);
        let t = TagView::IntArray(ints);
        assert(ints.len() == n);
        assert((ints.len() as u32) == v);
        assert(be4(v) =~= seq![b[0], b[1], b[2], b[3]]);
        assert(enc(t) == be4(v) + sub);
        assert(be4(v) + sub =~= b.subrange(0, 4 + 4 * n));
    }
}

/// What the parser accepts for a long array re-encodes to the consumed
/// bytes.
proof fn lemma_dec_long_array_exact(b: Seq<u8>)
    ensures
        dec_payload(b, TagType::LongArray) matches Ok(p) ==> wf(p.0) && p.0.kind()
            == TagType::LongArray && enc(p.0) == b.subrange(0, p.1),
{
    if dec_payload(b, TagType::LongArray) is Ok {
        let v = be32_at(b, 0);
        let n = v as i32;
        bv_round32(b[0], b[1], b[2], b[3], v, 0);
        let sub = b.subrange(4, 4 + 8 * n);
        lemma_longs_wire_of_be(sub, n as int);
        let ints = longs_of_be(sub, n as int);
        let t = TagView::LongArray(ints);
        assert(ints.len() == n);
        assert((ints.len() as u32) == v);
        assert(be4(v) =~= seq![b[0], b[1], b[2], b[3]]);
        assert(enc(t) == be4(v) + sub);
        assert(be4(v) + sub =~= b.subrange(0, 4 + 8 * n));
    }
}

/// What the parser accepts is exactly the encoding of what it returns: the
/// decoded value is well formed, has the asked-for kind, and re-encodes to
/// the consumed bytes.
pub proof fn lemma_dec_payload_exact(b: Seq<u8>, kind: TagType)
    ensures
        dec_payload(b, kind) matches Ok(p) ==> wf(p.0) && p.0.kind() == kind && enc(p.0)
            == b.subrange(0, p.1),
    decreases b.len(), 0int, 1int,
{
    match dec_payload(b, kind) {
        Err(_) => {},
        Ok((t, used)) => match kind {
            TagType::End => {},
            TagType::Byte => {
                bv_round8(b[0], 0);
                assert(enc(t) =~= b.subrange(0, 1));
            },
            TagType::Short => {
                let v = be16_at(b, 0);
                bv_round16(b[0], b[1], v, 0);
                assert(enc(t) =~= b.subrange(0, 2));
            },
            TagType::Int => {
                let v = be32_at(b, 0);
                bv_round32(b[0], b[1], b[2], b[3], v, 0);
                assert(enc(t) =~= b.subrange(0, 4));
            },
            TagType::Long => {
                let v = be64_at(b, 0);
                bv_round64(b[0], b[1], b[2], b[3], b[4], b[5], b[6], b[7], v, 0);
                assert(enc(t) =~= b.subrange(0, 8));
            },
            TagType::Float => {
                let v = be32_at(b, 0);
                bv_round32(b[0], b[1], b[2], b[3], v, 0);
                assert(enc(t) =~= b.subrange(0, 4));
            },
            TagType::Double => {
                let v = be64_at(b, 0);
                bv_round64(b[0], b[1], b[2], b[3], b[4], b[5], b[6], b[7], v, 0);
                assert(enc(t) =~= b.subrange(0, 8));
            },
            TagType::ByteArray => {
                lemma_dec_byte_array_exact(b);
            },
            TagType::String => {
                lemma_dec_string_exact(b);
            },
            TagType::List => {
                let et = TagType::spec_from_u8(b[0])->0;
                lemma_tag_type_code_round_trip(et, b[0]);
                let v = be32_at(b, 1);
                let n = v as i32;
                bv_round32(b[1], b[2], b[3], b[4], v, 0);
                lemma_dec_elems_exact(b.skip(5), et, n as int);
                match dec_elems(b.skip(5), et, n as int) {
                    Ok((ts, used2)) => {
                        assert(n >= 0);
                        assert(v <= 0x7fffffff);
                        assert(n as int == v as int);
                        assert(ts.len() == n as int);
                        assert(ts.len() == v as int);
                        if et == TagType::End && n > 0 {
                            assert(dec_payload(b.skip(5), TagType::End) == Result::<(
                                TagView,
                                int,
                            ), Error>::Err(Error::UnexpectedEndTag));
                            assert(dec_elems(b.skip(5), et, n as int) is Err);
                            assert(false);
                        }
                        assert(t == TagView::List(et, ts));
                        assert(wf(t));
                        lemma_dec_elems_bounds(b.skip(5), et, n as int);
                        assert(0 <= used2 <= b.len() - 5);
                        assert((ts.len() as u32) == v);
                        assert(be4(v) =~= seq![b[1], b[2], b[3], b[4]]);
                        assert(enc_list(ts) == b.skip(5).subrange(0, used2));
                        assert(enc(t) == seq![et.as_u8()] + be4((ts.len() as u32)) + enc_list(
                            ts,
                        ));
                        assert(enc(t) =~= b.subrange(0, 5 + used2));
                    },
                    Err(_) => {},
                }
            },
            TagType::Compound => {
                lemma_dec_entries_exact(b);
                match dec_entries(b) {
                    Ok((es, used2)) => {
                        assert(enc(t) == enc_entries(es) + seq![0u8]);
                        assert(enc(t) == b.subrange(0, used2));
                    },
                    Err(_) => {},
                }
            },
            TagType::IntArray => {
                lemma_dec_int_array_exact(b);
            },
            TagType::LongArray => {
                lemma_dec_long_array_exact(b);
            },
        },
    }
}

/// What a run of element decodes accepts is exactly the encoding of the
/// elements it returns.
pub proof fn lemma_dec_elems_exact(b: Seq<u8>, et: TagType, n: int)
    ensures
        dec_elems(b, et, n) matches Ok(p) ==> wf_list(et, p.0) && p.0.len() == (if n >= 0 {
            n
        } else {
            0
        }) && enc_list(p.0) == b.subrange(0, p.1),
    decreases b.len(), n, 0int,
{
    if n <= 0 {
        assert(enc_list(Seq::<TagView>::empty()) =~= b.subrange(0, 0));
    } else {
        match dec_payload(b, et) {
            Ok((t, used)) => {
                if 1 <= used <= b.len() {
                    lemma_dec_payload_exact(b, et);
                    lemma_dec_elems_exact(b.skip(used), et, n - 1);
                    match dec_elems(b.skip(used), et, n - 1) {
                        Ok((rest, used2)) => {
                            lemma_dec_elems_bounds(b.skip(used), et, n - 1);
                            let whole = seq![t] + rest;
                            assert(whole.drop_first() =~= rest);
                            assert(whole[0] == t);
                            assert(enc_list(whole) == enc(whole[0]) + enc_list(
                                whole.drop_first()));
                            assert(enc(t) + enc_list(rest) =~= b.subrange(0, used + used2));
                        },
                        Err(_) => {},
                    }
                }
            },
            Err(_) => {},
        }
    }
}

/// What a run of entry decodes accepts is exactly the encoding of the
/// entries it returns, closed by the `End` byte.
#[verifier::rlimit(100)]
pub proof fn lemma_dec_entries_exact(b: Seq<u8>)
    ensures
        dec_entries(b) matches Ok(p) ==> wf_entries(p.0) && enc_entries(p.0) + seq![0u8]
            == b.subrange(0, p.1),
    decreases b.len(), 0int, 0int,
{
    if b.len() >= 1 && TagType::spec_from_u8(b[0]) is Some {
        let kind = TagType::spec_from_u8(b[0])->0;
        lemma_tag_type_code_round_trip(kind, b[0]);
        if kind == TagType::End {
            assert(enc_entries(Seq::<(Seq<char>, TagView)>::empty()) + seq![0u8] =~= b.subrange(
                0, 1));
        } else if b.len() >= 3 {
            let nlen = be16_at(b, 1) as int;
            if b.len() >= 3 + nlen && mutf8_to_utf8(b.subrange(3, 3 + nlen)) is Some {
                let strb = b.subrange(3, 3 + nlen);
                let u = mutf8_to_utf8(strb)->0;
                lemma_mutf8_to_utf8_canonical(strb);
                lemma_mutf8_of_utf8_chars(u);
                let name = decode_utf8(u);
                assert(mutf8(name) == strb);
                match dec_payload(b.skip(3 + nlen), kind) {
                    Ok((t, used)) => {
                        if 1 <= used <= b.len() - 3 - nlen {
                            lemma_dec_payload_exact(b.skip(3 + nlen), kind);
                            lemma_dec_entries_exact(b.skip(3 + nlen + used));
                            match dec_entries(b.skip(3 + nlen + used)) {
                                Ok((rest, used2)) => {
                                    lemma_dec_entries_bounds(b.skip(3 + nlen + used));
                                    let whole = seq![(name, t)] + rest;
                                    assert(whole.drop_first() =~= rest);
                                    assert(whole[0] == (name, t));
                                    assert(enc_entries(whole) == enc_entry(whole[0].0,
                                        whole[0].1) + enc_entries(whole.drop_first()));
                                    bv_round16(b[1], b[2], be16_at(b, 1), 0);
                                    assert((mutf8(name).len() as u16) == be16_at(b, 1));
                                    assert(enc_entry(name, t) =~= b.subrange(0, 3 + nlen
                                        + used));
                                    assert(enc_entry(name, t) + (enc_entries(rest) + seq![0u8])
                                        =~= b.subrange(0, 3 + nlen + used + used2));
                                    assert(enc_entries(whole) + seq![0u8] =~= enc_entry(name, t)
                                        + (enc_entries(rest) + seq![0u8]));
                                },
                                Err(_) => {},
                            }
                        }
                    },
                    Err(_) => {},
                }
            }
        }
    }
}

proof fn bv_u64be_of(x: u64)
    by (bit_vector)
    ensures
        u64_be(
            (x >> 56) as u8, (x >> 48) as u8, (x >> 40) as u8, (x >> 32) as u8,
            (x >> 24) as u8, (x >> 16) as u8, (x >> 8) as u8, x as u8,
        ) == x,
{
}

/// The wire bytes of a sequence of integers are four per integer.
proof fn lemma_ints_wire_len(v: Seq<i32>)
    ensures
        ints_wire(v).len() == 4 * v.len(),
    decreases v.len(),
{
    if v.len() > 0 {
        lemma_ints_wire_len(v.drop_first());
    }
}

/// The wire bytes of a sequence of longs are eight per integer.
proof fn lemma_longs_wire_len(v: Seq<i64>)
    ensures
        longs_wire(v).len() == 8 * v.len(),
    decreases v.len(),
{
    if v.len() > 0 {
        lemma_longs_wire_len(v.drop_first());
    }
}

/// Reading integers back from their own wire bytes gives them back.
proof fn lemma_ints_of_wire(v: Seq<i32>)
    ensures
        ints_of_be(ints_wire(v), v.len() as int) == v,
    decreases v.len(),
{
    lemma_ints_wire_len(v);
    let w = ints_wire(v);
    if v.len() == 0 {
        assert(ints_of_be(w, 0) =~= v);
    } else {
        lemma_ints_of_wire(v.drop_first());
        lemma_ints_wire_len(v.drop_first());
        let tailw = ints_wire(v.drop_first());
        assert(w == be4(v[0] as u32) + tailw);
        assert forall|i: int| 0 <= i < v.len() implies ints_of_be(w, v.len() as int)[i]
            == v[i] by {
            if i == 0 {
                let x = v[0] as u32;
                bv_round32(0, 0, 0, 0, x, v[0]);
                assert(w[0] == (x >> 24) as u8 && w[1] == (x >> 16) as u8 && w[2] == (x
                    >> 8) as u8 && w[3] == x as u8);
                assert(u32_be(w[0], w[1], w[2], w[3]) == x);
            } else {
                assert(w[4 * i] == tailw[4 * (i - 1)]);
                assert(w[4 * i + 1] == tailw[4 * (i - 1) + 1]);
                assert(w[4 * i + 2] == tailw[4 * (i - 1) + 2]);
                assert(w[4 * i + 3] == tailw[4 * (i - 1) + 3]);
                assert(ints_of_be(tailw, v.len() - 1)[i - 1] == v.drop_first()[i - 1]);
                assert(u32_be(tailw[4 * (i - 1)], tailw[4 * (i - 1) + 1], tailw[4 * (i - 1)
                    + 2], tailw[4 * (i - 1) + 3]) as i32 == v[i]);
            }
        };
        assert(ints_of_be(w, v.len() as int) =~= v);
    }
}

/// Reading longs back from their own wire bytes gives them back.
proof fn lemma_longs_of_wire(v: Seq<i64>)
    ensures
        longs_of_be(longs_wire(v), v.len() as int) == v,
    decreases v.len(),
{
    lemma_longs_wire_len(v);
    let w = longs_wire(v);
    if v.len() == 0 {
        assert(longs_of_be(w, 0) =~= v);
    } else {
        lemma_longs_of_wire(v.drop_first());
        lemma_longs_wire_len(v.drop_first());
        let tailw = longs_wire(v.drop_first());
        assert(w == be8(v[0] as u64) + tailw);
        assert forall|i: int| 0 <= i < v.len() implies longs_of_be(w, v.len() as int)[i]
            == v[i] by {
            if i == 0 {
                let x = v[0] as u64;
                bv_round64(0, 0, 0, 0, 0, 0, 0, 0, x, v[0]);
                assert(w[0] == (x >> 56) as u8 && w[1] == (x >> 48) as u8 && w[2] == (x
                    >> 40) as u8 && w[3] == (x >> 32) as u8 && w[4] == (x >> 24) as u8 && w[5]
                    == (x >> 16) as u8 && w[6] == (x >> 8) as u8 && w[7] == x as u8);
                bv_u64be_of(x);
                assert(u64_be(w[0], w[1], w[2], w[3], w[4], w[5], w[6], w[7]) == x);
            } else {
                assert(w[8 * i] == tailw[8 * (i - 1)]);
                assert(w[8 * i + 1] == tailw[8 * (i - 1) + 1]);
                assert(w[8 * i + 2] == tailw[8 * (i - 1) + 2]);
                assert(w[8 * i + 3] == tailw[8 * (i - 1) + 3]);
                assert(w[8 * i + 4] == tailw[8 * (i - 1) + 4]);
                assert(w[8 * i + 5] == tailw[8 * (i - 1) + 5]);
                assert(w[8 * i + 6] == tailw[8 * (i - 1) + 6]);
                assert(w[8 * i + 7] == tailw[8 * (i - 1) + 7]);
                assert(longs_of_be(tailw, v.len() - 1)[i - 1] == v.drop_first()[i - 1]);
                assert(u64_be(tailw[8 * (i - 1)], tailw[8 * (i - 1) + 1], tailw[8 * (i - 1)
                    + 2], tailw[8 * (i - 1) + 3], tailw[8 * (i - 1) + 4], tailw[8 * (i - 1)
                    + 5], tailw[8 * (i - 1) + 6], tailw[8 * (i - 1) + 7]) as i64 == v[i]);
            }
        };
        assert(longs_of_be(w, v.len() as int) =~= v);
    }
}

/// A well-formed value never encodes to nothing.
proof fn lemma_enc_len_pos(t: TagView)
    requires
        wf(t),
    ensures
        enc(t).len() >= 1,
{
    match t {
        TagView::List(et, v) => {
            assert(enc(t).len() >= 5);
        },
        TagView::IntArray(v) => {
            assert(enc(t).len() >= 4);
        },
        TagView::LongArray(v) => {
            assert(enc(t).len() >= 4);
        },
        _ => {},
    }
}

/// Decoding the encoding of a well-formed value gives the value back,
/// whatever bytes follow it.
#[verifier::rlimit(100)]
pub proof fn lemma_enc_dec_payload(t: TagView, rest: Seq<u8>)
    requires
        wf(t),
    ensures
        dec_payload(enc(t) + rest, t.kind()) == Result::<(TagView, int), Error>::Ok(
            (t, enc(t).len() as int),
        ),
    decreases t, 0int,
{
    let b = enc(t) + rest;
    match t {
        TagView::End => {},
        TagView::Byte(y) => {
            bv_round8(0, y);
            assert(b[0] == y as u8);
            assert(dec_payload(b, TagType::Byte) == Result::<(TagView, int), Error>::Ok(
                (TagView::Byte((y as u8) as i8), 1int),
            ));
        },
        TagView::Short(y) => {
            let vu = y as u16;
            bv_round16(0, 0, vu, y);
            assert(b[0] == (vu >> 8) as u8 && b[1] == vu as u8);
            assert(be16_at(b, 0) == vu);
        },
        TagView::Int(y) => {
            let vu = y as u32;
            bv_round32(0, 0, 0, 0, vu, y);
            assert(b[0] == (vu >> 24) as u8 && b[1] == (vu >> 16) as u8 && b[2] == (vu
                >> 8) as u8 && b[3] == vu as u8);
            assert(be32_at(b, 0) == vu);
        },
        TagView::Long(y) => {
            let vu = y as u64;
            bv_round64(0, 0, 0, 0, 0, 0, 0, 0, vu, y);
            assert(b[0] == (vu >> 56) as u8 && b[1] == (vu >> 48) as u8 && b[2] == (vu
                >> 40) as u8 && b[3] == (vu >> 32) as u8 && b[4] == (vu >> 24) as u8 && b[5]
                == (vu >> 16) as u8 && b[6] == (vu >> 8) as u8 && b[7] == vu as u8);
            assert(be64_at(b, 0) == vu);
        },
        TagView::Float(vu) => {
            bv_round32(0, 0, 0, 0, vu, 0);
            assert(b[0] == (vu >> 24) as u8 && b[1] == (vu >> 16) as u8 && b[2] == (vu
                >> 8) as u8 && b[3] == vu as u8);
            assert(be32_at(b, 0) == vu);
        },
        TagView::Double(vu) => {
            bv_round64(0, 0, 0, 0, 0, 0, 0, 0, vu, 0);
            assert(b[0] == (vu >> 56) as u8 && b[1] == (vu >> 48) as u8 && b[2] == (vu
                >> 40) as u8 && b[3] == (vu >> 32) as u8 && b[4] == (vu >> 24) as u8 && b[5]
                == (vu >> 16) as u8 && b[6] == (vu >> 8) as u8 && b[7] == vu as u8);
            assert(be64_at(b, 0) == vu);
        },
        TagView::ByteArray(bytes) => {
            let lu = bytes.len() as u32;
            bv_round32(0, 0, 0, 0, lu, 0);
            assert(b[0] == (lu >> 24) as u8 && b[1] == (lu >> 16) as u8 && b[2] == (lu
                >> 8) as u8 && b[3] == lu as u8);
            assert(be32_at(b, 0) == lu);
            assert((lu as i32) as int == bytes.len());
            assert(b.subrange(4, 4 + bytes.len() as int) =~= bytes);
        },
        TagView::String(sv) => {
            let m = mutf8(sv);
            let lu = m.len() as u16;
            bv_round16(0, 0, lu, 0);
            assert(b[0] == (lu >> 8) as u8 && b[1] == lu as u8);
            assert(be16_at(b, 0) == lu);
            assert(b.subrange(2, 2 + m.len() as int) =~= m);
            crate::mutf8::lemma_mutf8_to_utf8_of_mutf8(sv);
            vstd::utf8::encode_utf8_decode_utf8(sv);
        },
        TagView::List(et, ts) => {
            lemma_tag_type_code_round_trip(et, 0);
            assert(b[0] == et.as_u8());
            let lu = ts.len() as u32;
            bv_round32(0, 0, 0, 0, lu, 0);
            assert(b[1] == (lu >> 24) as u8 && b[2] == (lu >> 16) as u8 && b[3] == (lu
                >> 8) as u8 && b[4] == lu as u8);
            assert(be32_at(b, 1) == lu);
            assert((lu as i32) as int == ts.len());
            assert(b.skip(5) =~= enc_list(ts) + rest);
            lemma_enc_dec_elems(et, ts, rest);
        },
        TagView::Compound(es) => {
            assert(b =~= enc_entries(es) + (seq![0u8] + rest));
            lemma_enc_dec_entries(es, rest);
            assert(enc_entries(es) + (seq![0u8] + rest) =~= (enc_entries(es) + seq![0u8])
                + rest);
        },
        TagView::IntArray(v) => {
            lemma_ints_wire_len(v);
            let lu = v.len() as u32;
            bv_round32(0, 0, 0, 0, lu, 0);
            assert(b[0] == (lu >> 24) as u8 && b[1] == (lu >> 16) as u8 && b[2] == (lu
                >> 8) as u8 && b[3] == lu as u8);
            assert(be32_at(b, 0) == lu);
            assert((lu as i32) as int == v.len());
            assert(b.subrange(4, 4 + 4 * v.len() as int) =~= ints_wire(v));
            lemma_ints_of_wire(v);
        },
        TagView::LongArray(v) => {
            lemma_longs_wire_len(v);
            let lu = v.len() as u32;
            bv_round32(0, 0, 0, 0, lu, 0);
            assert(b[0] == (lu >> 24) as u8 && b[1] == (lu >> 16) as u8 && b[2] == (lu
                >> 8) as u8 && b[3] == lu as u8);
            assert(be32_at(b, 0) == lu);
            assert((lu as i32) as int == v.len());
            assert(b.subrange(4, 4 + 8 * v.len() as int) =~= longs_wire(v));
            lemma_longs_of_wire(v);
        },
    }
}

/// Decoding the encodings of well-formed elements gives them back.
#[verifier::rlimit(100)]
pub proof fn lemma_enc_dec_elems(et: TagType, ts: Seq<TagView>, rest: Seq<u8>)
    requires
        wf_list(et, ts),
    ensures
        dec_elems(enc_list(ts) + rest, et, ts.len() as int) == Result::<(
            Seq<TagView>,
            int,
        ), Error>::Ok((ts, enc_list(ts).len() as int)),
    decreases ts, 0int,
{
    let b = enc_list(ts) + rest;
    if ts.len() == 0 {
        assert(dec_elems(b, et, 0) == Result::<(Seq<TagView>, int), Error>::Ok(
            (Seq::<TagView>::empty(), 0int),
        ));
        assert(ts =~= Seq::<TagView>::empty());
        assert(enc_list(ts).len() == 0);
    } else {
        let t0 = ts[0];
        assert(wf(t0) && t0.kind() == et);
        lemma_enc_len_pos(t0);
        assert(b =~= enc(t0) + (enc_list(ts.drop_first()) + rest));
        lemma_enc_dec_payload(t0, enc_list(ts.drop_first()) + rest);
        let used = enc(t0).len() as int;
        assert(1 <= used <= b.len());
        assert(b.skip(used) =~= enc_list(ts.drop_first()) + rest);
        lemma_enc_dec_elems(et, ts.drop_first(), rest);
        assert(seq![t0] + ts.drop_first() =~= ts);
    }
}

/// Decoding the encodings of well-formed entries, closed by the `End`
/// byte, gives them back.
#[verifier::rlimit(100)]
pub proof fn lemma_enc_dec_entries(es: Seq<(Seq<char>, TagView)>, rest: Seq<u8>)
    requires
        wf_entries(es),
    ensures
        dec_entries((enc_entries(es) + seq![0u8]) + rest) == Result::<(
            Seq<(Seq<char>, TagView)>,
            int,
        ), Error>::Ok((es, enc_entries(es).len() as int + 1)),
    decreases es, 0int,
{
    let b = (enc_entries(es) + seq![0u8]) + rest;
    if es.len() == 0 {
        assert(b[0] == 0);
        assert(TagType::spec_from_u8(0) == Some(TagType::End));
        assert(es =~= Seq::<(Seq<char>, TagView)>::empty());
        assert(enc_entries(es).len() == 0);
    } else {
        let (name, t0) = es[0];
        assert(mutf8(name).len() <= 0xffff && t0.kind() != TagType::End && wf(t0));
        let m = mutf8(name);
        let nlen = m.len() as int;
        let tail = (enc_entries(es.drop_first()) + seq![0u8]) + rest;
        assert(b =~= enc_entry(name, t0) + tail);
        assert(b[0] == t0.kind().as_u8());
        lemma_tag_type_code_round_trip(t0.kind(), 0);
        assert(TagType::spec_from_u8(b[0]) == Some(t0.kind()));
        let lu = m.len() as u16;
        bv_round16(0, 0, lu, 0);
        assert(b[1] == (lu >> 8) as u8 && b[2] == lu as u8);
        assert(be16_at(b, 1) == lu);
        assert(b.subrange(3, 3 + nlen) =~= m);
        crate::mutf8::lemma_mutf8_to_utf8_of_mutf8(name);
        vstd::utf8::encode_utf8_decode_utf8(name);
        assert(b.skip(3 + nlen) =~= enc(t0) + tail);
        lemma_enc_dec_payload(t0, tail);
        lemma_enc_len_pos(t0);
        let used = enc(t0).len() as int;
        assert(1 <= used <= b.len() - 3 - nlen);
        assert(b.skip(3 + nlen + used) =~= tail);
        lemma_enc_dec_entries(es.drop_first(), rest);
        assert(seq![(name, t0)] + es.drop_first() =~= es);
    }
}

/// A whole decodable document re-encodes to itself, byte for byte: the
/// round trip of decoding followed by encoding is the identity on every
/// document that decodes completely.
pub proof fn lemma_document_round_trip(b: Seq<u8>)
    requires
        dec_document(b) matches Ok(p) && p.2 == b.len(),
    ensures
        ({
            let p = dec_document(b)->Ok_0;
            &&& wf(p.1)
            &&& crate::ser::wf_document(p.0, p.1)
            &&& crate::ser::enc_document(p.0, p.1) == b
        }),
{
    let p = dec_document(b)->Ok_0;
    let kind = TagType::spec_from_u8(b[0])->0;
    lemma_tag_type_code_round_trip(kind, b[0]);
    let nlen = be16_at(b, 1) as int;
    let strb = b.subrange(3, 3 + nlen);
    let u = mutf8_to_utf8(strb)->0;
    lemma_mutf8_to_utf8_canonical(strb);
    lemma_mutf8_of_utf8_chars(u);
    assert(mutf8(p.0) == strb);
    bv_round16(b[1], b[2], be16_at(b, 1), 0);
    assert((mutf8(p.0).len() as u16) == be16_at(b, 1));
    lemma_dec_payload_exact(b.skip(3 + nlen), kind);
    lemma_dec_payload_bounds(b.skip(3 + nlen), kind);
    let used = dec_payload(b.skip(3 + nlen), kind)->Ok_0.1;
    assert(enc(p.1) == b.skip(3 + nlen).subrange(0, used));
    assert(be2(be16_at(b, 1)) =~= seq![b[1], b[2]]);
    assert(crate::ser::enc_document(p.0, p.1) =~= b);
}

/// Encoding a well-formed document and decoding it gives the document
/// back: the round trip of encoding followed by decoding is the identity
/// on every well-formed named top-level value.
pub proof fn lemma_value_round_trip(name: Seq<char>, t: TagView)
    requires
        crate::ser::wf_document(name, t),
    ensures
        dec_document(crate::ser::enc_document(name, t)) == Result::<(
            Seq<char>,
            TagView,
            int,
        ), Error>::Ok((name, t, crate::ser::enc_document(name, t).len() as int)),
{
    let b = crate::ser::enc_document(name, t);
    let m = mutf8(name);
    let nlen = m.len() as int;
    assert(b[0] == t.kind().as_u8());
    lemma_tag_type_code_round_trip(t.kind(), 0);
    let lu = m.len() as u16;
    bv_round16(0, 0, lu, 0);
    assert(b[1] == (lu >> 8) as u8 && b[2] == lu as u8);
    assert(be16_at(b, 1) == lu);
    assert(b.subrange(3, 3 + nlen) =~= m);
    crate::mutf8::lemma_mutf8_to_utf8_of_mutf8(name);
    vstd::utf8::encode_utf8_decode_utf8(name);
    assert(b.skip(3 + nlen) =~= enc(t) + Seq::<u8>::empty());
    lemma_enc_dec_payload(t, Seq::<u8>::empty());
    assert(enc(t) + Seq::<u8>::empty() =~= enc(t));
}

} // verus!
