//! Writing the tagged binary format: the mathematical encoding of a tag
//! tree, and a verified writer that produces exactly those bytes.

use vstd::prelude::*;
use crate::mutf8::mutf8;
use crate::nbt::TagType;
use crate::nbt::owned::{NamedTag, Tag, TagView, entries_of, lemma_entries_of, lemma_views_of,
    views_of};

pub mod formatter;
pub mod snbt;

verus! {

/// The errors of the writing side.
#[derive(Debug, PartialEq)]
pub enum Error {
    /// A failure reported by a caller-supplied layer.
    Message(String),
    /// The destination refused the bytes.
    Io,
    /// An unsigned value exceeds the matching signed range.
    UnsignedTooBig,
    /// A string is longer than 65535 bytes once encoded.
    StringTooBig,
    /// A sequence has more elements than a 31-bit count can say.
    SequenceTooBig,
    /// A sequence's length is not known up front.
    UnknownLength,
    /// A map key that is not a stringable scalar.
    CompoundKey,
}

/// Big-endian bytes of a 16-bit value.
pub open spec fn be2(v: u16) -> Seq<u8> {
    seq![(v >> 8) as u8, v as u8]
}

/// Big-endian bytes of a 32-bit value.
pub open spec fn be4(v: u32) -> Seq<u8> {
    seq![(v >> 24) as u8, (v >> 16) as u8, (v >> 8) as u8, v as u8]
}

/// Big-endian bytes of a 64-bit value.
pub open spec fn be8(v: u64) -> Seq<u8> {
    seq![
        (v >> 56) as u8,
        (v >> 48) as u8,
        (v >> 40) as u8,
        (v >> 32) as u8,
        (v >> 24) as u8,
        (v >> 16) as u8,
        (v >> 8) as u8,
        v as u8,
    ]
}

/// Whether a tag value can be written at all: lengths fit their wire
/// counters, a list's elements all have the list's element kind (which is
/// `End` only for an empty list), array byte counts are whole elements, and
/// no `End` stands where a value belongs.
pub open spec fn wf(t: TagView) -> bool
    decreases t,
{
    match t {
        TagView::End => false,
        TagView::Byte(_) => true,
        TagView::Short(_) => true,
        TagView::Int(_) => true,
        TagView::Long(_) => true,
        TagView::Float(_) => true,
        TagView::Double(_) => true,
        TagView::ByteArray(b) => b.len() <= 0x7fffffff,
        TagView::String(s) => mutf8(s).len() <= 0xffff,
        TagView::List(et, v) => {
            &&& v.len() <= 0x7fffffff
            &&& v.len() > 0 ==> et != TagType::End
            &&& wf_list(et, v)
        },
        TagView::Compound(es) => wf_entries(es),
        TagView::IntArray(v) => v.len() <= 0x7fffffff,
        TagView::LongArray(v) => v.len() <= 0x7fffffff,
    }
}

/// Every element is well formed and has the element kind `et`.
pub open spec fn wf_list(et: TagType, s: Seq<TagView>) -> bool
    decreases s,
{
    s.len() == 0 || (s[0].kind() == et && wf(s[0]) && wf_list(et, s.drop_first()))
}

/// Every entry has a name that fits the 16-bit length counter and a well
/// formed value that is not `End`.
pub open spec fn wf_entries(s: Seq<(Seq<char>, TagView)>) -> bool
    decreases s,
{
    s.len() == 0 || (mutf8(s[0].0).len() <= 0xffff && s[0].1.kind() != TagType::End && wf(s[0].1)
        && wf_entries(s.drop_first()))
}

/// The wire bytes of a sequence of 32-bit integers: each in big-endian
/// order.
pub open spec fn ints_wire(v: Seq<i32>) -> Seq<u8>
    decreases v.len(),
{
    if v.len() == 0 {
        seq![]
    } else {
        be4(v[0] as u32) + ints_wire(v.drop_first())
    }
}

/// The wire bytes of a sequence of 64-bit integers: each in big-endian
/// order.
pub open spec fn longs_wire(v: Seq<i64>) -> Seq<u8>
    decreases v.len(),
{
    if v.len() == 0 {
        seq![]
    } else {
        be8(v[0] as u64) + longs_wire(v.drop_first())
    }
}

/// Appending one integer extends the wire bytes by its four bytes.
pub proof fn lemma_ints_wire_snoc(v: Seq<i32>, i: int)
    requires
        0 <= i < v.len(),
    ensures
        ints_wire(v.take(i + 1)) == ints_wire(v.take(i)) + be4(v[i] as u32),
    decreases i,
{
    if i == 0 {
        assert(v.take(1) =~= seq![v[0]]);
        assert(v.take(1).drop_first() =~= Seq::<i32>::empty());
        assert(ints_wire(v.take(1)) == be4(v.take(1)[0] as u32) + ints_wire(
            v.take(1).drop_first()));
        assert(v.take(1)[0] == v[0]);
        assert(ints_wire(v.take(0)) =~= Seq::<u8>::empty());
        assert(be4(v[0] as u32) + Seq::<u8>::empty() =~= be4(v[0] as u32));
        assert(Seq::<u8>::empty() + be4(v[0] as u32) =~= be4(v[0] as u32));
    } else {
        lemma_ints_wire_snoc(v.drop_first(), i - 1);
        assert(ints_wire(v.take(i + 1)) == be4(v.take(i + 1)[0] as u32) + ints_wire(
            v.take(i + 1).drop_first()));
        assert(ints_wire(v.take(i)) == be4(v.take(i)[0] as u32) + ints_wire(
            v.take(i).drop_first()));
        assert(v.take(i + 1).drop_first() =~= v.drop_first().take(i));
        assert(v.take(i).drop_first() =~= v.drop_first().take(i - 1));
        assert(v.take(i + 1)[0] == v[0] && v.take(i)[0] == v[0]);
        assert(v.drop_first()[i - 1] == v[i]);
        assert((be4(v[0] as u32) + ints_wire(v.drop_first().take(i - 1))) + be4(v[i] as u32)
            =~= be4(v[0] as u32) + (ints_wire(v.drop_first().take(i - 1)) + be4(v[i] as u32)));
    }
}

/// Appending one integer extends the wire bytes by its eight bytes.
pub proof fn lemma_longs_wire_snoc(v: Seq<i64>, i: int)
    requires
        0 <= i < v.len(),
    ensures
        longs_wire(v.take(i + 1)) == longs_wire(v.take(i)) + be8(v[i] as u64),
    decreases i,
{
    if i == 0 {
        assert(v.take(1) =~= seq![v[0]]);
        assert(v.take(1).drop_first() =~= Seq::<i64>::empty());
        assert(longs_wire(v.take(1)) == be8(v.take(1)[0] as u64) + longs_wire(
            v.take(1).drop_first()));
        assert(v.take(1)[0] == v[0]);
        assert(longs_wire(v.take(0)) =~= Seq::<u8>::empty());
        assert(be8(v[0] as u64) + Seq::<u8>::empty() =~= be8(v[0] as u64));
        assert(Seq::<u8>::empty() + be8(v[0] as u64) =~= be8(v[0] as u64));
    } else {
        lemma_longs_wire_snoc(v.drop_first(), i - 1);
        assert(longs_wire(v.take(i + 1)) == be8(v.take(i + 1)[0] as u64) + longs_wire(
            v.take(i + 1).drop_first()));
        assert(longs_wire(v.take(i)) == be8(v.take(i)[0] as u64) + longs_wire(
            v.take(i).drop_first()));
        assert(v.take(i + 1).drop_first() =~= v.drop_first().take(i));
        assert(v.take(i).drop_first() =~= v.drop_first().take(i - 1));
        assert(v.take(i + 1)[0] == v[0] && v.take(i)[0] == v[0]);
        assert(v.drop_first()[i - 1] == v[i]);
        assert((be8(v[0] as u64) + longs_wire(v.drop_first().take(i - 1))) + be8(v[i] as u64)
            =~= be8(v[0] as u64) + (longs_wire(v.drop_first().take(i - 1)) + be8(v[i] as u64)));
    }
}

/// The payload bytes of one tag value.
pub open spec fn enc(t: TagView) -> Seq<u8>
    decreases t, 0int,
{
    match t {
        TagView::End => seq![],
        TagView::Byte(v) => seq![v as u8],
        TagView::Short(v) => be2(v as u16),
        TagView::Int(v) => be4(v as u32),
        TagView::Long(v) => be8(v as u64),
        TagView::Float(v) => be4(v),
        TagView::Double(v) => be8(v),
        TagView::ByteArray(b) => be4(b.len() as u32) + b,
        TagView::String(s) => be2(mutf8(s).len() as u16) + mutf8(s),
        TagView::List(et, v) => seq![et.as_u8()] + be4(v.len() as u32) + enc_list(v),
        TagView::Compound(es) => enc_entries(es) + seq![0u8],
        TagView::IntArray(v) => be4(v.len() as u32) + ints_wire(v),
        TagView::LongArray(v) => be4(v.len() as u32) + longs_wire(v),
    }
}

/// The concatenated payloads of a list's elements.
pub open spec fn enc_list(s: Seq<TagView>) -> Seq<u8>
    decreases s, 0int,
{
    if s.len() == 0 {
        seq![]
    } else {
        enc(s[0]) + enc_list(s.drop_first())
    }
}

/// One named entry on the wire: the value's kind, the name with its 16-bit
/// length, then the value's payload.
pub open spec fn enc_entry(name: Seq<char>, t: TagView) -> Seq<u8>
    decreases t, 1int,
{
    seq![t.kind().as_u8()] + be2(mutf8(name).len() as u16) + mutf8(name) + enc(t)
}

/// The concatenated entries of a compound, without the closing `End` byte.
pub open spec fn enc_entries(s: Seq<(Seq<char>, TagView)>) -> Seq<u8>
    decreases s, 0int,
{
    if s.len() == 0 {
        seq![]
    } else {
        enc_entry(s[0].0, s[0].1) + enc_entries(s.drop_first())
    }
}

/// A whole document: one named top-level tag.
pub open spec fn enc_document(name: Seq<char>, t: TagView) -> Seq<u8> {
    seq![t.kind().as_u8()] + be2(mutf8(name).len() as u16) + mutf8(name) + enc(t)
}

/// A well-formed named document: the name fits its 16-bit length counter
/// and the top-level value is a well-formed compound or list.
pub open spec fn wf_document(name: Seq<char>, t: TagView) -> bool {
    &&& mutf8(name).len() <= 0xffff
    &&& t.kind() == TagType::Compound || t.kind() == TagType::List
    &&& wf(t)
}

/// What the writer emits for a value: compounds and lists become a document
/// with an empty name, anything else is written as its bare payload.
pub open spec fn written_bytes(t: TagView) -> Seq<u8> {
    if t.kind() == TagType::Compound || t.kind() == TagType::List {
        enc_document(Seq::<char>::empty(), t)
    } else {
        enc(t)
    }
}

/// Appending one element on the right extends the encoded list by that
/// element's payload.
pub proof fn lemma_enc_list_snoc(s: Seq<TagView>, i: int)
    requires
        0 <= i < s.len(),
    ensures
        enc_list(s.take(i + 1)) == enc_list(s.take(i)) + enc(s[i]),
    decreases i,
{
    if i == 0 {
        assert(s.take(1) =~= seq![s[0]]);
        assert(s.take(1).drop_first() =~= Seq::<TagView>::empty());
        assert(enc_list(s.take(0)) =~= Seq::<u8>::empty());
        assert(enc_list(s.take(1)) == enc(s[0]) + enc_list(Seq::<TagView>::empty()));
        assert(enc(s[0]) + Seq::<u8>::empty() =~= enc(s[0]));
        assert(Seq::<u8>::empty() + enc(s[0]) =~= enc(s[0]));
    } else {
        lemma_enc_list_snoc(s.drop_first(), i - 1);
        assert(s.take(i + 1).drop_first() =~= s.drop_first().take(i));
        assert(s.take(i).drop_first() =~= s.drop_first().take(i - 1));
        assert(s.take(i + 1)[0] == s[0] && s.take(i)[0] == s[0]);
        assert(s.drop_first()[i - 1] == s[i]);
        assert((enc(s[0]) + enc_list(s.drop_first().take(i - 1))) + enc(s[i]) =~= enc(s[0])
            + (enc_list(s.drop_first().take(i - 1)) + enc(s[i])));
    }
}

/// Appending one entry on the right extends the encoded compound body by
/// that entry's bytes.
pub proof fn lemma_enc_entries_snoc(s: Seq<(Seq<char>, TagView)>, i: int)
    requires
        0 <= i < s.len(),
    ensures
        enc_entries(s.take(i + 1)) == enc_entries(s.take(i)) + enc_entry(s[i].0, s[i].1),
    decreases i,
{
    if i == 0 {
        assert(s.take(1) =~= seq![s[0]]);
        assert(s.take(1).drop_first() =~= Seq::<(Seq<char>, TagView)>::empty());
        assert(enc_entries(s.take(1)) == enc_entry(s.take(1)[0].0, s.take(1)[0].1)
            + enc_entries(s.take(1).drop_first()));
        assert(s.take(1)[0] == s[0]);
        assert(enc_entries(s.take(0)) =~= Seq::<u8>::empty());
        assert(enc_entry(s[0].0, s[0].1) + Seq::<u8>::empty() =~= enc_entry(s[0].0, s[0].1));
        assert(Seq::<u8>::empty() + enc_entry(s[0].0, s[0].1) =~= enc_entry(s[0].0, s[0].1));
    } else {
        lemma_enc_entries_snoc(s.drop_first(), i - 1);
        assert(s.take(i + 1).drop_first() =~= s.drop_first().take(i));
        assert(s.take(i).drop_first() =~= s.drop_first().take(i - 1));
        assert(s.take(i + 1)[0] == s[0] && s.take(i)[0] == s[0]);
        assert(s.drop_first()[i - 1] == s[i]);
        assert(enc_entries(s.take(i + 1)) == enc_entry(s.take(i + 1)[0].0, s.take(i + 1)[0].1)
            + enc_entries(s.take(i + 1).drop_first()));
        assert(enc_entries(s.take(i)) == enc_entry(s.take(i)[0].0, s.take(i)[0].1)
            + enc_entries(s.take(i).drop_first()));
        assert((enc_entry(s[0].0, s[0].1) + enc_entries(s.drop_first().take(i - 1))) + enc_entry(
            s[i].0, s[i].1) =~= enc_entry(s[0].0, s[0].1) + (enc_entries(s.drop_first().take(i
            - 1)) + enc_entry(s[i].0, s[i].1)));
    }
}

/// A well-formed list stays well formed on any prefix, and each element is
/// well formed with the list's kind.
pub proof fn lemma_wf_list_index(et: TagType, s: Seq<TagView>)
    requires
        wf_list(et, s),
    ensures
        forall|i: int| 0 <= i < s.len() ==> wf(#[trigger] s[i]) && s[i].kind() == et,
    decreases s.len(),
{
    if s.len() > 0 {
        lemma_wf_list_index(et, s.drop_first());
        assert forall|i: int| 0 <= i < s.len() implies wf(#[trigger] s[i]) && s[i].kind()
            == et by {
            if i > 0 {
                assert(s.drop_first()[i - 1] == s[i]);
            }
        };
    }
}

/// Each entry of a well-formed compound is well formed.
pub proof fn lemma_wf_entries_index(s: Seq<(Seq<char>, TagView)>)
    requires
        wf_entries(s),
    ensures
        forall|i: int| 0 <= i < s.len() ==> mutf8((#[trigger] s[i]).0).len() <= 0xffff
            && s[i].1.kind() != TagType::End && wf(s[i].1),
    decreases s.len(),
{
    if s.len() > 0 {
        lemma_wf_entries_index(s.drop_first());
        assert forall|i: int| 0 <= i < s.len() implies mutf8((#[trigger] s[i]).0).len() <= 0xffff
            && s[i].1.kind() != TagType::End && wf(s[i].1) by {
            if i > 0 {
                assert(s.drop_first()[i - 1] == s[i]);
            }
        };
    }
}

/// Elementwise well-formedness gives a well-formed list.
pub proof fn lemma_wf_list_build(et: TagType, s: Seq<TagView>)
    requires
        forall|i: int| 0 <= i < s.len() ==> wf(#[trigger] s[i]) && s[i].kind() == et,
    ensures
        wf_list(et, s),
    decreases s.len(),
{
    if s.len() > 0 {
        assert forall|i: int| 0 <= i < s.drop_first().len() implies wf(
            #[trigger] s.drop_first()[i]) && s.drop_first()[i].kind() == et by {
            assert(s.drop_first()[i] == s[i + 1]);
        };
        lemma_wf_list_build(et, s.drop_first());
    }
}

/// Entrywise well-formedness gives a well-formed compound.
pub proof fn lemma_wf_entries_build(s: Seq<(Seq<char>, TagView)>)
    requires
        forall|i: int| 0 <= i < s.len() ==> mutf8((#[trigger] s[i]).0).len() <= 0xffff
            && s[i].1.kind() != TagType::End && wf(s[i].1),
    ensures
        wf_entries(s),
    decreases s.len(),
{
    if s.len() > 0 {
        assert forall|i: int| 0 <= i < s.drop_first().len() implies mutf8(
            (#[trigger] s.drop_first()[i]).0).len() <= 0xffff && s.drop_first()[i].1.kind()
            != TagType::End && wf(s.drop_first()[i].1) by {
            assert(s.drop_first()[i] == s[i + 1]);
        };
        lemma_wf_entries_build(s.drop_first());
    }
}

fn append_bytes(out: &mut Vec<u8>, b: &[u8])
    ensures
        final(out)@ == old(out)@ + b@,
{
    let n = b.len();
    let mut i: usize = 0;
    while i < n
        invariant
            n == b@.len(),
            i <= n,
            out@ == old(out)@ + b@.take(i as int),
        decreases n - i,
    {
        out.push(b[i]);
        proof {
            assert(b@.take(i + 1) =~= b@.take(i as int) + seq![b@[i as int]]);
            assert((old(out)@ + b@.take(i as int)) + seq![b@[i as int]] =~= old(out)@ + b@.take(
                i + 1));
        }
        i += 1;
    }
    proof {
        assert(b@.take(n as int) =~= b@);
    }
}

/// Writes the payload of one tag through the binary formatter. On success
/// exactly the encoding of the tag is appended; on failure whatever was
/// appended so far stays, as with a streaming destination.
#[verifier::loop_isolation(false)]
#[verifier::rlimit(100)]
pub fn write_payload(f: &mut formatter::BinaryFormatter, out: &mut Vec<u8>, value: &Tag) -> (r:
    Result<(), Error>)
    requires
        !old(f).top_level,
    ensures
        *final(f) == *old(f),
        r is Ok <==> wf(value@),
        r is Ok ==> final(out)@ == old(out)@ + enc(value@),
        old(out)@.is_prefix_of(final(out)@),
    decreases value,
{
    match value {
        Tag::End => {
            proof {
                assert(out@.is_prefix_of(out@)) by {
                    assert(out@.take(out@.len() as int) =~= out@);
                };
            }
            Err(Error::Message("an End tag is a terminator, not a value".to_owned()))
        },
        Tag::Byte(v) => {
            f.write_byte(out, *v);
            proof {
                lemma_append_prefix(old(out)@, enc(value@));
            }
            Ok(())
        },
        Tag::Short(v) => {
            f.write_short(out, *v);
            proof {
                lemma_append_prefix(old(out)@, enc(value@));
            }
            Ok(())
        },
        Tag::Int(v) => {
            f.write_int(out, *v);
            proof {
                lemma_append_prefix(old(out)@, enc(value@));
            }
            Ok(())
        },
        Tag::Long(v) => {
            f.write_long(out, *v);
            proof {
                lemma_append_prefix(old(out)@, enc(value@));
            }
            Ok(())
        },
        Tag::Float(v) => {
            f.write_float(out, *v);
            proof {
                lemma_append_prefix(old(out)@, enc(value@));
            }
            Ok(())
        },
        Tag::Double(v) => {
            f.write_double(out, *v);
            proof {
                lemma_append_prefix(old(out)@, enc(value@));
            }
            Ok(())
        },
        Tag::ByteArray(a) => {
            let r = f.write_byte_array(out, a.as_raw_slice());
            proof {
                lemma_append_prefix(old(out)@, out@.skip(old(out)@.len() as int));
                assert(old(out)@ + out@.skip(old(out)@.len() as int) =~= out@);
            }
            r
        },
        Tag::String(s) => {
            let r = f.write_string(out, s.as_str());
            proof {
                lemma_append_prefix(old(out)@, out@.skip(old(out)@.len() as int));
                assert(old(out)@ + out@.skip(old(out)@.len() as int) =~= out@);
            }
            r
        },
        Tag::List(et, v) => {
            let n = v.len();
            proof {
                lemma_views_of(v@);
                assert(out@.take(out@.len() as int) =~= out@);
            }
            if n > 0x7fffffff {
                return Err(Error::SequenceTooBig);
            }
            if n > 0 && *et == TagType::End {
                return Err(Error::Message(
                    "a non-empty list cannot have End as its element kind".to_owned(),
                ));
            }
            f.start_list(out, n as i32, *et);
            let ghost base = old(out)@ + seq![et.as_u8()] + be4(n as u32);
            let ghost views = views_of(v@);
            proof {
                assert(out@ =~= base);
                assert(views.take(0) =~= Seq::<TagView>::empty());
                assert(base + enc_list(views.take(0)) =~= base);
            }
            let mut i: usize = 0;
            while i < n
                invariant
                    !f.top_level,
                    n == v@.len(),
                    n <= 0x7fffffff,
                    n > 0 ==> *et != TagType::End,
                    views == views_of(v@),
                    value@ == TagView::List(*et, views),
                    views.len() == n,
                    forall|k: int| 0 <= k < n ==> views[k] == #[trigger] v@[k]@,
                    i <= n,
                    wf_list(*et, views.take(i as int)),
                    out@ == base + enc_list(views.take(i as int)),
                    base == old(out)@ + seq![et.as_u8()] + be4(n as u32),
                decreases n - i,
            {
                let elem = &v[i];
                let k = elem.tag_type();
                if !(k == *et) {
                    proof {
                        if wf(value@) {
                            lemma_wf_list_index(*et, views);
                            assert(views[i as int] == v@[i as int]@);
                            assert(false);
                        }
                        assert(out@.take(old(out)@.len() as int) =~= old(out)@);
                    }
                    return Err(Error::Message("a list element has the wrong kind".to_owned()));
                }
                let r = write_payload(f, out, elem);
                if let Err(err) = r {
                    proof {
                        if wf(value@) {
                            lemma_wf_list_index(*et, views);
                            assert(views[i as int] == v@[i as int]@);
                            assert(false);
                        }
                        assert(out@.take(old(out)@.len() as int) =~= old(out)@);
                    }
                    return Err(err);
                }
                proof {
                    lemma_enc_list_snoc(views, i as int);
                    assert(views[i as int] == v@[i as int]@);
                    assert((base + enc_list(views.take(i as int))) + enc(views[i as int]) =~= base
                        + enc_list(views.take(i + 1)));
                    lemma_wf_list_index(*et, views.take(i as int));
                    assert forall|k2: int| 0 <= k2 < i + 1 implies wf(
                        #[trigger] views.take(i + 1)[k2]) && views.take(i + 1)[k2].kind()
                        == *et by {
                        if k2 < i {
                            assert(views.take(i as int)[k2] == views.take(i + 1)[k2]);
                        } else {
                            assert(views.take(i + 1)[k2] == views[i as int]);
                        }
                    };
                    lemma_wf_list_build(*et, views.take(i + 1));
                }
                i += 1;
            }
            proof {
                assert(views.take(n as int) =~= views);
                assert(value@ == TagView::List(*et, views));
                assert(wf(value@));
                assert(out@ =~= old(out)@ + enc(value@));
                assert(out@.take(old(out)@.len() as int) =~= old(out)@);
            }
            Ok(())
        },
        Tag::Compound(es) => {
            let n = es.len();
            proof {
                lemma_entries_of(es@);
                assert(out@.take(out@.len() as int) =~= out@);
            }
            let ghost entries = entries_of(es@);
            proof {
                assert(entries.take(0) =~= Seq::<(Seq<char>, TagView)>::empty());
                assert(old(out)@ + enc_entries(entries.take(0)) =~= old(out)@);
            }
            let mut i: usize = 0;
            while i < n
                invariant
                    !f.top_level,
                    n == es@.len(),
                    entries == entries_of(es@),
                    value@ == TagView::Compound(entries),
                    entries.len() == n,
                    forall|k: int| 0 <= k < n ==> entries[k] == (#[trigger] es@[k].name@,
                        es@[k].value@),
                    i <= n,
                    wf_entries(entries.take(i as int)),
                    out@ == old(out)@ + enc_entries(entries.take(i as int)),
                decreases n - i,
            {
                let entry = &es[i];
                let k = entry.value.tag_type();
                if k == TagType::End {
                    proof {
                        if wf(value@) {
                            lemma_wf_entries_index(entries);
                            assert(entries[i as int] == (es@[i as int].name@,
                                es@[i as int].value@));
                            assert(false);
                        }
                        assert(out@.take(old(out)@.len() as int) =~= old(out)@);
                    }
                    return Err(Error::Message(
                        "an End tag is a terminator, not a value".to_owned(),
                    ));
                }
                let mut key: Vec<u8> = Vec::new();
                let kr = f.write_string(&mut key, entry.name.as_str());
                if let Err(err) = kr {
                    proof {
                        if wf(value@) {
                            lemma_wf_entries_index(entries);
                            assert(entries[i as int] == (es@[i as int].name@,
                                es@[i as int].value@));
                            assert(false);
                        }
                        assert(out@.take(old(out)@.len() as int) =~= old(out)@);
                    }
                    return Err(err);
                }
                let se = f.start_entry(out, key.as_slice(), k);
                proof {
                    assert(se is Ok);
                }
                let r = write_payload(f, out, &entry.value);
                if let Err(err) = r {
                    proof {
                        if wf(value@) {
                            lemma_wf_entries_index(entries);
                            assert(entries[i as int] == (es@[i as int].name@,
                                es@[i as int].value@));
                            assert(false);
                        }
                        assert(out@.take(old(out)@.len() as int) =~= old(out)@);
                    }
                    return Err(err);
                }
                f.end_entry(out);
                proof {
                    lemma_enc_entries_snoc(entries, i as int);
                    assert(entries[i as int] == (es@[i as int].name@, es@[i as int].value@));
                    assert(key@ == be2(mutf8(es@[i as int].name@).len() as u16) + mutf8(
                        es@[i as int].name@));
                    assert(out@ =~= (old(out)@ + enc_entries(entries.take(i as int))) + enc_entry(
                        entries[i as int].0, entries[i as int].1));
                    assert((old(out)@ + enc_entries(entries.take(i as int))) + enc_entry(
                        entries[i as int].0, entries[i as int].1) =~= old(out)@ + enc_entries(
                        entries.take(i + 1)));
                    lemma_wf_entries_index(entries.take(i as int));
                    assert forall|k2: int| 0 <= k2 < i + 1 implies mutf8(
                        (#[trigger] entries.take(i + 1)[k2]).0).len() <= 0xffff && entries.take(
                        i + 1)[k2].1.kind() != TagType::End && wf(entries.take(i + 1)[k2].1) by {
                        if k2 < i {
                            assert(entries.take(i as int)[k2] == entries.take(i + 1)[k2]);
                        } else {
                            assert(entries.take(i + 1)[k2] == entries[i as int]);
                        }
                    };
                    lemma_wf_entries_build(entries.take(i + 1));
                }
                i += 1;
            }
            f.end_compound(out);
            proof {
                assert(entries.take(n as int) =~= entries);
                assert(value@ == TagView::Compound(entries));
                assert(wf(value@));
                assert(out@ =~= old(out)@ + enc(value@));
                assert(out@.take(old(out)@.len() as int) =~= old(out)@);
            }
            Ok(())
        },
        Tag::IntArray(a) => {
            proof {
                assert(out@.take(out@.len() as int) =~= out@);
            }
            let n4 = a.len();
            if n4 > 0x7fffffff {
                return Err(Error::SequenceTooBig);
            }
            f.start_int_array(out, n4 as i32);
            let ghost base = old(out)@ + be4(n4 as u32);
            proof {
                assert(out@ =~= base);
                assert(ints_wire(a.view_spec().take(0)) =~= Seq::<u8>::empty());
                assert(base + Seq::<u8>::empty() =~= base);
            }
            let mut i: usize = 0;
            while i < n4
                invariant
                    n4 == a.view_spec().len(),
                    i <= n4,
                    out@ == base + ints_wire(a.view_spec().take(i as int)),
                decreases n4 - i,
            {
                let v = match a.get(i) {
                    Some(v) => v,
                    None => {
                        proof {
                            assert(4 * i + 4 <= a.inner@.len()) by (nonlinear_arith)
                                requires
                                    i < a.inner@.len() / 4,
                            ;
                            assert(false);
                        }
                        0
                    },
                };
                let u = v as u32;
                out.push((u >> 24u32) as u8);
                out.push((u >> 16u32) as u8);
                out.push((u >> 8u32) as u8);
                out.push(u as u8);
                proof {
                    lemma_ints_wire_snoc(a.view_spec(), i as int);
                    assert(out@ =~= base + ints_wire(a.view_spec().take(i + 1)));
                }
                i += 1;
            }
            proof {
                assert(a.view_spec().take(n4 as int) =~= a.view_spec());
                assert(value@ == TagView::IntArray(a.view_spec()));
                assert(wf(value@));
                assert(out@ =~= old(out)@ + enc(value@));
                assert(out@.take(old(out)@.len() as int) =~= old(out)@);
            }
            Ok(())
        },
        Tag::LongArray(a) => {
            proof {
                assert(out@.take(out@.len() as int) =~= out@);
            }
            let n8 = a.len();
            if n8 > 0x7fffffff {
                return Err(Error::SequenceTooBig);
            }
            f.start_long_array(out, n8 as i32);
            let ghost base = old(out)@ + be4(n8 as u32);
            proof {
                assert(out@ =~= base);
                assert(longs_wire(a.view_spec().take(0)) =~= Seq::<u8>::empty());
                assert(base + Seq::<u8>::empty() =~= base);
            }
            let mut i: usize = 0;
            while i < n8
                invariant
                    n8 == a.view_spec().len(),
                    i <= n8,
                    out@ == base + longs_wire(a.view_spec().take(i as int)),
                decreases n8 - i,
            {
                let v = match a.get(i) {
                    Some(v) => v,
                    None => {
                        proof {
                            assert(8 * i + 8 <= a.inner@.len()) by (nonlinear_arith)
                                requires
                                    i < a.inner@.len() / 8,
                            ;
                            assert(false);
                        }
                        0
                    },
                };
                let u = v as u64;
                out.push((u >> 56u64) as u8);
                out.push((u >> 48u64) as u8);
                out.push((u >> 40u64) as u8);
                out.push((u >> 32u64) as u8);
                out.push((u >> 24u64) as u8);
                out.push((u >> 16u64) as u8);
                out.push((u >> 8u64) as u8);
                out.push(u as u8);
                proof {
                    lemma_longs_wire_snoc(a.view_spec(), i as int);
                    assert(out@ =~= base + longs_wire(a.view_spec().take(i + 1)));
                }
                i += 1;
            }
            proof {
                assert(a.view_spec().take(n8 as int) =~= a.view_spec());
                assert(value@ == TagView::LongArray(a.view_spec()));
                assert(wf(value@));
                assert(out@ =~= old(out)@ + enc(value@));
                assert(out@.take(old(out)@.len() as int) =~= old(out)@);
            }
            Ok(())
        },
    }
}

proof fn lemma_append_prefix(a: Seq<u8>, b: Seq<u8>)
    ensures
        a.is_prefix_of(a + b),
{
    assert((a + b).take(a.len() as int) =~= a);
}

/// Writes a tag as a whole document: a compound or list becomes a top-level
/// named tag with an empty name, any other value is written as its bare
/// payload.
pub fn to_writer(out: &mut Vec<u8>, value: &Tag) -> (r: Result<(), Error>)
    ensures
        r is Ok <==> wf(value@),
        r is Ok ==> final(out)@ == old(out)@ + written_bytes(value@),
        old(out)@.is_prefix_of(final(out)@),
{
    let mut f = formatter::BinaryFormatter::new();
    f.top_level = false;
    let k = value.tag_type();
    let is_container = k == TagType::Compound || k == TagType::List;
    if is_container {
        out.push(k.to_u8());
        out.push(0);
        out.push(0);
    }
    let ghost mid = out@;
    let r = write_payload(&mut f, out, value);
    proof {
        assert((0u16 >> 8) as u8 == 0 && 0u16 as u8 == 0) by (bit_vector);
        if r is Ok {
            if is_container {
                assert(mutf8(Seq::<char>::empty()) =~= Seq::<u8>::empty());
                assert(out@ =~= old(out)@ + written_bytes(value@));
            } else {
                assert(out@ =~= old(out)@ + written_bytes(value@));
            }
        }
        assert(mid.is_prefix_of(out@));
        assert(out@.take(old(out)@.len() as int) =~= old(out)@) by {
            assert(out@.take(mid.len() as int) =~= mid);
        };
    }
    r
}

/// Writes a tag in the stringified form. The two floating-point kinds have
/// no stringified form here, and an `End` tag is a terminator, not a value;
/// everything else is written exactly as [`snbt::snbt`] says.
pub fn to_snbt_writer(out: &mut Vec<u8>, value: &Tag) -> (r: Result<(), Error>)
    ensures
        r is Ok <==> snbt::snbt_ok(value@),
        r is Ok ==> final(out)@ == old(out)@ + snbt::snbt(value@),
        old(out)@.is_prefix_of(final(out)@),
{
    snbt::write_snbt_payload(out, value)
}

} // verus!
