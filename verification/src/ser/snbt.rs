//! The stringified form of the tag tree: type-suffixed number literals,
//! bracketed arrays and lists, braced compounds, and double-quoted strings.
//!
//! The two floating-point kinds have no stringified form here: rendering
//! their decimal text is floating-point work, which this library leaves to
//! its callers.

use vstd::prelude::*;
use vstd::utf8::encode_utf8;
use crate::nbt::owned::{Tag, TagView, entries_of, lemma_entries_of, lemma_views_of, views_of};
use crate::ser::Error;

verus! {

/// The decimal digits of a natural number, most significant first.
pub open spec fn dec_nat(n: nat) -> Seq<u8>
    decreases n,
{
    if n < 10 {
        seq![(0x30 + n) as u8]
    } else {
        dec_nat(n / 10) + seq![(0x30 + n % 10) as u8]
    }
}

/// The decimal text of an integer: a minus sign for negative values, then
/// the digits.
pub open spec fn dec_int(v: int) -> Seq<u8> {
    if v < 0 {
        seq![0x2du8] + dec_nat((-v) as nat)
    } else {
        dec_nat(v as nat)
    }
}

/// A string's characters with the double quote, the backslash, and the
/// three whitespace escapes written as two-character escapes.
pub open spec fn escaped(b: Seq<u8>) -> Seq<u8>
    decreases b.len(),
{
    if b.len() == 0 {
        seq![]
    } else {
        let head = if b[0] == 0x22 {
            seq![0x5cu8, 0x22u8]
        } else if b[0] == 0x5c {
            seq![0x5cu8, 0x5cu8]
        } else if b[0] == 0x0a {
            seq![0x5cu8, 0x6eu8]
        } else if b[0] == 0x0d {
            seq![0x5cu8, 0x72u8]
        } else if b[0] == 0x09 {
            seq![0x5cu8, 0x74u8]
        } else {
            seq![b[0]]
        };
        head + escaped(b.drop_first())
    }
}

/// Whether a tag can be stringified: everything but the two
/// floating-point kinds, all the way down.
pub open spec fn snbt_ok(t: TagView) -> bool
    decreases t,
{
    match t {
        TagView::End => false,
        TagView::Float(_) => false,
        TagView::Double(_) => false,
        TagView::List(et, v) => snbt_ok_list(v),
        TagView::Compound(es) => snbt_ok_entries(es),
        _ => true,
    }
}

/// Whether every element of a list can be stringified.
pub open spec fn snbt_ok_list(s: Seq<TagView>) -> bool
    decreases s,
{
    s.len() == 0 || (snbt_ok(s[0]) && snbt_ok_list(s.drop_first()))
}

/// Whether every entry of a compound can be stringified.
pub open spec fn snbt_ok_entries(s: Seq<(Seq<char>, TagView)>) -> bool
    decreases s,
{
    s.len() == 0 || (snbt_ok(s[0].1) && snbt_ok_entries(s.drop_first()))
}

/// The stringified text of a tag, as UTF-8 bytes.
pub open spec fn snbt(t: TagView) -> Seq<u8>
    decreases t, 0int,
{
    match t {
        TagView::End => seq![],
        TagView::Byte(v) => dec_int(v as int) + seq![0x62u8],
        TagView::Short(v) => dec_int(v as int) + seq![0x73u8],
        TagView::Int(v) => dec_int(v as int),
        TagView::Long(v) => dec_int(v as int) + seq![0x6cu8],
        TagView::Float(_) => seq![],
        TagView::Double(_) => seq![],
        TagView::ByteArray(b) => seq![0x5bu8, 0x42u8, 0x3bu8] + snbt_bytes(b) + seq![0x5du8],
        TagView::String(s) => seq![0x22u8] + escaped(encode_utf8(s)) + seq![0x22u8],
        TagView::List(et, v) => seq![0x5bu8] + snbt_list(v, true) + seq![0x5du8],
        TagView::Compound(es) => seq![0x7bu8] + snbt_entries(es, true) + seq![0x7du8],
        TagView::IntArray(v) => seq![0x5bu8, 0x49u8, 0x3bu8] + snbt_ints(v) + seq![0x5du8],
        TagView::LongArray(v) => seq![0x5bu8, 0x4cu8, 0x3bu8] + snbt_longs(v) + seq![0x5du8],
    }
}

/// The elements of a byte array: signed decimals with a `b` suffix, comma
/// separated.
pub open spec fn snbt_bytes(b: Seq<u8>) -> Seq<u8>
    decreases b.len(),
{
    if b.len() == 0 {
        seq![]
    } else if b.len() == 1 {
        dec_int(b[0] as i8 as int) + seq![0x62u8]
    } else {
        snbt_bytes(b.drop_last()) + seq![0x2cu8] + dec_int(b.last() as i8 as int) + seq![0x62u8]
    }
}

/// The elements of an integer array: signed decimals, comma separated.
pub open spec fn snbt_ints(v: Seq<i32>) -> Seq<u8>
    decreases v.len(),
{
    if v.len() == 0 {
        seq![]
    } else if v.len() == 1 {
        dec_int(v[0] as int)
    } else {
        snbt_ints(v.drop_last()) + seq![0x2cu8] + dec_int(v.last() as int)
    }
}

/// The elements of a long array: signed decimals with an `l` suffix,
/// comma separated.
pub open spec fn snbt_longs(v: Seq<i64>) -> Seq<u8>
    decreases v.len(),
{
    if v.len() == 0 {
        seq![]
    } else if v.len() == 1 {
        dec_int(v[0] as int) + seq![0x6cu8]
    } else {
        snbt_longs(v.drop_last()) + seq![0x2cu8] + dec_int(v.last() as int) + seq![0x6cu8]
    }
}

/// The elements of a list, comma separated; `first` says whether no
/// element has been written yet.
pub open spec fn snbt_list(s: Seq<TagView>, first: bool) -> Seq<u8>
    decreases s, 1int,
{
    if s.len() == 0 {
        seq![]
    } else {
        (if first {
            seq![]
        } else {
            seq![0x2cu8]
        }) + snbt(s[0]) + snbt_list(s.drop_first(), false)
    }
}

/// The entries of a compound: quoted keys, a colon, then the value, comma
/// separated; `first` says whether no entry has been written yet.
pub open spec fn snbt_entries(s: Seq<(Seq<char>, TagView)>, first: bool) -> Seq<u8>
    decreases s, 1int,
{
    if s.len() == 0 {
        seq![]
    } else {
        (if first {
            seq![]
        } else {
            seq![0x2cu8]
        }) + seq![0x22u8] + escaped(encode_utf8(s[0].0)) + seq![0x22u8, 0x3au8] + snbt(s[0].1)
            + snbt_entries(s.drop_first(), false)
    }
}

/// Writes the decimal digits of a value.
pub(crate) fn push_dec_u64(out: &mut Vec<u8>, v: u64)
    ensures
        final(out)@ == old(out)@ + dec_nat(v as nat),
    decreases v,
{
    if v < 10 {
        out.push(0x30 + (v as u8));
        proof {
            assert(out@ =~= old(out)@ + dec_nat(v as nat));
        }
    } else {
        push_dec_u64(out, v / 10);
        out.push(0x30 + ((v % 10) as u8));
        proof {
            assert(out@ =~= old(out)@ + dec_nat(v as nat));
        }
    }
}

/// Writes the decimal text of a signed value.
pub(crate) fn push_dec_i64(out: &mut Vec<u8>, v: i64)
    ensures
        final(out)@ == old(out)@ + dec_int(v as int),
{
    if v < 0 {
        out.push(0x2d);
        let magnitude: u64 = ((-(v + 1)) as u64) + 1;
        proof {
            assert(magnitude as nat == (-(v as int)) as nat);
        }
        push_dec_u64(out, magnitude);
        proof {
            assert(out@ =~= old(out)@ + dec_int(v as int));
        }
    } else {
        push_dec_u64(out, v as u64);
    }
}

/// Writes a string's bytes with the stringified form's escapes. Only
/// ASCII bytes are ever escaped, so escaping the UTF-8 bytes escapes the
/// characters.
pub(crate) fn push_escaped(out: &mut Vec<u8>, b: &[u8])
    ensures
        final(out)@ == old(out)@ + escaped(b@),
{
    let n = b.len();
    let mut i: usize = 0;
    while i < n
        invariant
            n == b@.len(),
            i <= n,
            out@ == old(out)@ + escaped(b@.take(i as int)),
        decreases n - i,
    {
        let ghost prefix = b@.take(i as int);
        let c = b[i];
        if c == 0x22 {
            out.push(0x5c);
            out.push(0x22);
        } else if c == 0x5c {
            out.push(0x5c);
            out.push(0x5c);
        } else if c == 0x0a {
            out.push(0x5c);
            out.push(0x6e);
        } else if c == 0x0d {
            out.push(0x5c);
            out.push(0x72);
        } else if c == 0x09 {
            out.push(0x5c);
            out.push(0x74);
        } else {
            out.push(c);
        }
        proof {
            lemma_escaped_snoc(b@, i as int);
            assert(seq![b@[i as int]].drop_first() =~= Seq::<u8>::empty());
            assert(escaped(Seq::<u8>::empty()) == Seq::<u8>::empty());
            assert(escaped(seq![b@[i as int]]).len() <= 2);
            assert(out@ =~= old(out)@ + escaped(b@.take(i + 1)));
        }
        i += 1;
    }
    proof {
        assert(b@.take(n as int) =~= b@);
    }
}

/// Escaping one more byte appends that byte's escape.
proof fn lemma_escaped_snoc(b: Seq<u8>, i: int)
    requires
        0 <= i < b.len(),
    ensures
        escaped(b.take(i + 1)) == escaped(b.take(i)) + escaped(seq![b[i]]),
    decreases i,
{
    if i == 0 {
        assert(b.take(1) =~= seq![b[0]]);
        assert(b.take(0) =~= Seq::<u8>::empty());
        assert(escaped(b.take(0)) == Seq::<u8>::empty());
        assert(Seq::<u8>::empty() + escaped(seq![b[0]]) =~= escaped(seq![b[0]]));
    } else {
        lemma_escaped_snoc(b.drop_first(), i - 1);
        assert(b.take(i + 1).drop_first() =~= b.drop_first().take(i));
        assert(b.take(i).drop_first() =~= b.drop_first().take(i - 1));
        assert(b.take(i + 1)[0] == b[0] && b.take(i)[0] == b[0]);
        assert(b.drop_first()[i - 1] == b[i]);
        assert(seq![b[i]].drop_first() =~= Seq::<u8>::empty());
        assert(escaped(Seq::<u8>::empty()) == Seq::<u8>::empty());
        assert(escaped(b.take(i + 1)) =~= escaped(b.take(i)) + escaped(seq![b[i]]));
    }
}

/// Appending one element extends the list text by a separator, except at
/// the very front, and the element's text.
proof fn lemma_snbt_list_snoc(s: Seq<TagView>, i: int, first: bool)
    requires
        0 <= i < s.len(),
    ensures
        snbt_list(s.take(i + 1), first) == snbt_list(s.take(i), first) + (if i == 0 && first {
            Seq::<u8>::empty()
        } else {
            seq![0x2cu8]
        }) + snbt(s[i]),
    decreases i,
{
    if i == 0 {
        assert(s.take(1) =~= seq![s[0]]);
        assert(s.take(1).drop_first() =~= Seq::<TagView>::empty());
        assert(s.take(0) =~= Seq::<TagView>::empty());
        assert(snbt_list(s.take(1), first) == (if first {
            Seq::<u8>::empty()
        } else {
            seq![0x2cu8]
        }) + snbt(s.take(1)[0]) + snbt_list(s.take(1).drop_first(), false));
        assert(snbt_list(s.take(1), first) =~= snbt_list(s.take(0), first) + (if first {
            Seq::<u8>::empty()
        } else {
            seq![0x2cu8]
        }) + snbt(s[0]));
    } else {
        lemma_snbt_list_snoc(s.drop_first(), i - 1, false);
        assert(s.take(i + 1).drop_first() =~= s.drop_first().take(i));
        assert(s.take(i).drop_first() =~= s.drop_first().take(i - 1));
        assert(s.take(i + 1)[0] == s[0] && s.take(i)[0] == s[0]);
        assert(s.drop_first()[i - 1] == s[i]);
        assert(snbt_list(s.take(i + 1), first) =~= snbt_list(s.take(i), first) + seq![0x2cu8]
            + snbt(s[i]));
    }
}

/// Appending one entry extends the compound text by a separator, except at
/// the very front, and the entry's text.
proof fn lemma_snbt_entries_snoc(s: Seq<(Seq<char>, TagView)>, i: int, first: bool)
    requires
        0 <= i < s.len(),
    ensures
        snbt_entries(s.take(i + 1), first) == snbt_entries(s.take(i), first) + (if i == 0
            && first {
            Seq::<u8>::empty()
        } else {
            seq![0x2cu8]
        }) + seq![0x22u8] + escaped(encode_utf8(s[i].0)) + seq![0x22u8, 0x3au8] + snbt(s[i].1),
    decreases i,
{
    if i == 0 {
        assert(s.take(1) =~= seq![s[0]]);
        assert(s.take(1).drop_first() =~= Seq::<(Seq<char>, TagView)>::empty());
        assert(s.take(0) =~= Seq::<(Seq<char>, TagView)>::empty());
        assert(s.take(1)[0] == s[0]);
        assert(snbt_entries(Seq::<(Seq<char>, TagView)>::empty(), false) == Seq::<u8>::empty());
        assert(snbt_entries(s.take(1), first) == (if first {
            Seq::<u8>::empty()
        } else {
            seq![0x2cu8]
        }) + seq![0x22u8] + escaped(encode_utf8(s.take(1)[0].0)) + seq![0x22u8, 0x3au8] + snbt(
            s.take(1)[0].1,
        ) + snbt_entries(s.take(1).drop_first(), false));
        assert(snbt_entries(s.take(1), first) =~= snbt_entries(s.take(0), first) + (if first {
            Seq::<u8>::empty()
        } else {
            seq![0x2cu8]
        }) + seq![0x22u8] + escaped(encode_utf8(s[0].0)) + seq![0x22u8, 0x3au8] + snbt(s[0].1));
    } else {
        lemma_snbt_entries_snoc(s.drop_first(), i - 1, false);
        assert(s.take(i + 1).drop_first() =~= s.drop_first().take(i));
        assert(s.take(i).drop_first() =~= s.drop_first().take(i - 1));
        assert(s.take(i + 1)[0] == s[0] && s.take(i)[0] == s[0]);
        assert(s.drop_first()[i - 1] == s[i]);
        assert(snbt_entries(s.take(i + 1), first) =~= snbt_entries(s.take(i), first) + seq![
            0x2cu8] + seq![0x22u8] + escaped(encode_utf8(s[i].0)) + seq![0x22u8, 0x3au8] + snbt(
            s[i].1));
    }
}

/// Writes the stringified payload of one tag. On success exactly the
/// stringified text is appended; on failure whatever was appended so far
/// stays.
#[verifier::loop_isolation(false)]
#[verifier::rlimit(100)]
pub fn write_snbt_payload(out: &mut Vec<u8>, value: &Tag) -> (r: Result<(), Error>)
    ensures
        r is Ok <==> snbt_ok(value@),
        r is Ok ==> final(out)@ == old(out)@ + snbt(value@),
        old(out)@.is_prefix_of(final(out)@),
    decreases value,
{
    proof {
        assert(out@.take(out@.len() as int) =~= out@);
    }
    match value {
        Tag::End => Err(Error::Message("an End tag has no stringified form".to_owned())),
        Tag::Byte(v) => {
            push_dec_i64(out, *v as i64);
            out.push(0x62);
            proof {
                assert(out@ =~= old(out)@ + snbt(value@));
                assert(out@.take(old(out)@.len() as int) =~= old(out)@);
            }
            Ok(())
        },
        Tag::Short(v) => {
            push_dec_i64(out, *v as i64);
            out.push(0x73);
            proof {
                assert(out@ =~= old(out)@ + snbt(value@));
                assert(out@.take(old(out)@.len() as int) =~= old(out)@);
            }
            Ok(())
        },
        Tag::Int(v) => {
            push_dec_i64(out, *v as i64);
            proof {
                assert(out@ =~= old(out)@ + snbt(value@));
                assert(out@.take(old(out)@.len() as int) =~= old(out)@);
            }
            Ok(())
        },
        Tag::Long(v) => {
            push_dec_i64(out, *v);
            out.push(0x6c);
            proof {
                assert(out@ =~= old(out)@ + snbt(value@));
                assert(out@.take(old(out)@.len() as int) =~= old(out)@);
            }
            Ok(())
        },
        Tag::Float(_) => Err(Error::Message(
            "a float's stringified form is left to the caller".to_owned(),
        )),
        Tag::Double(_) => Err(Error::Message(
            "a double's stringified form is left to the caller".to_owned(),
        )),
        Tag::ByteArray(a) => {
            out.push(0x5b);
            out.push(0x42);
            out.push(0x3b);
            let ghost base = out@;
            let n = a.inner.len();
            let mut i: usize = 0;
            proof {
                assert(snbt_bytes(a.inner@.take(0)) == Seq::<u8>::empty());
                assert(base + Seq::<u8>::empty() =~= base);
            }
            while i < n
                invariant
                    out@ == base + snbt_bytes(a.inner@.take(i as int)),
                    i <= n,
                decreases n - i,
            {
                let ghost before = out@;
                if i > 0 {
                    out.push(0x2c);
                }
                push_dec_i64(out, (a.inner[i] as i8) as i64);
                out.push(0x62);
                proof {
                    assert(a.inner@.take(i + 1).drop_last() =~= a.inner@.take(i as int));
                    assert(a.inner@.take(i + 1).last() == a.inner@[i as int]);
                    if i == 0 {
                        assert(a.inner@.take(1).len() == 1);
                        assert(out@ =~= base + snbt_bytes(a.inner@.take(1)));
                    } else {
                        assert(out@ =~= base + snbt_bytes(a.inner@.take(i + 1)));
                    }
                }
                i += 1;
            }
            out.push(0x5d);
            proof {
                assert(a.inner@.take(n as int) =~= a.inner@);
                assert(out@ =~= old(out)@ + snbt(value@));
                assert(out@.take(old(out)@.len() as int) =~= old(out)@);
            }
            Ok(())
        },
        Tag::String(s) => {
            out.push(0x22);
            let bytes = s.as_str().as_bytes();
            push_escaped(out, bytes);
            out.push(0x22);
            proof {
                assert(out@ =~= old(out)@ + snbt(value@));
                assert(out@.take(old(out)@.len() as int) =~= old(out)@);
            }
            Ok(())
        },
        Tag::List(_, v) => {
            out.push(0x5b);
            let ghost base = out@;
            let ghost views = views_of(v@);
            proof {
                lemma_views_of(v@);
                assert(views.take(0) =~= Seq::<TagView>::empty());
                assert(base + snbt_list(views.take(0), true) =~= base);
            }
            let n = v.len();
            let mut i: usize = 0;
            while i < n
                invariant
                    n == v@.len(),
                    out@ == base + snbt_list(views.take(i as int), true),
                    snbt_ok_list(views.take(i as int)),
                    i <= n,
                decreases n - i,
            {
                if i > 0 {
                    out.push(0x2c);
                }
                let elem = &v[i];
                match write_snbt_payload(out, elem) {
                    Ok(_) => {},
                    Err(e) => {
                        proof {
                            if snbt_ok(value@) {
                                lemma_snbt_ok_list_index(views);
                                assert(views[i as int] == v@[i as int]@);
                                assert(false);
                            }
                            assert(out@.take(old(out)@.len() as int) =~= old(out)@);
                        }
                        return Err(e);
                    },
                }
                proof {
                    lemma_snbt_list_snoc(views, i as int, true);
                    assert(views[i as int] == v@[i as int]@);
                    assert(out@ =~= base + snbt_list(views.take(i + 1), true));
                    lemma_snbt_ok_list_index(views.take(i as int));
                    assert forall|k: int| 0 <= k < i + 1 implies snbt_ok(
                        #[trigger] views.take(i + 1)[k],
                    ) by {
                        if k < i {
                            assert(views.take(i as int)[k] == views.take(i + 1)[k]);
                        }
                    };
                    lemma_snbt_ok_list_build(views.take(i + 1));
                }
                i += 1;
            }
            out.push(0x5d);
            proof {
                assert(views.take(n as int) =~= views);
                assert(out@ =~= old(out)@ + snbt(value@));
                assert(out@.take(old(out)@.len() as int) =~= old(out)@);
            }
            Ok(())
        },
        Tag::Compound(es) => {
            out.push(0x7b);
            let ghost base = out@;
            let ghost entries = entries_of(es@);
            proof {
                lemma_entries_of(es@);
                assert(entries.take(0) =~= Seq::<(Seq<char>, TagView)>::empty());
                assert(base + snbt_entries(entries.take(0), true) =~= base);
            }
            let n = es.len();
            let mut i: usize = 0;
            while i < n
                invariant
                    n == es@.len(),
                    out@ == base + snbt_entries(entries.take(i as int), true),
                    snbt_ok_entries(entries.take(i as int)),
                    i <= n,
                decreases n - i,
            {
                if i > 0 {
                    out.push(0x2c);
                }
                out.push(0x22);
                let name_bytes = es[i].name.as_str().as_bytes();
                push_escaped(out, name_bytes);
                out.push(0x22);
                out.push(0x3a);
                match write_snbt_payload(out, &es[i].value) {
                    Ok(_) => {},
                    Err(e) => {
                        proof {
                            if snbt_ok(value@) {
                                lemma_snbt_ok_entries_index(entries);
                                assert(entries[i as int] == (es@[i as int].name@,
                                    es@[i as int].value@));
                                assert(false);
                            }
                            assert(out@.take(old(out)@.len() as int) =~= old(out)@);
                        }
                        return Err(e);
                    },
                }
                proof {
                    lemma_snbt_entries_snoc(entries, i as int, true);
                    assert(entries[i as int] == (es@[i as int].name@, es@[i as int].value@));
                    assert(out@ =~= base + snbt_entries(entries.take(i + 1), true));
                    lemma_snbt_ok_entries_index(entries.take(i as int));
                    assert forall|k: int| 0 <= k < i + 1 implies snbt_ok(
                        (#[trigger] entries.take(i + 1)[k]).1,
                    ) by {
                        if k < i {
                            assert(entries.take(i as int)[k] == entries.take(i + 1)[k]);
                        }
                    };
                    lemma_snbt_ok_entries_build(entries.take(i + 1));
                }
                i += 1;
            }
            out.push(0x7d);
            proof {
                assert(entries.take(n as int) =~= entries);
                assert(out@ =~= old(out)@ + snbt(value@));
                assert(out@.take(old(out)@.len() as int) =~= old(out)@);
            }
            Ok(())
        },
        Tag::IntArray(a) => {
            out.push(0x5b);
            out.push(0x49);
            out.push(0x3b);
            let ghost base = out@;
            let ghost ints = a.view_spec();
            let n = a.len();
            let mut i: usize = 0;
            proof {
                assert(snbt_ints(ints.take(0)) == Seq::<u8>::empty());
                assert(base + Seq::<u8>::empty() =~= base);
            }
            while i < n
                invariant
                    n == ints.len(),
                    out@ == base + snbt_ints(ints.take(i as int)),
                    i <= n,
                decreases n - i,
            {
                if i > 0 {
                    out.push(0x2c);
                }
                let v = match a.get(i) {
                    Some(v) => v,
                    None => {
                        proof {
                            assert(4 * i + 4 <= a.inner@.len()) by (nonlinear_arith)
                                requires
                                    i < a.inner@.len() / 4,
                            ;
                            assert(false);
                        }
                        0
                    },
                };
                push_dec_i64(out, v as i64);
                proof {
                    assert(ints.take(i + 1).drop_last() =~= ints.take(i as int));
                    assert(ints.take(i + 1).last() == ints[i as int]);
                    if i == 0 {
                        assert(ints.take(1).len() == 1);
                    }
                    assert(out@ =~= base + snbt_ints(ints.take(i + 1)));
                }
                i += 1;
            }
            out.push(0x5d);
            proof {
                assert(ints.take(n as int) =~= ints);
                assert(out@ =~= old(out)@ + snbt(value@));
                assert(out@.take(old(out)@.len() as int) =~= old(out)@);
            }
            Ok(())
        },
        Tag::LongArray(a) => {
            out.push(0x5b);
            out.push(0x4c);
            out.push(0x3b);
            let ghost base = out@;
            let ghost longs = a.view_spec();
            let n = a.len();
            let mut i: usize = 0;
            proof {
                assert(snbt_longs(longs.take(0)) == Seq::<u8>::empty());
                assert(base + Seq::<u8>::empty() =~= base);
            }
            while i < n
                invariant
                    n == longs.len(),
                    out@ == base + snbt_longs(longs.take(i as int)),
                    i <= n,
                decreases n - i,
            {
                if i > 0 {
                    out.push(0x2c);
                }
                let v = match a.get(i) {
                    Some(v) => v,
                    None => {
                        proof {
                            assert(8 * i + 8 <= a.inner@.len()) by (nonlinear_arith)
                                requires
                                    i < a.inner@.len() / 8,
                            ;
                            assert(false);
                        }
                        0
                    },
                };
                push_dec_i64(out, v);
                out.push(0x6c);
                proof {
                    assert(longs.take(i + 1).drop_last() =~= longs.take(i as int));
                    assert(longs.take(i + 1).last() == longs[i as int]);
                    if i == 0 {
                        assert(longs.take(1).len() == 1);
                    }
                    assert(out@ =~= base + snbt_longs(longs.take(i + 1)));
                }
                i += 1;
            }
            out.push(0x5d);
            proof {
                assert(longs.take(n as int) =~= longs);
                assert(out@ =~= old(out)@ + snbt(value@));
                assert(out@.take(old(out)@.len() as int) =~= old(out)@);
            }
            Ok(())
        },
    }
}

/// Every element of a stringifiable list is stringifiable.
proof fn lemma_snbt_ok_list_index(s: Seq<TagView>)
    requires
        snbt_ok_list(s),
    ensures
        forall|i: int| 0 <= i < s.len() ==> snbt_ok(#[trigger] s[i]),
    decreases s.len(),
{
    if s.len() > 0 {
        lemma_snbt_ok_list_index(s.drop_first());
        assert forall|i: int| 0 <= i < s.len() implies snbt_ok(#[trigger] s[i]) by {
            if i > 0 {
                assert(s.drop_first()[i - 1] == s[i]);
            }
        };
    }
}

/// Elementwise stringifiability gives a stringifiable list.
proof fn lemma_snbt_ok_list_build(s: Seq<TagView>)
    requires
        forall|i: int| 0 <= i < s.len() ==> snbt_ok(#[trigger] s[i]),
    ensures
        snbt_ok_list(s),
    decreases s.len(),
{
    if s.len() > 0 {
        assert forall|i: int| 0 <= i < s.drop_first().len() implies snbt_ok(
            #[trigger] s.drop_first()[i],
        ) by {
            assert(s.drop_first()[i] == s[i + 1]);
        };
        lemma_snbt_ok_list_build(s.drop_first());
    }
}

/// Every entry of a stringifiable compound is stringifiable.
proof fn lemma_snbt_ok_entries_index(s: Seq<(Seq<char>, TagView)>)
    requires
        snbt_ok_entries(s),
    ensures
        forall|i: int| 0 <= i < s.len() ==> snbt_ok((#[trigger] s[i]).1),
    decreases s.len(),
{
    if s.len() > 0 {
        lemma_snbt_ok_entries_index(s.drop_first());
        assert forall|i: int| 0 <= i < s.len() implies snbt_ok((#[trigger] s[i]).1) by {
            if i > 0 {
                assert(s.drop_first()[i - 1] == s[i]);
            }
        };
    }
}

/// Entrywise stringifiability gives a stringifiable compound.
proof fn lemma_snbt_ok_entries_build(s: Seq<(Seq<char>, TagView)>)
    requires
        forall|i: int| 0 <= i < s.len() ==> snbt_ok((#[trigger] s[i]).1),
    ensures
        snbt_ok_entries(s),
    decreases s.len(),
{
    if s.len() > 0 {
        assert forall|i: int| 0 <= i < s.drop_first().len() implies snbt_ok(
            (#[trigger] s.drop_first()[i]).1,
        ) by {
            assert(s.drop_first()[i] == s[i + 1]);
        };
        lemma_snbt_ok_entries_build(s.drop_first());
    }
}

} // verus!
