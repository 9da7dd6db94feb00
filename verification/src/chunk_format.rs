//! The typed view over a decoded chunk: records bound from the tag tree by
//! their declared shape, and the block-state accessor that decodes packed
//! palette indices on demand.

use vstd::prelude::*;
use crate::de::Error;
use crate::nbt::TagType;
use crate::nbt::owned::{LongArray, NamedTag, Tag, TagView, entries_of, lemma_entries_of,
    lemma_view_variant, lemma_views_of, views_of};
use crate::unpack;
use crate::unpack::{nibble, quintet, word_at};

verus! {

/// The value of the last entry with the given name, if any; producers may
/// write duplicate names, and consumers take the last occurrence.
pub open spec fn compound_get(es: Seq<(Seq<char>, TagView)>, name: Seq<char>) -> Option<TagView>
    decreases es.len(),
{
    if es.len() == 0 {
        None
    } else if es.last().0 == name {
        Some(es.last().1)
    } else {
        compound_get(es.drop_last(), name)
    }
}

/// Relies on str's equality: two string slices compare equal exactly when
/// they spell the same characters.
#[verifier::external_body]
pub fn string_slices_equal(a: &str, b: &str) -> (r: bool)
    ensures
        r == (a@ == b@),
{
    a == b
}

/// Looks a name up in a compound's entries, taking the last occurrence.
pub fn find<'a>(es: &'a Vec<NamedTag>, name: &str) -> (r: Option<&'a Tag>)
    ensures
        r is Some <==> compound_get(entries_of(es@), name@) is Some,
        r is Some ==> Some(r->0@) == compound_get(entries_of(es@), name@),
{
    proof {
        lemma_entries_of(es@);
    }
    let ghost whole = entries_of(es@);
    let mut i: usize = es.len();
    proof {
        assert(whole.take(es@.len() as int) =~= whole);
    }
    while i > 0
        invariant
            whole == entries_of(es@),
            whole.len() == es@.len(),
            forall|k: int| 0 <= k < es@.len() ==> whole[k] == (#[trigger] es@[k].name@,
                es@[k].value@),
            i <= es@.len(),
            compound_get(whole, name@) == compound_get(whole.take(i as int), name@),
        decreases i,
    {
        i = i - 1;
        if string_slices_equal(es[i].name.as_str(), name) {
            proof {
                assert(whole.take(i + 1).last() == whole[i as int]);
                assert(compound_get(whole.take(i + 1), name@) == Some(whole[i as int].1));
            }
            return Some(&es[i].value);
        }
        proof {
            assert(whole.take(i + 1).last() == whole[i as int]);
            assert(whole.take(i + 1).drop_last() =~= whole.take(i as int));
        }
    }
    proof {
        assert(whole.take(0) =~= Seq::<(Seq<char>, TagView)>::empty());
    }
    None
}

/// One block state of a palette: a name and optional properties, each a
/// name-value pair of strings kept in wire order.
#[derive(Debug)]
pub struct BlockStatePalette {
    pub name: String,
    pub properties: Option<Vec<(String, String)>>,
}

/// Whether a compound binds as a palette entry.
pub open spec fn palette_entry_ok(es: Seq<(Seq<char>, TagView)>) -> bool {
    &&& compound_get(es, "Name"@) matches Some(TagView::String(_))
    &&& match compound_get(es, "properties"@) {
        None => true,
        Some(TagView::Compound(ps)) => forall|i: int|
            0 <= i < ps.len() ==> (#[trigger] ps[i]).1 is String,
        Some(_) => false,
    }
}

/// How a bound palette entry relates to the compound it came from.
pub open spec fn palette_entry_matches(r: BlockStatePalette, es: Seq<(Seq<char>, TagView)>) -> bool {
    &&& compound_get(es, "Name"@) == Some(TagView::String(r.name@))
    &&& match compound_get(es, "properties"@) {
        None => r.properties is None,
        Some(TagView::Compound(ps)) => {
            &&& r.properties matches Some(props)
            &&& props.len() == ps.len()
            &&& forall|i: int|
                0 <= i < ps.len() ==> ((#[trigger] props@[i]).0@, TagView::String(props@[i].1@))
                    == (ps[i].0, ps[i].1)
        },
        Some(_) => false,
    }
}

impl BlockStatePalette {
    /// Binds a palette entry from a compound's entries.
    pub fn from_entries(es: &Vec<NamedTag>) -> (r: Result<BlockStatePalette, Error>)
        ensures
            r is Ok <==> palette_entry_ok(entries_of(es@)),
            r is Ok ==> palette_entry_matches(r->Ok_0, entries_of(es@)),
    {
        let ghost ev = entries_of(es@);
        let found = find(es, "Name");
        let name = match found {
            Some(Tag::String(s)) => s.clone(),
            Some(t) => {
                proof {
                    lemma_view_variant(*t);
                    assert(!(t@ is String));
                    assert(!palette_entry_ok(ev));
                }
                return Err(Error::Message("a palette entry needs a Name string".to_owned()));
            },
            None => {
                proof {
                    assert(!palette_entry_ok(ev));
                }
                return Err(Error::Message("a palette entry needs a Name string".to_owned()));
            },
        };
        let found_props = find(es, "properties");
        let properties = match found_props {
            None => None,
            Some(Tag::Compound(ps)) => {
                let mut out: Vec<(String, String)> = Vec::new();
                let n = ps.len();
                proof {
                    lemma_entries_of(ps@);
                }
                let ghost pv = entries_of(ps@);
                proof {
                    assert(compound_get(ev, "properties"@) == Some(TagView::Compound(pv)));
                }
                let mut i: usize = 0;
                while i < n
                    invariant
                        ev == entries_of(es@),
                        compound_get(ev, "properties"@) == Some(TagView::Compound(pv)),
                        compound_get(ev, "Name"@) is Some,
                        n == ps@.len(),
                        pv == entries_of(ps@),
                        pv.len() == n,
                        forall|k: int| 0 <= k < n ==> pv[k] == (#[trigger] ps@[k].name@,
                            ps@[k].value@),
                        i <= n,
                        out@.len() == i,
                        forall|k: int| 0 <= k < i ==> ((#[trigger] out@[k]).0@, TagView::String(
                            out@[k].1@,
                        )) == (pv[k].0, pv[k].1),
                    decreases n - i,
                {
                    let entry = &ps[i];
                    let ghost gv = entry.value;
                    proof {
                        let trig = ps@[i as int].name@;
                        assert(gv == ps@[i as int].value);
                        assert(pv[i as int] == (ps@[i as int].name@, ps@[i as int].value@));
                    }
                    match &entry.value {
                        Tag::String(v) => {
                            out.push((entry.name.clone(), v.clone()));
                        },
                        _ => {
                            proof {
                                lemma_view_variant(gv);
                                assert(!(gv@ is String));
                                assert(!palette_entry_ok(ev));
                            }
                            return Err(Error::Message(
                                "a palette property must be a string".to_owned(),
                            ));
                        },
                    }
                    i += 1;
                }
                proof {
                    assert forall|k: int| 0 <= k < pv.len() implies (#[trigger] pv[k]).1
                        is String by {
                        assert(((out@[k]).0@, TagView::String(out@[k].1@)) == (pv[k].0,
                            pv[k].1));
                    };
                }
                Some(out)
            },
            Some(t) => {
                let ghost gt = *t;
                proof {
                    lemma_view_variant(gt);
                    assert(!(gt@ is Compound));
                    assert(!palette_entry_ok(ev));
                }
                return Err(Error::Message("palette properties must be a compound".to_owned()));
            },
        };
        proof {
            assert(palette_entry_ok(ev));
            assert(palette_entry_matches(BlockStatePalette { name, properties }, ev));
        }
        Ok(BlockStatePalette { name, properties })
    }
}

/// Block states of one section: a palette and, unless the whole section is
/// one state, a packed array of palette indices.
#[derive(Debug)]
pub struct BlockStates {
    pub palette: Vec<BlockStatePalette>,
    pub data: Option<LongArray>,
}

/// The packed index width for a palette of `n` entries: the bit width of
/// `n - 1`, clamped to at least 4 and at most 12.
pub open spec fn bits_for_palette(n: int) -> int {
    if n <= 16 {
        4
    } else if n <= 32 {
        5
    } else if n <= 64 {
        6
    } else if n <= 128 {
        7
    } else if n <= 256 {
        8
    } else if n <= 512 {
        9
    } else if n <= 1024 {
        10
    } else if n <= 2048 {
        11
    } else {
        12
    }
}

proof fn bv_mask_facts(x: u64, b: u64)
    by (bit_vector)
    requires
        1 <= b <= 12,
    ensures
        (1u64 << b) >= 1,
        x & (((1u64 << b) - 1) as u64) <= 0xfff,
{
}

/// The palette index packed at linear block position `linear`.
pub open spec fn packed_index(data: Seq<i64>, big_endian: bool, bits: int, linear: int) -> int {
    let per_word = 64int / bits;
    let word = data[linear / per_word] as u64;
    let slot = linear % per_word;
    ((word >> ((slot * bits) as u64)) & (((1u64 << (bits as u64)) - 1) as u64)) as int
}

impl BlockStates {
    /// The number of bits used to store one block-state index: at least 4,
    /// and at most 12, since a palette holds at most 4096 entries.
    pub fn bits_per_block(&self) -> (r: usize)
        ensures
            r == bits_for_palette(self.palette@.len() as int),
            4 <= r <= 12,
    {
        let n = self.palette.len();
        if n <= 16 {
            4
        } else if n <= 32 {
            5
        } else if n <= 64 {
            6
        } else if n <= 128 {
            7
        } else if n <= 256 {
            8
        } else if n <= 512 {
            9
        } else if n <= 1024 {
            10
        } else if n <= 2048 {
            11
        } else {
            12
        }
    }

    /// The block state at the given section-relative coordinates. With no
    /// packed data every block is the first palette entry; otherwise the
    /// packed index picks the entry. `None` when the packed data is too
    /// short, the index runs past the palette, or the palette is empty.
    pub fn block(&self, x: usize, y: usize, z: usize) -> (r: Option<&BlockStatePalette>)
        requires
            x < 16,
            y < 16,
            z < 16,
        ensures
            ({
                let linear = y * 256 + z * 16 + x;
                let bits = bits_for_palette(self.palette@.len() as int);
                let per_word = 64int / bits;
                match self.data {
                    None => {
                        &&& r is Some <==> self.palette@.len() > 0
                        &&& r is Some ==> r->0 == self.palette@[0]
                    },
                    Some(arr) => {
                        if linear / per_word < arr.view_spec().len() {
                            let idx = packed_index(arr.view_spec(), arr.big_endian, bits, linear);
                            &&& r is Some <==> idx < self.palette@.len()
                            &&& r is Some ==> r->0 == self.palette@[idx]
                        } else {
                            r is None
                        }
                    },
                }
            }),
    {
        let linear = y * 256 + z * 16 + x;
        let bits = self.bits_per_block();
        let per_word = 64 / bits;
        match &self.data {
            None => {
                if self.palette.len() > 0 {
                    Some(&self.palette[0])
                } else {
                    None
                }
            },
            Some(arr) => {
                let word_index = linear / per_word;
                let slot = linear % per_word;
                match arr.get(word_index) {
                    None => {
                        proof {
                            assert(!(8 * word_index + 8 <= arr.inner@.len()));
                            assert(word_index >= arr.view_spec().len());
                        }
                        None
                    },
                    Some(w) => {
                        proof {
                            assert(word_index < arr.view_spec().len()) by {
                                assert(8 * word_index + 8 <= arr.inner@.len());
                                assert(word_index < arr.inner@.len() / 8) by (nonlinear_arith)
                                    requires
                                        8 * word_index + 8 <= arr.inner@.len(),
                                ;
                            };
                            assert(arr.view_spec()[word_index as int] == arr.long_at(
                                word_index as int,
                            ));
                            assert(slot * bits <= 63) by (nonlinear_arith)
                                requires
                                    slot == (linear as int) % (64int / bits as int),
                                    4 <= bits <= 12,
                                    linear >= 0,
                            ;
                        }
                        proof {
                            bv_mask_facts((w as u64) >> ((slot * bits) as u64), bits as u64);
                        }
                        let mask = (1u64 << (bits as u64)) - 1;
                        let idx = (((w as u64) >> ((slot * bits) as u64)) & mask) as usize;
                        proof {
                            assert(idx == packed_index(arr.view_spec(), arr.big_endian,
                                bits as int, linear as int));
                        }
                        if idx < self.palette.len() {
                            Some(&self.palette[idx])
                        } else {
                            None
                        }
                    },
                }
            },
        }
    }
}

/// The 32-bit integer entry with the given name, if it is there with that
/// kind.
pub open spec fn i32_field(es: Seq<(Seq<char>, TagView)>, name: Seq<char>) -> Option<i32> {
    match compound_get(es, name) {
        Some(TagView::Int(v)) => Some(v),
        _ => None,
    }
}

/// The 64-bit integer entry with the given name, if it is there with that
/// kind.
pub open spec fn i64_field(es: Seq<(Seq<char>, TagView)>, name: Seq<char>) -> Option<i64> {
    match compound_get(es, name) {
        Some(TagView::Long(v)) => Some(v),
        _ => None,
    }
}

/// The byte entry with the given name, if it is there with that kind.
pub open spec fn i8_field(es: Seq<(Seq<char>, TagView)>, name: Seq<char>) -> Option<i8> {
    match compound_get(es, name) {
        Some(TagView::Byte(v)) => Some(v),
        _ => None,
    }
}

/// The string entry with the given name, if it is there with that kind.
pub open spec fn str_field(es: Seq<(Seq<char>, TagView)>, name: Seq<char>) -> Option<Seq<char>> {
    match compound_get(es, name) {
        Some(TagView::String(v)) => Some(v),
        _ => None,
    }
}

/// The long-array entry with the given name, if it is there with that kind.
pub open spec fn long_array_field(es: Seq<(Seq<char>, TagView)>, name: Seq<char>) -> Option<
    Seq<i64>,
> {
    match compound_get(es, name) {
        Some(TagView::LongArray(v)) => Some(v),
        _ => None,
    }
}

/// The byte-array entry with the given name, if it is there with that kind.
pub open spec fn byte_array_field(es: Seq<(Seq<char>, TagView)>, name: Seq<char>) -> Option<
    Seq<u8>,
> {
    match compound_get(es, name) {
        Some(TagView::ByteArray(v)) => Some(v),
        _ => None,
    }
}

fn get_i32(es: &Vec<NamedTag>, name: &str) -> (r: Result<i32, Error>)
    ensures
        r is Ok <==> i32_field(entries_of(es@), name@) is Some,
        r is Ok ==> Some(r->Ok_0) == i32_field(entries_of(es@), name@),
{
    match find(es, name) {
        Some(Tag::Int(v)) => Ok(*v),
        Some(t) => {
            proof {
                lemma_view_variant(*t);
            }
            Err(Error::Message("a field has the wrong kind".to_owned()))
        },
        None => Err(Error::Message("a required field is missing".to_owned())),
    }
}

fn get_i64(es: &Vec<NamedTag>, name: &str) -> (r: Result<i64, Error>)
    ensures
        r is Ok <==> i64_field(entries_of(es@), name@) is Some,
        r is Ok ==> Some(r->Ok_0) == i64_field(entries_of(es@), name@),
{
    match find(es, name) {
        Some(Tag::Long(v)) => Ok(*v),
        Some(t) => {
            proof {
                lemma_view_variant(*t);
            }
            Err(Error::Message("a field has the wrong kind".to_owned()))
        },
        None => Err(Error::Message("a required field is missing".to_owned())),
    }
}

fn get_i8(es: &Vec<NamedTag>, name: &str) -> (r: Result<i8, Error>)
    ensures
        r is Ok <==> i8_field(entries_of(es@), name@) is Some,
        r is Ok ==> Some(r->Ok_0) == i8_field(entries_of(es@), name@),
{
    match find(es, name) {
        Some(Tag::Byte(v)) => Ok(*v),
        Some(t) => {
            proof {
                lemma_view_variant(*t);
            }
            Err(Error::Message("a field has the wrong kind".to_owned()))
        },
        None => Err(Error::Message("a required field is missing".to_owned())),
    }
}

fn get_string(es: &Vec<NamedTag>, name: &str) -> (r: Result<String, Error>)
    ensures
        r is Ok <==> str_field(entries_of(es@), name@) is Some,
        r is Ok ==> Some(r->Ok_0@) == str_field(entries_of(es@), name@),
{
    match find(es, name) {
        Some(Tag::String(v)) => Ok(v.clone()),
        Some(t) => {
            proof {
                lemma_view_variant(*t);
            }
            Err(Error::Message("a field has the wrong kind".to_owned()))
        },
        None => Err(Error::Message("a required field is missing".to_owned())),
    }
}

fn get_long_array(es: &Vec<NamedTag>, name: &str) -> (r: Result<LongArray, Error>)
    ensures
        r is Ok <==> long_array_field(entries_of(es@), name@) is Some,
        r is Ok ==> Some(r->Ok_0.view_spec()) == long_array_field(entries_of(es@), name@),
{
    match find(es, name) {
        Some(Tag::LongArray(v)) => {
            let c = v.deep_clone();
            proof {
                assert(c.view_spec() =~= v.view_spec());
            }
            Ok(c)
        },
        Some(t) => {
            proof {
                lemma_view_variant(*t);
            }
            Err(Error::Message("a field has the wrong kind".to_owned()))
        },
        None => Err(Error::Message("a required field is missing".to_owned())),
    }
}

/// A boolean field is a byte holding 0 or 1; any other byte is the
/// dedicated boolean error.
fn get_opt_bool(es: &Vec<NamedTag>, name: &str) -> (r: Result<Option<bool>, Error>)
    ensures
        ({
            let f = i8_field(entries_of(es@), name@);
            match compound_get(entries_of(es@), name@) {
                None => r == Result::<Option<bool>, Error>::Ok(None),
                Some(TagView::Byte(v)) => if v == 0 {
                    r == Result::<Option<bool>, Error>::Ok(Some(false))
                } else if v == 1 {
                    r == Result::<Option<bool>, Error>::Ok(Some(true))
                } else {
                    r == Result::<Option<bool>, Error>::Err(Error::InvalidBooleanValue(v))
                },
                Some(_) => r is Err,
            }
        }),
{
    match find(es, name) {
        None => Ok(None),
        Some(Tag::Byte(v)) => {
            if *v == 0 {
                Ok(Some(false))
            } else if *v == 1 {
                Ok(Some(true))
            } else {
                Err(Error::InvalidBooleanValue(*v))
            }
        },
        Some(t) => {
            proof {
                lemma_view_variant(*t);
            }
            Err(Error::Message("a field has the wrong kind".to_owned()))
        },
    }
}

/// The list entry with the given name, if it is there with that kind.
pub open spec fn list_field(es: Seq<(Seq<char>, TagView)>, name: Seq<char>) -> Option<
    (TagType, Seq<TagView>),
> {
    match compound_get(es, name) {
        Some(TagView::List(et, v)) => Some((et, v)),
        _ => None,
    }
}

/// Whether an optional long-array entry is absent or well kinded.
pub open spec fn opt_long_array_ok(es: Seq<(Seq<char>, TagView)>, name: Seq<char>) -> bool {
    match compound_get(es, name) {
        None => true,
        Some(TagView::LongArray(_)) => true,
        Some(_) => false,
    }
}

/// Whether an optional byte-array entry is absent or well kinded.
pub open spec fn opt_byte_array_ok(es: Seq<(Seq<char>, TagView)>, name: Seq<char>) -> bool {
    match compound_get(es, name) {
        None => true,
        Some(TagView::ByteArray(_)) => true,
        Some(_) => false,
    }
}

fn get_opt_long_array(es: &Vec<NamedTag>, name: &str) -> (r: Result<Option<LongArray>, Error>)
    ensures
        r is Ok <==> opt_long_array_ok(entries_of(es@), name@),
        r is Ok ==> match compound_get(entries_of(es@), name@) {
            None => r->Ok_0 is None,
            Some(tv) => r->Ok_0 matches Some(arr) && tv == TagView::LongArray(arr.view_spec()),
        },
{
    match find(es, name) {
        None => Ok(None),
        Some(Tag::LongArray(v)) => {
            let c = v.deep_clone();
            proof {
                assert(c.view_spec() =~= v.view_spec());
            }
            Ok(Some(c))
        },
        Some(t) => {
            proof {
                lemma_view_variant(*t);
            }
            Err(Error::Message("a field has the wrong kind".to_owned()))
        },
    }
}

fn get_opt_byte_array(es: &Vec<NamedTag>, name: &str) -> (r: Result<
    Option<crate::nbt::owned::ByteArray>,
    Error,
>)
    ensures
        r is Ok <==> opt_byte_array_ok(entries_of(es@), name@),
        r is Ok ==> match compound_get(entries_of(es@), name@) {
            None => r->Ok_0 is None,
            Some(tv) => r->Ok_0 matches Some(arr) && tv == TagView::ByteArray(arr.inner@),
        },
{
    match find(es, name) {
        None => Ok(None),
        Some(Tag::ByteArray(v)) => Ok(Some(v.deep_clone())),
        Some(t) => {
            proof {
                lemma_view_variant(*t);
            }
            Err(Error::Message("a field has the wrong kind".to_owned()))
        },
    }
}

/// Biomes of one section: a palette of biome names and, unless the whole
/// section is one biome, a packed array of palette indices.
#[derive(Debug)]
pub struct Biomes {
    pub palette: Vec<String>,
    pub data: Option<LongArray>,
}

/// Whether a compound binds as biomes.
pub open spec fn biomes_ok(es: Seq<(Seq<char>, TagView)>) -> bool {
    &&& list_field(es, "palette"@) matches Some((et, v)) && (forall|i: int|
        0 <= i < v.len() ==> (#[trigger] v[i]) is String)
    &&& opt_long_array_ok(es, "data"@)
}

/// How bound biomes relate to the compound they came from.
pub open spec fn biomes_matches(r: Biomes, es: Seq<(Seq<char>, TagView)>) -> bool {
    &&& list_field(es, "palette"@) matches Some((et, v)) && r.palette@.len() == v.len() && (
    forall|i: int|
        0 <= i < v.len() ==> TagView::String((#[trigger] r.palette@[i])@) == v[i])
    &&& match compound_get(es, "data"@) {
        None => r.data is None,
        Some(tv) => r.data matches Some(arr) && tv == TagView::LongArray(arr.view_spec()),
        }
}

impl Biomes {
    /// Binds biomes from a compound's entries.
    #[verifier::loop_isolation(false)]
    pub fn from_entries(es: &Vec<NamedTag>) -> (r: Result<Biomes, Error>)
        ensures
            r is Ok <==> biomes_ok(entries_of(es@)),
            r is Ok ==> biomes_matches(r->Ok_0, entries_of(es@)),
    {
        let ghost ev = entries_of(es@);
        let found = find(es, "palette");
        let palette = match found {
            Some(Tag::List(et, items)) => {
                let ghost iv = views_of(items@);
                proof {
                    lemma_views_of(items@);
                }
                let n = items.len();
                let mut out: Vec<String> = Vec::new();
                let mut i: usize = 0;
                while i < n
                    invariant
                        ev == entries_of(es@),
                        iv == views_of(items@),
                        (list_field(ev, "palette"@) matches Some((et2, v2)) && v2 == iv),
                        iv.len() == n,
                        n == items@.len(),
                        forall|k: int| 0 <= k < n ==> iv[k] == (#[trigger] items@[k])@,
                        i <= n,
                        out@.len() == i,
                        forall|k: int| 0 <= k < i ==> TagView::String(
                            (#[trigger] out@[k])@,
                        ) == iv[k],
                    decreases n - i,
                {
                    let ghost gv = items@[i as int];
                    match &items[i] {
                        Tag::String(v) => {
                            out.push(v.clone());
                        },
                        _ => {
                            proof {
                                lemma_view_variant(gv);
                                assert(!(iv[i as int] is String));
                                assert(!biomes_ok(ev));
                            }
                            return Err(Error::Message(
                                "a biome palette entry must be a string".to_owned(),
                            ));
                        },
                    }
                    i += 1;
                }
                proof {
                    assert forall|k: int| 0 <= k < iv.len() implies (#[trigger] iv[k])
                        is String by {
                        assert(TagView::String(out@[k]@) == iv[k]);
                    };
                }
                out
            },
            Some(t) => {
                proof {
                    lemma_view_variant(*t);
                    assert(!biomes_ok(ev));
                }
                return Err(Error::Message("a biome palette must be a list".to_owned()));
            },
            None => {
                proof {
                    assert(!biomes_ok(ev));
                }
                return Err(Error::Message("a biome palette is required".to_owned()));
            },
        };
        let data = match get_opt_long_array(es, "data") {
            Ok(d) => d,
            Err(e) => {
                return Err(e);
            },
        };
        Ok(Biomes { palette, data })
    }
}

/// Whether a compound binds as block states.
pub open spec fn block_states_ok(es: Seq<(Seq<char>, TagView)>) -> bool {
    &&& list_field(es, "palette"@) matches Some((et, v)) && (forall|i: int|
        0 <= i < v.len() ==> ((#[trigger] v[i]) matches TagView::Compound(pe)
            && palette_entry_ok(pe)))
    &&& opt_long_array_ok(es, "data"@)
}

/// How bound block states relate to the compound they came from.
pub open spec fn block_states_matches(r: BlockStates, es: Seq<(Seq<char>, TagView)>) -> bool {
    &&& list_field(es, "palette"@) matches Some((et, v)) && r.palette@.len() == v.len() && (
    forall|i: int|
        0 <= i < v.len() ==> palette_entry_matches(
            #[trigger] r.palette@[i],
            v[i]->Compound_0,
        ))
    &&& match compound_get(es, "data"@) {
        None => r.data is None,
        Some(tv) => r.data matches Some(arr) && tv == TagView::LongArray(arr.view_spec()),
        }
}

impl BlockStates {
    /// Binds block states from a compound's entries.
    #[verifier::loop_isolation(false)]
    pub fn from_entries(es: &Vec<NamedTag>) -> (r: Result<BlockStates, Error>)
        ensures
            r is Ok <==> block_states_ok(entries_of(es@)),
            r is Ok ==> block_states_matches(r->Ok_0, entries_of(es@)),
    {
        let ghost ev = entries_of(es@);
        let found = find(es, "palette");
        let palette = match found {
            Some(Tag::List(et, items)) => {
                let ghost iv = views_of(items@);
                proof {
                    lemma_views_of(items@);
                }
                let n = items.len();
                let mut out: Vec<BlockStatePalette> = Vec::new();
                let mut i: usize = 0;
                while i < n
                    invariant
                        ev == entries_of(es@),
                        iv == views_of(items@),
                        (list_field(ev, "palette"@) matches Some((et2, v2)) && v2 == iv),
                        iv.len() == n,
                        n == items@.len(),
                        forall|k: int| 0 <= k < n ==> iv[k] == (#[trigger] items@[k])@,
                        i <= n,
                        out@.len() == i,
                        forall|k: int| 0 <= k < i ==> (#[trigger] iv[k]) is Compound,
                        forall|k: int| 0 <= k < i ==> palette_entry_ok(
                            (#[trigger] iv[k])->Compound_0,
                        ),
                        forall|k: int| 0 <= k < i ==> palette_entry_matches(
                            #[trigger] out@[k],
                            iv[k]->Compound_0,
                        ),
                    decreases n - i,
                {
                    let ghost gv = items@[i as int];
                    match &items[i] {
                        Tag::Compound(pe) => {
                            proof {
                                assert(iv[i as int] == TagView::Compound(entries_of(pe@)));
                            }
                            match BlockStatePalette::from_entries(pe) {
                                Ok(p) => {
                                    let ghost out0 = out@;
                                    let ghost pg = p;
                                    out.push(p);
                                    proof {
                                        assert forall|k: int| 0 <= k < i + 1 implies (
                                        #[trigger] iv[k]) is Compound by {
                                            if k == i {
                                                assert(iv[k] == TagView::Compound(entries_of(
                                                    pe@,
                                                )));
                                            }
                                        };
                                        assert forall|k: int| 0 <= k < i + 1 implies
                                            palette_entry_ok((#[trigger] iv[k])->Compound_0) by {
                                            if k == i {
                                                assert(iv[k]->Compound_0 == entries_of(pe@));
                                            }
                                        };
                                        assert forall|k: int| 0 <= k < i + 1 implies
                                            palette_entry_matches(
                                            #[trigger] out@[k],
                                            iv[k]->Compound_0,
                                        ) by {
                                            if k < i {
                                                assert(out@[k] == out0[k]);
                                            } else {
                                                assert(out@[k] == pg);
                                                assert(iv[k]->Compound_0 == entries_of(pe@));
                                            }
                                        };
                                    }
                                },
                                Err(e) => {
                                    proof {
                                        assert(iv[i as int]->Compound_0 == entries_of(pe@));
                                        assert(!block_states_ok(ev));
                                    }
                                    return Err(e);
                                },
                            }
                        },
                        _ => {
                            proof {
                                lemma_view_variant(gv);
                                assert(!(iv[i as int] is Compound));
                                assert(!block_states_ok(ev));
                            }
                            return Err(Error::Message(
                                "a palette entry must be a compound".to_owned(),
                            ));
                        },
                    }
                    i += 1;
                }
                proof {
                    assert forall|k: int| 0 <= k < iv.len() implies ((#[trigger] iv[k])
                        matches TagView::Compound(pe) && palette_entry_ok(pe)) by {
                        assert(iv[k] is Compound);
                        assert(palette_entry_ok(iv[k]->Compound_0));
                    };
                }
                out
            },
            Some(t) => {
                proof {
                    lemma_view_variant(*t);
                    assert(!block_states_ok(ev));
                }
                return Err(Error::Message("a block-state palette must be a list".to_owned()));
            },
            None => {
                proof {
                    assert(!block_states_ok(ev));
                }
                return Err(Error::Message("a block-state palette is required".to_owned()));
            },
        };
        let data = match get_opt_long_array(es, "data") {
            Ok(d) => d,
            Err(e) => {
                return Err(e);
            },
        };
        Ok(BlockStates { palette, data })
    }

    /// What unpacking yields, as a sequence: the packed fields of the
    /// stored words, cut to the section's 4096 voxels. Words hold whole
    /// fields only, so when the field width does not divide 64 the words
    /// carry padding fields past the 4096th; those are not block indices
    /// and are dropped.
    pub open spec fn unpacked_view(&self) -> Seq<u16> {
        let full = self.unpacked_fields();
        if full.len() > 4096 {
            full.take(4096)
        } else {
            full
        }
    }

    /// Every packed field of every stored word: all zero when there is no
    /// packed data, the 4- or 5-bit field schedule over the raw bytes for
    /// palettes their sizes allow, and the word-by-word packed indices
    /// otherwise.
    pub open spec fn unpacked_fields(&self) -> Seq<u16> {
        let bits = bits_for_palette(self.palette@.len() as int);
        let per_word = 64int / bits;
        match self.data {
            None => Seq::new(4096nat, |k: int| 0u16),
            Some(arr) => {
                if self.palette@.len() <= 16 {
                    if arr.inner@.len() % 8 == 0 {
                        Seq::new(
                            (2 * arr.inner@.len()) as nat,
                            |k: int| nibble(word_at(arr.inner@, arr.big_endian, k / 16), k % 16),
                        )
                    } else {
                        Seq::empty()
                    }
                } else if self.palette@.len() <= 32 {
                    if arr.inner@.len() % 8 == 0 {
                        Seq::new(
                            (arr.inner@.len() / 8 * 12) as nat,
                            |k: int| quintet(word_at(arr.inner@, arr.big_endian, k / 12), k % 12),
                        )
                    } else {
                        Seq::empty()
                    }
                } else {
                    Seq::new(
                        (arr.view_spec().len() * per_word) as nat,
                        |k: int| packed_index(arr.view_spec(), arr.big_endian, bits, k) as u16,
                    )
                }
            },
        }
    }

    /// Unpacks the block-state data into a flat array of palette indices,
    /// at most one per voxel of the 16-by-16-by-16 section. With no packed
    /// data, all 4096 indices are 0. Palettes of up to 16 or 32 entries
    /// take the dedicated 4- and 5-bit unpackers over the raw bytes; wider
    /// palettes are unpacked word by word. Padding fields past the 4096th,
    /// which exist whenever the field width does not divide 64, are cut
    /// off.
    #[verifier::loop_isolation(false)]
    pub fn unpack_data(&self) -> (r: Vec<u16>)
        ensures
            r@ == self.unpacked_view(),
            r@.len() <= 4096,
            self.data is None ==> r@.len() == 4096,
    {
        match &self.data {
            None => {
                let mut out: Vec<u16> = Vec::new();
                let mut i: usize = 0;
                while i < 4096
                    invariant
                        i <= 4096,
                        out@.len() == i,
                        forall|k: int| 0 <= k < i ==> out@[k] == 0u16,
                    decreases 4096 - i,
                {
                    out.push(0);
                    i += 1;
                }
                proof {
                    assert(out@ =~= self.unpacked_fields());
                    assert(out@ == self.unpacked_view());
                }
                out
            },
            Some(arr) => {
                if self.palette.len() <= 16 {
                    let mut r4 = unpack::unpack4(arr.as_raw_slice(), arr.big_endian());
                    proof {
                        assert(r4@ =~= self.unpacked_fields());
                    }
                    if r4.len() > 4096 {
                        r4.truncate(4096);
                        proof {
                            assert(r4@ =~= self.unpacked_view());
                        }
                    } else {
                        proof {
                            assert(r4@ =~= self.unpacked_view());
                        }
                    }
                    return r4;
                }
                if self.palette.len() <= 32 {
                    let mut r5 = unpack::unpack5(arr.as_raw_slice(), arr.big_endian());
                    proof {
                        assert(r5@ =~= self.unpacked_fields());
                    }
                    if r5.len() > 4096 {
                        r5.truncate(4096);
                        proof {
                            assert(r5@ =~= self.unpacked_view());
                        }
                    } else {
                        proof {
                            assert(r5@ =~= self.unpacked_view());
                        }
                    }
                    return r5;
                }
                let bits = self.bits_per_block();
                let per_word = 64 / bits;
                let words = arr.len();
                proof {
                    bv_mask_facts(0, bits as u64);
                    assert(words * per_word <= words * 16) by (nonlinear_arith)
                        requires
                            per_word <= 16,
                            words >= 0,
                    ;
                    assert(8 * words <= arr.inner@.len()) by (nonlinear_arith)
                        requires
                            words == arr.inner@.len() / 8,
                    ;
                }
                let mask = (1u64 << (bits as u64)) - 1;
                let mut out: Vec<u16> = Vec::new();
                let mut i: usize = 0;
                while i < words
                    invariant
                        words == arr.view_spec().len(),
                        4 <= bits <= 12,
                        bits == bits_for_palette(self.palette@.len() as int),
                        self.palette@.len() > 32,
                        per_word == 64int / bits as int,
                        mask as int == ((1u64 << (bits as u64)) - 1) as u64 as int,
                        mask == ((1u64 << (bits as u64)) - 1) as u64,
                        i <= words,
                        out@.len() == i * per_word,
                        forall|k: int| 0 <= k < out@.len() ==> out@[k] as int == packed_index(
                            arr.view_spec(),
                            arr.big_endian,
                            bits as int,
                            k,
                        ),
                    decreases words - i,
                {
                    let w = match arr.get(i) {
                        Some(w) => w,
                        None => {
                            proof {
                                assert(8 * i + 8 <= arr.inner@.len()) by (nonlinear_arith)
                                    requires
                                        i < arr.inner@.len() / 8,
                                ;
                                assert(false);
                            }
                            0
                        },
                    };
                    let mut j: usize = 0;
                    while j < per_word
                        invariant
                            words == arr.view_spec().len(),
                            i < words,
                            4 <= bits <= 12,
                            per_word == 64int / bits as int,
                            per_word <= 16,
                            mask == ((1u64 << (bits as u64)) - 1) as u64,
                            w == arr.view_spec()[i as int],
                            j <= per_word,
                            out@.len() == i * per_word + j,
                            forall|k: int| 0 <= k < out@.len() ==> out@[k] as int
                                == packed_index(
                                    arr.view_spec(),
                                    arr.big_endian,
                                    bits as int,
                                    k,
                                ),
                        decreases per_word - j,
                    {
                        proof {
                            assert(j * bits <= 63) by (nonlinear_arith)
                                requires
                                    0 <= j,
                                    j < per_word,
                                    per_word == 64int / bits as int,
                                    4 <= bits <= 12,
                            ;
                            bv_mask_facts((w as u64) >> ((j * bits) as u64), bits as u64);
                        }
                        let v = (((w as u64) >> ((j * bits) as u64)) & mask) as u16;
                        out.push(v);
                        proof {
                            let k = out@.len() - 1;
                            assert(k == i * per_word + j);
                            assert(k / per_word as int == i && k % per_word as int == j)
                                by (nonlinear_arith)
                                requires
                                    k == i * per_word + j,
                                    0 <= j < per_word,
                                    0 <= i,
                                    per_word > 0,
                            ;
                        }
                        j += 1;
                    }
                    proof {
                        assert((i + 1) * per_word == i * per_word + per_word)
                            by (nonlinear_arith);
                    }
                    i += 1;
                }
                proof {
                    assert(out@.len() == words * per_word);
                    assert(out@ =~= self.unpacked_fields());
                }
                if out.len() > 4096 {
                    out.truncate(4096);
                    proof {
                        assert(out@ =~= self.unpacked_view());
                    }
                } else {
                    proof {
                        assert(out@ =~= self.unpacked_view());
                    }
                }
                out
            },
        }
    }
}

/// One section of a chunk.
#[derive(Debug)]
pub struct Section {
    /// Section height index; the lowest block of the section sits at 16
    /// times this value.
    pub y: i8,
    pub block_states: Option<BlockStates>,
    pub biomes: Option<Biomes>,
    pub block_light: Option<crate::nbt::owned::ByteArray>,
    pub sky_light: Option<crate::nbt::owned::ByteArray>,
}

/// Whether a compound binds as a section.
pub open spec fn section_ok(es: Seq<(Seq<char>, TagView)>) -> bool {
    &&& i8_field(es, "Y"@) is Some
    &&& match compound_get(es, "block_states"@) {
        None => true,
        Some(TagView::Compound(bs)) => block_states_ok(bs),
        Some(_) => false,
    }
    &&& match compound_get(es, "biomes"@) {
        None => true,
        Some(TagView::Compound(bs)) => biomes_ok(bs),
        Some(_) => false,
    }
    &&& opt_byte_array_ok(es, "BlockLight"@)
    &&& opt_byte_array_ok(es, "SkyLight"@)
}

/// How a bound section relates to the compound it came from.
pub open spec fn section_matches(r: Section, es: Seq<(Seq<char>, TagView)>) -> bool {
    &&& Some(r.y) == i8_field(es, "Y"@)
    &&& match compound_get(es, "block_states"@) {
        None => r.block_states is None,
        Some(TagView::Compound(bs)) => r.block_states matches Some(b) && block_states_matches(
            b,
            bs,
        ),
        Some(_) => false,
    }
    &&& match compound_get(es, "biomes"@) {
        None => r.biomes is None,
        Some(TagView::Compound(bs)) => r.biomes matches Some(b) && biomes_matches(b, bs),
        Some(_) => false,
    }
    &&& match compound_get(es, "BlockLight"@) {
        None => r.block_light is None,
        Some(tv) => r.block_light matches Some(a) && tv == TagView::ByteArray(a.inner@),
    }
    &&& match compound_get(es, "SkyLight"@) {
        None => r.sky_light is None,
        Some(tv) => r.sky_light matches Some(a) && tv == TagView::ByteArray(a.inner@),
    }
}

impl Section {
    /// Binds a section from a compound's entries.
    pub fn from_entries(es: &Vec<NamedTag>) -> (r: Result<Section, Error>)
        ensures
            r is Ok <==> section_ok(entries_of(es@)),
            r is Ok ==> section_matches(r->Ok_0, entries_of(es@)),
    {
        let ghost ev = entries_of(es@);
        let y = match get_i8(es, "Y") {
            Ok(v) => v,
            Err(e) => {
                return Err(e);
            },
        };
        let found_bs = find(es, "block_states");
        let block_states = match found_bs {
            None => None,
            Some(Tag::Compound(bs)) => {
                match BlockStates::from_entries(bs) {
                    Ok(b) => Some(b),
                    Err(e) => {
                        return Err(e);
                    },
                }
            },
            Some(t) => {
                proof {
                    lemma_view_variant(*t);
                }
                return Err(Error::Message("block states must be a compound".to_owned()));
            },
        };
        let found_bio = find(es, "biomes");
        let biomes = match found_bio {
            None => None,
            Some(Tag::Compound(bs)) => {
                match Biomes::from_entries(bs) {
                    Ok(b) => Some(b),
                    Err(e) => {
                        return Err(e);
                    },
                }
            },
            Some(t) => {
                proof {
                    lemma_view_variant(*t);
                }
                return Err(Error::Message("biomes must be a compound".to_owned()));
            },
        };
        let block_light = match get_opt_byte_array(es, "BlockLight") {
            Ok(v) => v,
            Err(e) => {
                return Err(e);
            },
        };
        let sky_light = match get_opt_byte_array(es, "SkyLight") {
            Ok(v) => v,
            Err(e) => {
                return Err(e);
            },
        };
        Ok(Section { y, block_states, biomes, block_light, sky_light })
    }
}

/// Blending bounds of a chunk.
#[derive(Debug, Clone, PartialEq)]
pub struct BlendingData {
    pub min_section: i32,
    pub max_section: i32,
}

/// Whether a compound binds as blending data.
pub open spec fn blending_data_ok(es: Seq<(Seq<char>, TagView)>) -> bool {
    &&& i32_field(es, "min_section"@) is Some
    &&& i32_field(es, "max_section"@) is Some
}

/// How bound blending data relates to the compound it came from.
pub open spec fn blending_data_matches(r: BlendingData, es: Seq<(Seq<char>, TagView)>) -> bool {
    &&& Some(r.min_section) == i32_field(es, "min_section"@)
    &&& Some(r.max_section) == i32_field(es, "max_section"@)
}

impl BlendingData {
    /// Binds blending data from a compound's entries.
    pub fn from_entries(es: &Vec<NamedTag>) -> (r: Result<BlendingData, Error>)
        ensures
            r is Ok <==> blending_data_ok(entries_of(es@)),
            r is Ok ==> blending_data_matches(r->Ok_0, entries_of(es@)),
    {
        let min_section = match get_i32(es, "min_section") {
            Ok(v) => v,
            Err(e) => {
                return Err(e);
            },
        };
        let max_section = match get_i32(es, "max_section") {
            Ok(v) => v,
            Err(e) => {
                return Err(e);
            },
        };
        Ok(BlendingData { min_section, max_section })
    }
}

/// One scheduled block or fluid tick.
#[derive(Debug, Clone, PartialEq)]
pub struct TileTick {
    pub i: String,
    pub p: i32,
    pub t: i32,
    pub x: i32,
    pub y: i32,
    pub z: i32,
}

/// Whether a compound binds as a tile tick.
pub open spec fn tile_tick_ok(es: Seq<(Seq<char>, TagView)>) -> bool {
    &&& str_field(es, "i"@) is Some
    &&& i32_field(es, "p"@) is Some
    &&& i32_field(es, "t"@) is Some
    &&& i32_field(es, "x"@) is Some
    &&& i32_field(es, "y"@) is Some
    &&& i32_field(es, "z"@) is Some
}

/// How a bound tile tick relates to the compound it came from.
pub open spec fn tile_tick_matches(r: TileTick, es: Seq<(Seq<char>, TagView)>) -> bool {
    &&& Some(r.i@) == str_field(es, "i"@)
    &&& Some(r.p) == i32_field(es, "p"@)
    &&& Some(r.t) == i32_field(es, "t"@)
    &&& Some(r.x) == i32_field(es, "x"@)
    &&& Some(r.y) == i32_field(es, "y"@)
    &&& Some(r.z) == i32_field(es, "z"@)
}

impl TileTick {
    /// Binds a tile tick from a compound's entries.
    pub fn from_entries(es: &Vec<NamedTag>) -> (r: Result<TileTick, Error>)
        ensures
            r is Ok <==> tile_tick_ok(entries_of(es@)),
            r is Ok ==> tile_tick_matches(r->Ok_0, entries_of(es@)),
    {
        let i = match get_string(es, "i") {
            Ok(v) => v,
            Err(e) => {
                return Err(e);
            },
        };
        let p = match get_i32(es, "p") {
            Ok(v) => v,
            Err(e) => {
                return Err(e);
            },
        };
        let t = match get_i32(es, "t") {
            Ok(v) => v,
            Err(e) => {
                return Err(e);
            },
        };
        let x = match get_i32(es, "x") {
            Ok(v) => v,
            Err(e) => {
                return Err(e);
            },
        };
        let y = match get_i32(es, "y") {
            Ok(v) => v,
            Err(e) => {
                return Err(e);
            },
        };
        let z = match get_i32(es, "z") {
            Ok(v) => v,
            Err(e) => {
                return Err(e);
            },
        };
        Ok(TileTick { i, p, t, x, y, z })
    }
}

/// The height maps of a chunk: six packed long arrays.
#[derive(Debug)]
pub struct HeightMaps {
    pub motion_blocking: LongArray,
    pub motion_blocking_no_leaves: LongArray,
    pub ocean_floor: LongArray,
    pub ocean_floor_wg: LongArray,
    pub world_surface: LongArray,
    pub world_surface_wg: LongArray,
}

/// Whether a compound binds as height maps.
pub open spec fn height_maps_ok(es: Seq<(Seq<char>, TagView)>) -> bool {
    &&& long_array_field(es, "MOTION_BLOCKING"@) is Some
    &&& long_array_field(es, "MOTION_BLOCKING_NO_LEAVES"@) is Some
    &&& long_array_field(es, "OCEAN_FLOOR"@) is Some
    &&& long_array_field(es, "OCEAN_FLOOR_WG"@) is Some
    &&& long_array_field(es, "WORLD_SURFACE"@) is Some
    &&& long_array_field(es, "WORLD_SURFACE_WG"@) is Some
}

/// How bound height maps relate to the compound they came from.
pub open spec fn height_maps_matches(r: HeightMaps, es: Seq<(Seq<char>, TagView)>) -> bool {
    &&& Some(r.motion_blocking.view_spec()) == long_array_field(es, "MOTION_BLOCKING"@)
    &&& Some(r.motion_blocking_no_leaves.view_spec()) == long_array_field(
        es,
        "MOTION_BLOCKING_NO_LEAVES"@,
    )
    &&& Some(r.ocean_floor.view_spec()) == long_array_field(es, "OCEAN_FLOOR"@)
    &&& Some(r.ocean_floor_wg.view_spec()) == long_array_field(es, "OCEAN_FLOOR_WG"@)
    &&& Some(r.world_surface.view_spec()) == long_array_field(es, "WORLD_SURFACE"@)
    &&& Some(r.world_surface_wg.view_spec()) == long_array_field(es, "WORLD_SURFACE_WG"@)
}

impl HeightMaps {
    /// Binds height maps from a compound's entries.
    pub fn from_entries(es: &Vec<NamedTag>) -> (r: Result<HeightMaps, Error>)
        ensures
            r is Ok <==> height_maps_ok(entries_of(es@)),
            r is Ok ==> height_maps_matches(r->Ok_0, entries_of(es@)),
    {
        let motion_blocking = match get_long_array(es, "MOTION_BLOCKING") {
            Ok(v) => v,
            Err(e) => {
                return Err(e);
            },
        };
        let motion_blocking_no_leaves = match get_long_array(es, "MOTION_BLOCKING_NO_LEAVES") {
            Ok(v) => v,
            Err(e) => {
                return Err(e);
            },
        };
        let ocean_floor = match get_long_array(es, "OCEAN_FLOOR") {
            Ok(v) => v,
            Err(e) => {
                return Err(e);
            },
        };
        let ocean_floor_wg = match get_long_array(es, "OCEAN_FLOOR_WG") {
            Ok(v) => v,
            Err(e) => {
                return Err(e);
            },
        };
        let world_surface = match get_long_array(es, "WORLD_SURFACE") {
            Ok(v) => v,
            Err(e) => {
                return Err(e);
            },
        };
        let world_surface_wg = match get_long_array(es, "WORLD_SURFACE_WG") {
            Ok(v) => v,
            Err(e) => {
                return Err(e);
            },
        };
        Ok(HeightMaps {
            motion_blocking,
            motion_blocking_no_leaves,
            ocean_floor,
            ocean_floor_wg,
            world_surface,
            world_surface_wg,
        })
    }
}

/// The field names a block entity declares itself; everything else in its
/// compound is kept as dynamic tags.
pub open spec fn known_entity_field(n: Seq<char>) -> bool {
    n == "id"@ || n == "keepPacked"@ || n == "x"@ || n == "y"@ || n == "z"@
}

/// One block entity: the declared fields, and the rest of its compound
/// kept as dynamic tags in wire order.
#[derive(Debug)]
pub struct BlockEntity {
    pub id: String,
    pub keep_packed: Option<bool>,
    pub x: i32,
    pub y: i32,
    pub z: i32,
    /// The entries specific to the block entity's type.
    pub specific: Vec<NamedTag>,
}

/// Whether a compound binds as a block entity.
pub open spec fn block_entity_ok(es: Seq<(Seq<char>, TagView)>) -> bool {
    &&& str_field(es, "id"@) is Some
    &&& match compound_get(es, "keepPacked"@) {
        None => true,
        Some(TagView::Byte(v)) => v == 0 || v == 1,
        Some(_) => false,
    }
    &&& i32_field(es, "x"@) is Some
    &&& i32_field(es, "y"@) is Some
    &&& i32_field(es, "z"@) is Some
}

/// How a bound block entity relates to the compound it came from.
pub open spec fn block_entity_matches(r: BlockEntity, es: Seq<(Seq<char>, TagView)>) -> bool {
    &&& Some(r.id@) == str_field(es, "id"@)
    &&& match compound_get(es, "keepPacked"@) {
        None => r.keep_packed is None,
        Some(TagView::Byte(v)) => r.keep_packed == Some(v == 1),
        Some(_) => false,
    }
    &&& Some(r.x) == i32_field(es, "x"@)
    &&& Some(r.y) == i32_field(es, "y"@)
    &&& Some(r.z) == i32_field(es, "z"@)
    &&& entries_of(r.specific@) == es.filter(|p: (Seq<char>, TagView)| !known_entity_field(p.0))
}

impl BlockEntity {
    /// Binds a block entity from a compound's entries, keeping the entries
    /// it does not declare.
    #[verifier::loop_isolation(false)]
    pub fn from_entries(es: &Vec<NamedTag>) -> (r: Result<BlockEntity, Error>)
        ensures
            r is Ok <==> block_entity_ok(entries_of(es@)),
            r is Ok ==> block_entity_matches(r->Ok_0, entries_of(es@)),
    {
        let ghost ev = entries_of(es@);
        let ghost pred = |p: (Seq<char>, TagView)| !known_entity_field(p.0);
        let id = match get_string(es, "id") {
            Ok(v) => v,
            Err(e) => {
                return Err(e);
            },
        };
        let keep_packed = match get_opt_bool(es, "keepPacked") {
            Ok(v) => v,
            Err(e) => {
                return Err(e);
            },
        };
        let x = match get_i32(es, "x") {
            Ok(v) => v,
            Err(e) => {
                return Err(e);
            },
        };
        let y = match get_i32(es, "y") {
            Ok(v) => v,
            Err(e) => {
                return Err(e);
            },
        };
        let z = match get_i32(es, "z") {
            Ok(v) => v,
            Err(e) => {
                return Err(e);
            },
        };
        let n = es.len();
        let mut specific: Vec<NamedTag> = Vec::new();
        proof {
            lemma_entries_of(es@);
            reveal_with_fuel(Seq::filter, 2);
            assert(ev.take(0) =~= Seq::<(Seq<char>, TagView)>::empty());
            assert(ev.take(0).filter(pred) =~= entries_of(specific@));
        }
        let mut i: usize = 0;
        while i < n
            invariant
                i <= n,
                entries_of(specific@) == ev.take(i as int).filter(pred),
            decreases n - i,
        {
            let ghost specific0 = specific@;
            let name = &es[i].name;
            let known = string_slices_equal(name.as_str(), "id") || string_slices_equal(name.as_str(), "keepPacked")
                || string_slices_equal(name.as_str(), "x") || string_slices_equal(name.as_str(), "y") || string_slices_equal(
                name.as_str(),
                "z",
            );
            proof {
                assert(ev[i as int] == (es@[i as int].name@, es@[i as int].value@));
                assert(known == known_entity_field(ev[i as int].0));
                assert(ev.take(i + 1).drop_last() =~= ev.take(i as int));
                assert(ev.take(i + 1).last() == ev[i as int]);
            }
            if !known {
                let entry = NamedTag {
                    name: es[i].name.clone(),
                    value: es[i].value.deep_clone(),
                };
                specific.push(entry);
                proof {
                    reveal_with_fuel(Seq::filter, 2);
                    lemma_entries_of(specific@);
                    lemma_entries_of(specific0);
                    assert forall|k: int| 0 <= k < specific@.len() implies entries_of(
                        specific@,
                    )[k] == entries_of(specific0).push(ev[i as int])[k] by {
                        assert(entries_of(specific@)[k] == (specific@[k].name@,
                            specific@[k].value@));
                        if k < specific0.len() {
                            assert(entries_of(specific0)[k] == (specific0[k].name@,
                                specific0[k].value@));
                        }
                    };
                    assert(entries_of(specific@) =~= entries_of(specific0).push(
                        ev[i as int],
                    ));
                    assert(ev.take(i + 1).filter(pred) == ev.take(i as int).filter(pred).push(
                        ev[i as int],
                    ));
                }
            } else {
                proof {
                    reveal_with_fuel(Seq::filter, 2);
                    assert(ev.take(i + 1).filter(pred) == ev.take(i as int).filter(pred));
                }
            }
            i += 1;
        }
        proof {
            assert(ev.take(n as int) =~= ev);
        }
        Ok(BlockEntity { id, keep_packed, x, y, z, specific })
    }
}

/// The structures of a chunk: the pending starts as dynamic tags, and for
/// each structure the packed chunk coordinates that reference it.
#[derive(Debug)]
pub struct Structures {
    /// Structures that have yet to be generated, as dynamic tags.
    pub starts: Vec<NamedTag>,
    /// Packed chunk coordinates of the structure starts.
    pub references: Vec<(String, LongArray)>,
}

/// Whether a compound binds as structures.
pub open spec fn structures_ok(es: Seq<(Seq<char>, TagView)>) -> bool {
    &&& compound_get(es, "starts"@) matches Some(TagView::Compound(_))
    &&& compound_get(es, "References"@) matches Some(TagView::Compound(rs)) && (forall|i: int|
        0 <= i < rs.len() ==> (#[trigger] rs[i]).1 is LongArray)
}

/// How bound structures relate to the compound they came from.
pub open spec fn structures_matches(r: Structures, es: Seq<(Seq<char>, TagView)>) -> bool {
    &&& compound_get(es, "starts"@) == Some(TagView::Compound(entries_of(r.starts@)))
    &&& compound_get(es, "References"@) matches Some(TagView::Compound(rs))
        && r.references@.len() == rs.len() && (forall|i: int|
        0 <= i < rs.len() ==> ((#[trigger] r.references@[i]).0@, TagView::LongArray(
            r.references@[i].1.view_spec(),
        )) == rs[i])
}

impl Structures {
    /// Binds structures from a compound's entries.
    #[verifier::loop_isolation(false)]
    pub fn from_entries(es: &Vec<NamedTag>) -> (r: Result<Structures, Error>)
        ensures
            r is Ok <==> structures_ok(entries_of(es@)),
            r is Ok ==> structures_matches(r->Ok_0, entries_of(es@)),
    {
        let ghost ev = entries_of(es@);
        let found_starts = find(es, "starts");
        let starts = match found_starts {
            Some(Tag::Compound(sts)) => {
                let n = sts.len();
                let mut out: Vec<NamedTag> = Vec::new();
                let mut i: usize = 0;
                while i < n
                    invariant
                        i <= n,
                        out@.len() == i,
                        forall|k: int| 0 <= k < i ==> (#[trigger] out@[k]).name@
                            == sts@[k].name@ && out@[k].value@ == sts@[k].value@,
                    decreases n - i,
                {
                    let entry = NamedTag {
                        name: sts[i].name.clone(),
                        value: sts[i].value.deep_clone(),
                    };
                    out.push(entry);
                    i += 1;
                }
                proof {
                    lemma_entries_of(out@);
                    lemma_entries_of(sts@);
                    assert forall|k: int| 0 <= k < out@.len() implies entries_of(out@)[k]
                        == entries_of(sts@)[k] by {
                        assert(entries_of(out@)[k] == (out@[k].name@, out@[k].value@));
                        assert(entries_of(sts@)[k] == (sts@[k].name@, sts@[k].value@));
                    };
                    assert(entries_of(out@) =~= entries_of(sts@));
                }
                out
            },
            Some(t) => {
                proof {
                    lemma_view_variant(*t);
                }
                return Err(Error::Message("structure starts must be a compound".to_owned()));
            },
            None => {
                return Err(Error::Message("structure starts are required".to_owned()));
            },
        };
        let found_refs = find(es, "References");
        let references = match found_refs {
            Some(Tag::Compound(rs)) => {
                let ghost rv = entries_of(rs@);
                proof {
                    lemma_entries_of(rs@);
                }
                let n = rs.len();
                let mut out: Vec<(String, LongArray)> = Vec::new();
                let mut i: usize = 0;
                while i < n
                    invariant
                        i <= n,
                        rv == entries_of(rs@),
                        rv.len() == n,
                        n == rs@.len(),
                        forall|k: int| 0 <= k < n ==> rv[k] == (#[trigger] rs@[k].name@,
                            rs@[k].value@),
                        out@.len() == i,
                        forall|k: int| 0 <= k < i ==> ((#[trigger] out@[k]).0@,
                            TagView::LongArray(out@[k].1.view_spec())) == rv[k],
                    decreases n - i,
                {
                    let ghost gv = rs@[i as int].value;
                    match &rs[i].value {
                        Tag::LongArray(a) => {
                            let c = a.deep_clone();
                            proof {
                                assert(c.view_spec() =~= a.view_spec());
                            }
                            out.push((rs[i].name.clone(), c));
                        },
                        _ => {
                            proof {
                                let trig = rs@[i as int].name@;
                                assert(rv[i as int] == (rs@[i as int].name@,
                                    rs@[i as int].value@));
                                lemma_view_variant(gv);
                                assert(!(rv[i as int].1 is LongArray));
                            }
                            return Err(Error::Message(
                                "a structure reference must be a long array".to_owned(),
                            ));
                        },
                    }
                    i += 1;
                }
                proof {
                    assert forall|k: int| 0 <= k < rv.len() implies (#[trigger] rv[k]).1
                        is LongArray by {
                        assert((out@[k].0@, TagView::LongArray(out@[k].1.view_spec()))
                            == rv[k]);
                    };
                }
                out
            },
            Some(t) => {
                proof {
                    lemma_view_variant(*t);
                }
                return Err(Error::Message(
                    "structure references must be a compound".to_owned(),
                ));
            },
            None => {
                return Err(Error::Message("structure references are required".to_owned()));
            },
        };
        Ok(Structures { starts, references })
    }
}

/// A decoded chunk.
#[derive(Debug)]
pub struct Chunk {
    pub data_version: i32,
    pub x_pos: i32,
    pub z_pos: i32,
    pub y_pos: i32,
    pub status: String,
    pub last_update: i64,
    pub sections: Vec<Section>,
    pub block_entities: Vec<BlockEntity>,
    pub height_maps: Option<HeightMaps>,
    pub inhabited_time: i64,
    pub blending_data: Option<BlendingData>,
    /// For each section, the section-relative coordinates of blocks still
    /// to be processed, packed three nibbles to a short.
    pub post_processing: Vec<Vec<i16>>,
    pub structures: Structures,
    /// Whether the light data of the chunk can be used as it is.
    pub is_light_on: Option<bool>,
    pub block_ticks: Option<Vec<TileTick>>,
    pub fluid_ticks: Option<Vec<TileTick>>,
}

/// How a bound section list relates to the list it came from.
pub open spec fn sections_match_list(rs: Seq<Section>, v: Seq<TagView>) -> bool {
    rs.len() == v.len() && (forall|i: int|
        0 <= i < v.len() ==> section_matches(#[trigger] rs[i], v[i]->Compound_0))
}

/// How a bound tick list relates to the list it came from.
pub open spec fn ticks_match_list(rs: Seq<TileTick>, v: Seq<TagView>) -> bool {
    rs.len() == v.len() && (forall|i: int|
        0 <= i < v.len() ==> tile_tick_matches(#[trigger] rs[i], v[i]->Compound_0))
}

/// How a bound block-entity list relates to the list it came from.
pub open spec fn entities_match_list(rs: Seq<BlockEntity>, v: Seq<TagView>) -> bool {
    rs.len() == v.len() && (forall|i: int|
        0 <= i < v.len() ==> block_entity_matches(#[trigger] rs[i], v[i]->Compound_0))
}

/// How bound short lists relate to the lists they came from.
pub open spec fn short_lists_match(rs: Seq<Vec<i16>>, v: Seq<TagView>) -> bool {
    rs.len() == v.len() && (forall|i: int|
        0 <= i < v.len() ==> ((#[trigger] v[i]) matches TagView::List(et, w) && rs[i]@.len()
            == w.len() && (forall|j: int|
            0 <= j < w.len() ==> TagView::Short(#[trigger] rs[i]@[j]) == w[j])))
}

/// Whether a list's elements all bind as sections.
pub open spec fn sections_list_ok(v: Seq<TagView>) -> bool {
    forall|i: int|
        0 <= i < v.len() ==> ((#[trigger] v[i]) matches TagView::Compound(se) && section_ok(se))
}

/// Whether a list's elements all bind as tile ticks.
pub open spec fn ticks_list_ok(v: Seq<TagView>) -> bool {
    forall|i: int|
        0 <= i < v.len() ==> ((#[trigger] v[i]) matches TagView::Compound(se) && tile_tick_ok(
            se,
        ))
}

/// Whether a list's elements all bind as block entities.
pub open spec fn entities_list_ok(v: Seq<TagView>) -> bool {
    forall|i: int|
        0 <= i < v.len() ==> ((#[trigger] v[i]) matches TagView::Compound(se)
            && block_entity_ok(se))
}

/// Whether a list's elements are all lists of shorts.
pub open spec fn short_lists_ok(v: Seq<TagView>) -> bool {
    forall|i: int|
        0 <= i < v.len() ==> ((#[trigger] v[i]) matches TagView::List(et, w) && (forall|j: int|
            0 <= j < w.len() ==> (#[trigger] w[j]) is Short))
}

/// Whether a compound binds as a chunk.
pub open spec fn chunk_ok(es: Seq<(Seq<char>, TagView)>) -> bool {
    &&& i32_field(es, "DataVersion"@) is Some
    &&& i32_field(es, "xPos"@) is Some
    &&& i32_field(es, "zPos"@) is Some
    &&& i32_field(es, "yPos"@) is Some
    &&& str_field(es, "Status"@) is Some
    &&& i64_field(es, "LastUpdate"@) is Some
    &&& list_field(es, "sections"@) matches Some((et, v)) && (sections_list_ok(v))
    &&& list_field(es, "block_entities"@) matches Some((et2, v2)) && (entities_list_ok(v2))
    &&& match compound_get(es, "HeightMaps"@) {
        None => true,
        Some(TagView::Compound(h)) => height_maps_ok(h),
        Some(_) => false,
    }
    &&& i64_field(es, "InhabitedTime"@) is Some
    &&& match compound_get(es, "blending_data"@) {
        None => true,
        Some(TagView::Compound(b)) => blending_data_ok(b),
        Some(_) => false,
    }
    &&& list_field(es, "PostProcessing"@) matches Some((et3, v3)) && (short_lists_ok(v3))
    &&& compound_get(es, "structures"@) matches Some(TagView::Compound(st)) && (structures_ok(
        st,
    ))
    &&& match compound_get(es, "isLightOn"@) {
        None => true,
        Some(TagView::Byte(v)) => v == 0 || v == 1,
        Some(_) => false,
    }
    &&& match compound_get(es, "block_ticks"@) {
        None => true,
        Some(TagView::List(et4, v4)) => ticks_list_ok(v4),
        Some(_) => false,
    }
    &&& match compound_get(es, "fluid_ticks"@) {
        None => true,
        Some(TagView::List(et5, v5)) => ticks_list_ok(v5),
        Some(_) => false,
    }
}

/// How a bound chunk relates to the compound it came from.
pub open spec fn chunk_matches(r: Chunk, es: Seq<(Seq<char>, TagView)>) -> bool {
    &&& Some(r.data_version) == i32_field(es, "DataVersion"@)
    &&& Some(r.x_pos) == i32_field(es, "xPos"@)
    &&& Some(r.z_pos) == i32_field(es, "zPos"@)
    &&& Some(r.y_pos) == i32_field(es, "yPos"@)
    &&& Some(r.status@) == str_field(es, "Status"@)
    &&& Some(r.last_update) == i64_field(es, "LastUpdate"@)
    &&& list_field(es, "sections"@) matches Some((et, v)) && (sections_match_list(
        r.sections@,
        v,
    ))
    &&& list_field(es, "block_entities"@) matches Some((et2, v2)) && (entities_match_list(
        r.block_entities@,
        v2,
    ))
    &&& match compound_get(es, "HeightMaps"@) {
        None => r.height_maps is None,
        Some(TagView::Compound(h)) => r.height_maps matches Some(hm) && height_maps_matches(
            hm,
            h,
        ),
        Some(_) => false,
    }
    &&& Some(r.inhabited_time) == i64_field(es, "InhabitedTime"@)
    &&& match compound_get(es, "blending_data"@) {
        None => r.blending_data is None,
        Some(TagView::Compound(b)) => r.blending_data matches Some(bd)
            && blending_data_matches(bd, b),
        Some(_) => false,
    }
    &&& list_field(es, "PostProcessing"@) matches Some((et3, v3)) && (short_lists_match(
        r.post_processing@,
        v3,
    ))
    &&& compound_get(es, "structures"@) matches Some(TagView::Compound(st)) && (
    structures_matches(r.structures, st))
    &&& match compound_get(es, "isLightOn"@) {
        None => r.is_light_on is None,
        Some(TagView::Byte(v)) => r.is_light_on == Some(v == 1),
        Some(_) => false,
    }
    &&& match compound_get(es, "block_ticks"@) {
        None => r.block_ticks is None,
        Some(TagView::List(et4, v4)) => r.block_ticks matches Some(ts) && ticks_match_list(
            ts@,
            v4,
        ),
        Some(_) => false,
    }
    &&& match compound_get(es, "fluid_ticks"@) {
        None => r.fluid_ticks is None,
        Some(TagView::List(et5, v5)) => r.fluid_ticks matches Some(ts) && ticks_match_list(
            ts@,
            v5,
        ),
        Some(_) => false,
    }
}

/// Binds every element of a list as a section.
#[verifier::loop_isolation(false)]
fn bind_sections(items: &Vec<Tag>) -> (r: Result<Vec<Section>, Error>)
    ensures
        r is Ok <==> sections_list_ok(views_of(items@)),
        r is Ok ==> sections_match_list(r->Ok_0@, views_of(items@)),
{
    let ghost iv = views_of(items@);
    proof {
        lemma_views_of(items@);
    }
    let n = items.len();
    let mut out: Vec<Section> = Vec::new();
    let mut i: usize = 0;
    while i < n
        invariant
            i <= n,
            out@.len() == i,
            forall|k: int| 0 <= k < i ==> (#[trigger] iv[k]) is Compound,
            forall|k: int| 0 <= k < i ==> section_ok((#[trigger] iv[k])->Compound_0),
            forall|k: int| 0 <= k < i ==> section_matches(
                #[trigger] out@[k],
                iv[k]->Compound_0,
            ),
        decreases n - i,
    {
        let ghost gv = items@[i as int];
        proof {
            assert(iv[i as int] == items@[i as int]@);
        }
        match &items[i] {
            Tag::Compound(se) => {
                proof {
                    assert(iv[i as int] == TagView::Compound(entries_of(se@)));
                }
                match Section::from_entries(se) {
                    Ok(sec) => {
                        let ghost out0 = out@;
                        let ghost sg = sec;
                        out.push(sec);
                        proof {
                            assert forall|k: int| 0 <= k < i + 1 implies section_matches(
                                #[trigger] out@[k],
                                iv[k]->Compound_0,
                            ) by {
                                if k < i {
                                    assert(out@[k] == out0[k]);
                                } else {
                                    assert(out@[k] == sg);
                                    assert(iv[k]->Compound_0 == entries_of(se@));
                                }
                            };
                        }
                    },
                    Err(e) => {
                        proof {
                            assert(!sections_list_ok(iv));
                        }
                        return Err(e);
                    },
                }
            },
            _ => {
                proof {
                    lemma_view_variant(gv);
                    assert(!(iv[i as int] is Compound));
                    assert(!sections_list_ok(iv));
                }
                return Err(Error::Message("a section must be a compound".to_owned()));
            },
        }
        i += 1;
    }
    proof {
        assert forall|k: int| 0 <= k < iv.len() implies ((#[trigger] iv[k])
            matches TagView::Compound(se) && section_ok(se)) by {
            assert(iv[k] is Compound);
            assert(section_ok(iv[k]->Compound_0));
        };
    }
    Ok(out)
}

/// Binds every element of a list as a tile tick.
#[verifier::loop_isolation(false)]
fn bind_ticks(items: &Vec<Tag>) -> (r: Result<Vec<TileTick>, Error>)
    ensures
        r is Ok <==> ticks_list_ok(views_of(items@)),
        r is Ok ==> ticks_match_list(r->Ok_0@, views_of(items@)),
{
    let ghost iv = views_of(items@);
    proof {
        lemma_views_of(items@);
    }
    let n = items.len();
    let mut out: Vec<TileTick> = Vec::new();
    let mut i: usize = 0;
    while i < n
        invariant
            i <= n,
            out@.len() == i,
            forall|k: int| 0 <= k < i ==> (#[trigger] iv[k]) is Compound,
            forall|k: int| 0 <= k < i ==> tile_tick_ok((#[trigger] iv[k])->Compound_0),
            forall|k: int| 0 <= k < i ==> tile_tick_matches(
                #[trigger] out@[k],
                iv[k]->Compound_0,
            ),
        decreases n - i,
    {
        let ghost gv = items@[i as int];
        proof {
            assert(iv[i as int] == items@[i as int]@);
        }
        match &items[i] {
            Tag::Compound(se) => {
                proof {
                    assert(iv[i as int] == TagView::Compound(entries_of(se@)));
                }
                match TileTick::from_entries(se) {
                    Ok(tt) => {
                        let ghost out0 = out@;
                        let ghost tg = tt;
                        out.push(tt);
                        proof {
                            assert forall|k: int| 0 <= k < i + 1 implies tile_tick_matches(
                                #[trigger] out@[k],
                                iv[k]->Compound_0,
                            ) by {
                                if k < i {
                                    assert(out@[k] == out0[k]);
                                } else {
                                    assert(out@[k] == tg);
                                    assert(iv[k]->Compound_0 == entries_of(se@));
                                }
                            };
                        }
                    },
                    Err(e) => {
                        proof {
                            assert(!ticks_list_ok(iv));
                        }
                        return Err(e);
                    },
                }
            },
            _ => {
                proof {
                    lemma_view_variant(gv);
                    assert(!(iv[i as int] is Compound));
                    assert(!ticks_list_ok(iv));
                }
                return Err(Error::Message("a tile tick must be a compound".to_owned()));
            },
        }
        i += 1;
    }
    proof {
        assert forall|k: int| 0 <= k < iv.len() implies ((#[trigger] iv[k])
            matches TagView::Compound(se) && tile_tick_ok(se)) by {
            assert(iv[k] is Compound);
            assert(tile_tick_ok(iv[k]->Compound_0));
        };
    }
    Ok(out)
}

/// Binds every element of a list as a block entity.
#[verifier::loop_isolation(false)]
fn bind_entities(items: &Vec<Tag>) -> (r: Result<Vec<BlockEntity>, Error>)
    ensures
        r is Ok <==> entities_list_ok(views_of(items@)),
        r is Ok ==> entities_match_list(r->Ok_0@, views_of(items@)),
{
    let ghost iv = views_of(items@);
    proof {
        lemma_views_of(items@);
    }
    let n = items.len();
    let mut out: Vec<BlockEntity> = Vec::new();
    let mut i: usize = 0;
    while i < n
        invariant
            i <= n,
            out@.len() == i,
            forall|k: int| 0 <= k < i ==> (#[trigger] iv[k]) is Compound,
            forall|k: int| 0 <= k < i ==> block_entity_ok((#[trigger] iv[k])->Compound_0),
            forall|k: int| 0 <= k < i ==> block_entity_matches(
                #[trigger] out@[k],
                iv[k]->Compound_0,
            ),
        decreases n - i,
    {
        let ghost gv = items@[i as int];
        proof {
            assert(iv[i as int] == items@[i as int]@);
        }
        match &items[i] {
            Tag::Compound(se) => {
                proof {
                    assert(iv[i as int] == TagView::Compound(entries_of(se@)));
                }
                match BlockEntity::from_entries(se) {
                    Ok(be) => {
                        let ghost out0 = out@;
                        let ghost bg = be;
                        out.push(be);
                        proof {
                            assert forall|k: int| 0 <= k < i + 1 implies block_entity_matches(
                                #[trigger] out@[k],
                                iv[k]->Compound_0,
                            ) by {
                                if k < i {
                                    assert(out@[k] == out0[k]);
                                } else {
                                    assert(out@[k] == bg);
                                    assert(iv[k]->Compound_0 == entries_of(se@));
                                }
                            };
                        }
                    },
                    Err(e) => {
                        proof {
                            assert(!entities_list_ok(iv));
                        }
                        return Err(e);
                    },
                }
            },
            _ => {
                proof {
                    lemma_view_variant(gv);
                    assert(!(iv[i as int] is Compound));
                    assert(!entities_list_ok(iv));
                }
                return Err(Error::Message("a block entity must be a compound".to_owned()));
            },
        }
        i += 1;
    }
    proof {
        assert forall|k: int| 0 <= k < iv.len() implies ((#[trigger] iv[k])
            matches TagView::Compound(se) && block_entity_ok(se)) by {
            assert(iv[k] is Compound);
            assert(block_entity_ok(iv[k]->Compound_0));
        };
    }
    Ok(out)
}

/// Binds every element of a list as a list of shorts.
#[verifier::loop_isolation(false)]
fn bind_short_lists(items: &Vec<Tag>) -> (r: Result<Vec<Vec<i16>>, Error>)
    ensures
        r is Ok <==> short_lists_ok(views_of(items@)),
        r is Ok ==> short_lists_match(r->Ok_0@, views_of(items@)),
{
    let ghost iv = views_of(items@);
    proof {
        lemma_views_of(items@);
    }
    let n = items.len();
    let mut out: Vec<Vec<i16>> = Vec::new();
    let mut i: usize = 0;
    while i < n
        invariant
            i <= n,
            out@.len() == i,
            forall|k: int| 0 <= k < i ==> (#[trigger] iv[k]) is List,
            forall|k: int| 0 <= k < i ==> ((#[trigger] iv[k]) matches TagView::List(et, w)
                && out@[k]@.len() == w.len() && (forall|j: int|
                0 <= j < w.len() ==> TagView::Short(#[trigger] out@[k]@[j]) == w[j])),
        decreases n - i,
    {
        let ghost gv = items@[i as int];
        proof {
            assert(iv[i as int] == items@[i as int]@);
        }
        match &items[i] {
            Tag::List(et, shorts) => {
                proof {
                    lemma_views_of(shorts@);
                    assert(iv[i as int] == TagView::List(*et, views_of(shorts@)));
                }
                let ghost wv = views_of(shorts@);
                let m = shorts.len();
                let mut inner: Vec<i16> = Vec::new();
                let mut j: usize = 0;
                while j < m
                    invariant
                        j <= m,
                        inner@.len() == j,
                        forall|k: int| 0 <= k < j ==> TagView::Short(
                            #[trigger] inner@[k],
                        ) == wv[k],
                    decreases m - j,
                {
                    let ghost gw = shorts@[j as int];
                    proof {
                        assert(wv[j as int] == shorts@[j as int]@);
                    }
                    match &shorts[j] {
                        Tag::Short(v) => {
                            inner.push(*v);
                        },
                        _ => {
                            proof {
                                lemma_view_variant(gw);
                                assert(!(wv[j as int] is Short));
                                assert(iv[i as int]->List_1 == wv);
                                assert(!((iv[i as int]->List_1)[j as int] is Short));
                                assert(!short_lists_ok(iv));
                            }
                            return Err(Error::Message(
                                "post-processing entries must be shorts".to_owned(),
                            ));
                        },
                    }
                    j += 1;
                }
                proof {
                    assert forall|k: int| 0 <= k < wv.len() implies (#[trigger] wv[k])
                        is Short by {
                        assert(TagView::Short(inner@[k]) == wv[k]);
                    };
                }
                let ghost out0 = out@;
                let ghost ig = inner@;
                out.push(inner);
                proof {
                    assert forall|k: int| 0 <= k < i + 1 implies ((#[trigger] iv[k])
                        matches TagView::List(et2, w) && out@[k]@.len() == w.len() && (forall|
                        j2: int,
                    |
                        0 <= j2 < w.len() ==> TagView::Short(#[trigger] out@[k]@[j2])
                            == w[j2])) by {
                        if k < i {
                            assert(out@[k] == out0[k]);
                        } else {
                            assert(out@[k]@ == ig);
                        }
                    };
                }
            },
            _ => {
                proof {
                    lemma_view_variant(gv);
                    assert(!(iv[i as int] is List));
                    assert(!short_lists_ok(iv));
                }
                return Err(Error::Message("post-processing must hold lists".to_owned()));
            },
        }
        i += 1;
    }
    proof {
        assert forall|k: int| 0 <= k < iv.len() implies ((#[trigger] iv[k])
            matches TagView::List(et, w) && (forall|j: int|
            0 <= j < w.len() ==> (#[trigger] w[j]) is Short)) by {
            assert(iv[k] is List);
            let w2 = iv[k]->List_1;
            assert forall|j: int| 0 <= j < w2.len() implies (#[trigger] w2[j]) is Short by {
                assert(TagView::Short(out@[k]@[j]) == w2[j]);
            };
        };
    }
    Ok(out)
}

impl Chunk {
    /// Binds a chunk from a compound's entries.
    pub fn from_entries(es: &Vec<NamedTag>) -> (r: Result<Chunk, Error>)
        ensures
            r is Ok <==> chunk_ok(entries_of(es@)),
            r is Ok ==> chunk_matches(r->Ok_0, entries_of(es@)),
    {
        let ghost ev = entries_of(es@);
        let data_version = match get_i32(es, "DataVersion") {
            Ok(v) => v,
            Err(e) => {
                return Err(e);
            },
        };
        let x_pos = match get_i32(es, "xPos") {
            Ok(v) => v,
            Err(e) => {
                return Err(e);
            },
        };
        let z_pos = match get_i32(es, "zPos") {
            Ok(v) => v,
            Err(e) => {
                return Err(e);
            },
        };
        let y_pos = match get_i32(es, "yPos") {
            Ok(v) => v,
            Err(e) => {
                return Err(e);
            },
        };
        let status = match get_string(es, "Status") {
            Ok(v) => v,
            Err(e) => {
                return Err(e);
            },
        };
        let last_update = match get_i64(es, "LastUpdate") {
            Ok(v) => v,
            Err(e) => {
                return Err(e);
            },
        };
        let found_sections = find(es, "sections");
        let sections = match found_sections {
            Some(Tag::List(et0, items)) => {
                proof {
                    assert(compound_get(ev, "sections"@) == Some(TagView::List(*et0, views_of(
                        items@,
                    ))));
                }
                match bind_sections(items) {
                    Ok(v) => v,
                    Err(e) => {
                        return Err(e);
                    },
                }
            },
            Some(t) => {
                proof {
                    lemma_view_variant(*t);
                }
                return Err(Error::Message("sections must be a list".to_owned()));
            },
            None => {
                return Err(Error::Message("sections are required".to_owned()));
            },
        };
        let found_entities = find(es, "block_entities");
        let block_entities = match found_entities {
            Some(Tag::List(et0, items)) => {
                proof {
                    assert(compound_get(ev, "block_entities"@) == Some(TagView::List(*et0,
                        views_of(items@))));
                }
                match bind_entities(items) {
                    Ok(v) => v,
                    Err(e) => {
                        return Err(e);
                    },
                }
            },
            Some(t) => {
                proof {
                    lemma_view_variant(*t);
                }
                return Err(Error::Message("block entities must be a list".to_owned()));
            },
            None => {
                return Err(Error::Message("block entities are required".to_owned()));
            },
        };
        let found_hm = find(es, "HeightMaps");
        let height_maps = match found_hm {
            None => None,
            Some(Tag::Compound(h)) => {
                proof {
                    assert(compound_get(ev, "HeightMaps"@) == Some(TagView::Compound(
                        entries_of(h@),
                    )));
                }
                match HeightMaps::from_entries(h) {
                    Ok(v) => Some(v),
                    Err(e) => {
                        return Err(e);
                    },
                }
            },
            Some(t) => {
                proof {
                    lemma_view_variant(*t);
                }
                return Err(Error::Message("height maps must be a compound".to_owned()));
            },
        };
        let inhabited_time = match get_i64(es, "InhabitedTime") {
            Ok(v) => v,
            Err(e) => {
                return Err(e);
            },
        };
        let found_bd = find(es, "blending_data");
        let blending_data = match found_bd {
            None => None,
            Some(Tag::Compound(b)) => {
                proof {
                    assert(compound_get(ev, "blending_data"@) == Some(TagView::Compound(
                        entries_of(b@),
                    )));
                }
                match BlendingData::from_entries(b) {
                    Ok(v) => Some(v),
                    Err(e) => {
                        return Err(e);
                    },
                }
            },
            Some(t) => {
                proof {
                    lemma_view_variant(*t);
                }
                return Err(Error::Message("blending data must be a compound".to_owned()));
            },
        };
        let found_pp = find(es, "PostProcessing");
        let post_processing = match found_pp {
            Some(Tag::List(et0, items)) => {
                proof {
                    assert(compound_get(ev, "PostProcessing"@) == Some(TagView::List(*et0,
                        views_of(items@))));
                }
                match bind_short_lists(items) {
                    Ok(v) => v,
                    Err(e) => {
                        return Err(e);
                    },
                }
            },
            Some(t) => {
                proof {
                    lemma_view_variant(*t);
                }
                return Err(Error::Message("post-processing must be a list".to_owned()));
            },
            None => {
                return Err(Error::Message("post-processing is required".to_owned()));
            },
        };
        let found_st = find(es, "structures");
        let structures = match found_st {
            Some(Tag::Compound(st)) => {
                proof {
                    assert(compound_get(ev, "structures"@) == Some(TagView::Compound(
                        entries_of(st@),
                    )));
                }
                match Structures::from_entries(st) {
                    Ok(v) => v,
                    Err(e) => {
                        return Err(e);
                    },
                }
            },
            Some(t) => {
                proof {
                    lemma_view_variant(*t);
                }
                return Err(Error::Message("structures must be a compound".to_owned()));
            },
            None => {
                return Err(Error::Message("structures are required".to_owned()));
            },
        };
        let is_light_on = match get_opt_bool(es, "isLightOn") {
            Ok(v) => v,
            Err(e) => {
                return Err(e);
            },
        };
        let found_bt = find(es, "block_ticks");
        let block_ticks = match found_bt {
            None => None,
            Some(Tag::List(et0, items)) => {
                proof {
                    assert(found_bt->0@ == TagView::List(*et0, views_of(items@)));
                }
                match bind_ticks(items) {
                    Ok(v) => Some(v),
                    Err(e) => {
                        return Err(e);
                    },
                }
            },
            Some(t) => {
                proof {
                    lemma_view_variant(*t);
                }
                return Err(Error::Message("block ticks must be a list".to_owned()));
            },
        };
        let found_ft = find(es, "fluid_ticks");
        let fluid_ticks = match found_ft {
            None => None,
            Some(Tag::List(et0, items)) => {
                proof {
                    assert(found_ft->0@ == TagView::List(*et0, views_of(items@)));
                }
                match bind_ticks(items) {
                    Ok(v) => Some(v),
                    Err(e) => {
                        return Err(e);
                    },
                }
            },
            Some(t) => {
                proof {
                    lemma_view_variant(*t);
                }
                return Err(Error::Message("fluid ticks must be a list".to_owned()));
            },
        };
        let out_chunk = Chunk {
            data_version,
            x_pos,
            z_pos,
            y_pos,
            status,
            last_update,
            sections,
            block_entities,
            height_maps,
            inhabited_time,
            blending_data,
            post_processing,
            structures,
            is_light_on,
            block_ticks,
            fluid_ticks,
        };
        proof {
            assert(Some(out_chunk.data_version) == i32_field(ev, "DataVersion"@));
            assert(Some(out_chunk.status@) == str_field(ev, "Status"@));
            assert(list_field(ev, "sections"@) matches Some((et, v)) && (sections_match_list(
                out_chunk.sections@,
                v,
            )));
            assert(list_field(ev, "block_entities"@) matches Some((et2, v2)) && (
            entities_match_list(out_chunk.block_entities@, v2)));
            assert(match compound_get(ev, "HeightMaps"@) {
                None => out_chunk.height_maps is None,
                Some(TagView::Compound(h)) => out_chunk.height_maps matches Some(hm)
                    && height_maps_matches(hm, h),
                Some(_) => false,
            });
            assert(match compound_get(ev, "blending_data"@) {
                None => out_chunk.blending_data is None,
                Some(TagView::Compound(b)) => out_chunk.blending_data matches Some(bd)
                    && blending_data_matches(bd, b),
                Some(_) => false,
            });
            assert(list_field(ev, "PostProcessing"@) matches Some((et3, v3)) && (
            short_lists_match(out_chunk.post_processing@, v3)));
            assert(compound_get(ev, "structures"@) matches Some(TagView::Compound(st)) && (
            structures_matches(out_chunk.structures, st)));
            assert(match compound_get(ev, "isLightOn"@) {
                None => out_chunk.is_light_on is None,
                Some(TagView::Byte(v)) => out_chunk.is_light_on == Some(v == 1),
                Some(_) => false,
            });
            assert(match compound_get(ev, "block_ticks"@) {
                None => out_chunk.block_ticks is None,
                Some(TagView::List(et4, v4)) => out_chunk.block_ticks matches Some(ts)
                    && ticks_match_list(ts@, v4),
                Some(_) => false,
            });
            assert(match compound_get(ev, "fluid_ticks"@) {
                None => out_chunk.fluid_ticks is None,
                Some(TagView::List(et5, v5)) => out_chunk.fluid_ticks matches Some(ts)
                    && ticks_match_list(ts@, v5),
                Some(_) => false,
            });
            assert(chunk_matches(out_chunk, ev));
        }
        Ok(out_chunk)
    }

    /// Binds a chunk from a parsed document, which must be a compound.
    pub fn from_tag(tag: &Tag) -> (r: Result<Chunk, Error>)
        ensures
            r is Ok <==> (tag@ matches TagView::Compound(es) && chunk_ok(es)),
            r is Ok ==> chunk_matches(r->Ok_0, tag@->Compound_0),
    {
        match tag {
            Tag::Compound(es) => Chunk::from_entries(es),
            _ => {
                proof {
                    lemma_view_variant(*tag);
                }
                Err(Error::Message("a chunk document must be a compound".to_owned()))
            },
        }
    }
}

} // verus!
