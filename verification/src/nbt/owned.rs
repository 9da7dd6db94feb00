//! Owned values of the tag tree: the three raw numeric arrays, which keep
//! the wire bytes together with a record of their byte order and swap
//! lazily, and the dynamic `Tag` enum.

use vstd::prelude::*;
use crate::nbt::TagType;
use crate::unpack;
use crate::unpack::swap_groups;

verus! {

/// The 32-bit value assembled from four bytes given in big-endian order.
pub open spec fn u32_be(b0: u8, b1: u8, b2: u8, b3: u8) -> u32 {
    ((b0 as u32) << 24) | ((b1 as u32) << 16) | ((b2 as u32) << 8) | (b3 as u32)
}

/// The 64-bit value assembled from eight bytes given in big-endian order.
pub open spec fn u64_be(b0: u8, b1: u8, b2: u8, b3: u8, b4: u8, b5: u8, b6: u8, b7: u8) -> u64 {
    unpack::u64_le(b7, b6, b5, b4, b3, b2, b1, b0)
}

fn u32_from_be(b0: u8, b1: u8, b2: u8, b3: u8) -> (w: u32)
    ensures
        w == u32_be(b0, b1, b2, b3),
{
    ((b0 as u32) << 24u32) | ((b1 as u32) << 16u32) | ((b2 as u32) << 8u32) | (b3 as u32)
}

fn u64_from_be(b0: u8, b1: u8, b2: u8, b3: u8, b4: u8, b5: u8, b6: u8, b7: u8) -> (w: u64)
    ensures
        w == u64_be(b0, b1, b2, b3, b4, b5, b6, b7),
{
    (b7 as u64) | ((b6 as u64) << 8u64) | ((b5 as u64) << 16u64) | ((b4 as u64) << 24u64) | ((
    b3 as u64) << 32u64) | ((b2 as u64) << 40u64) | ((b1 as u64) << 48u64) | ((b0 as u64)
        << 56u64)
}

/// An array of signed bytes, kept as the raw wire bytes.
#[derive(Default, Debug, Clone, PartialEq)]
pub struct ByteArray {
    /// Whether the backing bytes are still in the wire's big-endian order;
    /// meaningless for single bytes, but kept so that all three array kinds
    /// carry the same record.
    pub big_endian: bool,
    pub inner: Vec<u8>,
}

impl ByteArray {
    /// The signed bytes this array holds.
    pub open spec fn view_spec(&self) -> Seq<i8> {
        self.inner@.map_values(|b: u8| b as i8)
    }

    pub fn new(inner: Vec<u8>) -> (r: ByteArray)
        ensures
            r.big_endian,
            r.inner@ == inner@,
    {
        ByteArray { big_endian: true, inner }
    }

    pub fn as_raw_slice(&self) -> (r: &[u8])
        ensures
            r@ == self.inner@,
    {
        self.inner.as_slice()
    }

    pub fn is_empty(&self) -> (r: bool)
        ensures
            r == (self.inner@.len() == 0),
    {
        self.inner.is_empty()
    }

    pub fn big_endian(&self) -> (r: bool)
        ensures
            r == self.big_endian,
    {
        self.big_endian
    }

    pub fn little_endian(&self) -> (r: bool)
        ensures
            r == !self.big_endian,
    {
        !self.big_endian
    }

    /// The byte at the given index, if it is in range.
    pub fn get(&self, index: usize) -> (r: Option<i8>)
        ensures
            r is Some <==> index < self.view_spec().len(),
            r is Some ==> r->0 == self.view_spec()[index as int],
    {
        if index < self.inner.len() {
            Some(self.inner[index] as i8)
        } else {
            None
        }
    }

    pub fn len(&self) -> (r: usize)
        ensures
            r == self.view_spec().len(),
    {
        self.inner.len()
    }

    /// All bytes, as signed values.
    pub fn to_vec(&self) -> (r: Vec<i8>)
        ensures
            r@ == self.view_spec(),
    {
        let mut out: Vec<i8> = Vec::new();
        let n = self.inner.len();
        let mut i: usize = 0;
        while i < n
            invariant
                n == self.inner@.len(),
                i <= n,
                out@.len() == i,
                forall|k: int| 0 <= k < i ==> out@[k] == self.inner@[k] as i8,
            decreases n - i,
        {
            out.push(self.inner[i] as i8);
            i += 1;
        }
        proof {
            assert(out@ =~= self.view_spec());
        }
        out
    }
}

/// An array of signed 32-bit integers, kept as the raw wire bytes plus a
/// record of their byte order; the bytes are swapped lazily.
#[derive(Default, Debug, Clone, PartialEq)]
pub struct IntArray {
    /// Whether the backing bytes are still in the wire's big-endian order.
    pub big_endian: bool,
    pub inner: Vec<u8>,
}

impl IntArray {
    /// The integer at position `i`, read from the backing bytes in their
    /// recorded byte order.
    pub open spec fn int_at(&self, i: int) -> i32 {
        let b = self.inner@;
        if self.big_endian {
            u32_be(b[4 * i], b[4 * i + 1], b[4 * i + 2], b[4 * i + 3]) as i32
        } else {
            u32_be(b[4 * i + 3], b[4 * i + 2], b[4 * i + 1], b[4 * i]) as i32
        }
    }

    /// The integers this array holds.
    pub open spec fn view_spec(&self) -> Seq<i32> {
        Seq::new((self.inner@.len() / 4) as nat, |i: int| self.int_at(i))
    }

    pub fn new(inner: Vec<u8>) -> (r: IntArray)
        ensures
            r.big_endian,
            r.inner@ == inner@,
    {
        IntArray { big_endian: true, inner }
    }

    pub fn as_raw_slice(&self) -> (r: &[u8])
        ensures
            r@ == self.inner@,
    {
        self.inner.as_slice()
    }

    pub fn is_empty(&self) -> (r: bool)
        ensures
            r == (self.inner@.len() == 0),
    {
        self.inner.is_empty()
    }

    pub fn big_endian(&self) -> (r: bool)
        ensures
            r == self.big_endian,
    {
        self.big_endian
    }

    pub fn little_endian(&self) -> (r: bool)
        ensures
            r == !self.big_endian,
    {
        !self.big_endian
    }

    /// The integer at the given index, if its four bytes are in range.
    pub fn get(&self, index: usize) -> (r: Option<i32>)
        ensures
            r is Some <==> 4 * index + 4 <= self.inner@.len(),
            r is Some ==> r->0 == self.int_at(index as int),
    {
        let n = self.inner.len();
        if index < n / 4 {
            proof {
                assert(4 * index + 4 <= n) by (nonlinear_arith)
                    requires
                        index < n / 4,
                ;
            }
            let base = index * 4;
            let w = if self.big_endian {
                u32_from_be(
                    self.inner[base],
                    self.inner[base + 1],
                    self.inner[base + 2],
                    self.inner[base + 3],
                )
            } else {
                u32_from_be(
                    self.inner[base + 3],
                    self.inner[base + 2],
                    self.inner[base + 1],
                    self.inner[base],
                )
            };
            Some(w as i32)
        } else {
            proof {
                assert(!(4 * index + 4 <= n)) by (nonlinear_arith)
                    requires
                        index >= n / 4,
                        n >= 0,
                ;
            }
            None
        }
    }

    /// The number of whole integers in the backing bytes.
    pub fn len(&self) -> (r: usize)
        ensures
            r == self.view_spec().len(),
    {
        self.inner.len() / 4
    }

    /// All integers, in order.
    pub fn to_vec(&self) -> (r: Vec<i32>)
        ensures
            r@ == self.view_spec(),
    {
        let n = self.inner.len() / 4;
        let mut out: Vec<i32> = Vec::new();
        let mut i: usize = 0;
        while i < n
            invariant
                n == self.inner@.len() / 4,
                i <= n,
                out@.len() == i,
                forall|k: int| 0 <= k < i ==> out@[k] == self.int_at(k),
            decreases n - i,
        {
            proof {
                assert(4 * i + 4 <= self.inner@.len()) by (nonlinear_arith)
                    requires
                        i < n,
                        n == self.inner@.len() / 4,
                ;
            }
            let r = self.get(i);
            out.push(r.unwrap());
            i += 1;
        }
        proof {
            assert(out@ =~= self.view_spec());
        }
        out
    }

    /// Reorders the backing bytes from big-endian to little-endian form:
    /// each aligned four-byte group is reversed, and the byte-order record
    /// is cleared. The integers the array holds do not change, unless the
    /// byte count is not a multiple of four, in which case the backing
    /// bytes are dropped, as in the endianness swap itself. Bytes already
    /// in little-endian form are left alone.
    pub fn swap_endianness(&mut self)
        ensures
            !old(self).big_endian ==> *final(self) == *old(self),
            old(self).big_endian ==> !final(self).big_endian,
            old(self).big_endian && old(self).inner@.len() % 4 == 0 ==> final(self).inner@
                == swap_groups(old(self).inner@, 4) && final(self).view_spec()
                == old(self).view_spec(),
            old(self).big_endian && old(self).inner@.len() % 4 != 0
                ==> final(self).inner@.len() == 0,
    {
        if !self.big_endian {
            return ;
        }
        let ghost old_self = *self;
        let swapped = unpack::swap_endianness_32bit(self.inner.as_slice());
        self.inner = swapped;
        self.big_endian = false;
        proof {
            let old_b = old_self.inner@;
            if old_b.len() % 4 == 0 {
                if old_b.len() == 0 {
                    assert(self.inner@ =~= swap_groups(old_b, 4));
                } else {
                    assert(self.inner@ == swap_groups(old_b, 4));
                }
                assert forall|i: int| 0 <= i < old_b.len() / 4 implies self.int_at(i)
                    == old_self.int_at(i) by {
                    crate::unpack::lemma_byte_group_swap_4(old_b, i);
                };
                assert(self.view_spec() =~= old_self.view_spec());
            }
        }
    }
}

/// An array of signed 64-bit integers, kept as the raw wire bytes plus a
/// record of their byte order; the bytes are swapped lazily.
#[derive(Default, Debug, Clone, PartialEq)]
pub struct LongArray {
    /// Whether the backing bytes are still in the wire's big-endian order.
    pub big_endian: bool,
    pub inner: Vec<u8>,
}

impl LongArray {
    /// The integer at position `i`, read from the backing bytes in their
    /// recorded byte order.
    pub open spec fn long_at(&self, i: int) -> i64 {
        let b = self.inner@;
        if self.big_endian {
            u64_be(
                b[8 * i], b[8 * i + 1], b[8 * i + 2], b[8 * i + 3],
                b[8 * i + 4], b[8 * i + 5], b[8 * i + 6], b[8 * i + 7],
            ) as i64
        } else {
            u64_be(
                b[8 * i + 7], b[8 * i + 6], b[8 * i + 5], b[8 * i + 4],
                b[8 * i + 3], b[8 * i + 2], b[8 * i + 1], b[8 * i],
            ) as i64
        }
    }

    /// The integers this array holds.
    pub open spec fn view_spec(&self) -> Seq<i64> {
        Seq::new((self.inner@.len() / 8) as nat, |i: int| self.long_at(i))
    }

    pub fn new(inner: Vec<u8>) -> (r: LongArray)
        ensures
            r.big_endian,
            r.inner@ == inner@,
    {
        LongArray { big_endian: true, inner }
    }

    pub fn as_raw_slice(&self) -> (r: &[u8])
        ensures
            r@ == self.inner@,
    {
        self.inner.as_slice()
    }

    pub fn is_empty(&self) -> (r: bool)
        ensures
            r == (self.inner@.len() == 0),
    {
        self.inner.is_empty()
    }

    pub fn big_endian(&self) -> (r: bool)
        ensures
            r == self.big_endian,
    {
        self.big_endian
    }

    pub fn little_endian(&self) -> (r: bool)
        ensures
            r == !self.big_endian,
    {
        !self.big_endian
    }

    /// The integer at the given index, if its eight bytes are in range.
    pub fn get(&self, index: usize) -> (r: Option<i64>)
        ensures
            r is Some <==> 8 * index + 8 <= self.inner@.len(),
            r is Some ==> r->0 == self.long_at(index as int),
    {
        let n = self.inner.len();
        if index < n / 8 {
            proof {
                assert(8 * index + 8 <= n) by (nonlinear_arith)
                    requires
                        index < n / 8,
                ;
            }
            let base = index * 8;
            let w = if self.big_endian {
                u64_from_be(
                    self.inner[base],
                    self.inner[base + 1],
                    self.inner[base + 2],
                    self.inner[base + 3],
                    self.inner[base + 4],
                    self.inner[base + 5],
                    self.inner[base + 6],
                    self.inner[base + 7],
                )
            } else {
                u64_from_be(
                    self.inner[base + 7],
                    self.inner[base + 6],
                    self.inner[base + 5],
                    self.inner[base + 4],
                    self.inner[base + 3],
                    self.inner[base + 2],
                    self.inner[base + 1],
                    self.inner[base],
                )
            };
            Some(w as i64)
        } else {
            proof {
                assert(!(8 * index + 8 <= n)) by (nonlinear_arith)
                    requires
                        index >= n / 8,
                        n >= 0,
                ;
            }
            None
        }
    }

    /// The number of whole integers in the backing bytes.
    pub fn len(&self) -> (r: usize)
        ensures
            r == self.view_spec().len(),
    {
        self.inner.len() / 8
    }

    /// All integers, in order.
    pub fn to_vec(&self) -> (r: Vec<i64>)
        ensures
            r@ == self.view_spec(),
    {
        let n = self.inner.len() / 8;
        let mut out: Vec<i64> = Vec::new();
        let mut i: usize = 0;
        while i < n
            invariant
                n == self.inner@.len() / 8,
                i <= n,
                out@.len() == i,
                forall|k: int| 0 <= k < i ==> out@[k] == self.long_at(k),
            decreases n - i,
        {
            proof {
                assert(8 * i + 8 <= self.inner@.len()) by (nonlinear_arith)
                    requires
                        i < n,
                        n == self.inner@.len() / 8,
                ;
            }
            let r = self.get(i);
            out.push(r.unwrap());
            i += 1;
        }
        proof {
            assert(out@ =~= self.view_spec());
        }
        out
    }

    /// Reorders the backing bytes from big-endian to little-endian form:
    /// each aligned eight-byte group is reversed, and the byte-order record
    /// is cleared. The integers the array holds do not change, unless the
    /// byte count is not a multiple of eight, in which case the backing
    /// bytes are dropped, as in the endianness swap itself. Bytes already
    /// in little-endian form are left alone.
    pub fn swap_endianness(&mut self)
        ensures
            !old(self).big_endian ==> *final(self) == *old(self),
            old(self).big_endian ==> !final(self).big_endian,
            old(self).big_endian && old(self).inner@.len() % 8 == 0 ==> final(self).inner@
                == swap_groups(old(self).inner@, 8) && final(self).view_spec()
                == old(self).view_spec(),
            old(self).big_endian && old(self).inner@.len() % 8 != 0
                ==> final(self).inner@.len() == 0,
    {
        if !self.big_endian {
            return ;
        }
        let ghost old_self = *self;
        let swapped = unpack::swap_endianness_64bit(self.inner.as_slice());
        self.inner = swapped;
        self.big_endian = false;
        proof {
            let old_b = old_self.inner@;
            if old_b.len() % 8 == 0 {
                if old_b.len() == 0 {
                    assert(self.inner@ =~= swap_groups(old_b, 8));
                } else {
                    assert(self.inner@ == swap_groups(old_b, 8));
                }
                assert forall|i: int| 0 <= i < old_b.len() / 8 implies self.long_at(i)
                    == old_self.long_at(i) by {
                    crate::unpack::lemma_byte_group_swap_8(old_b, i);
                };
                assert(self.view_spec() =~= old_self.view_spec());
            }
        }
    }
}

/// One named entry of a compound.
#[derive(Debug)]
pub struct NamedTag {
    pub name: String,
    pub value: Tag,
}

/// The dynamic tag tree. `Float` and `Double` carry the raw bits of their
/// IEEE-754 wire form: the codec never interprets them numerically. A list
/// keeps its element kind so that an empty list is written back exactly as
/// it was read; a compound keeps its entries in wire order, and a reader
/// looking a name up takes the last occurrence.
#[derive(Debug)]
pub enum Tag {
    End,
    Byte(i8),
    Short(i16),
    Int(i32),
    Long(i64),
    Float(u32),
    Double(u64),
    ByteArray(ByteArray),
    String(String),
    List(TagType, Vec<Tag>),
    Compound(Vec<NamedTag>),
    IntArray(IntArray),
    LongArray(LongArray),
}

/// The mathematical model of a tag. The three numeric arrays are modelled
/// by the values they hold, whatever byte order their backing bytes are in.
pub enum TagView {
    End,
    Byte(i8),
    Short(i16),
    Int(i32),
    Long(i64),
    Float(u32),
    Double(u64),
    ByteArray(Seq<u8>),
    String(Seq<char>),
    List(TagType, Seq<TagView>),
    Compound(Seq<(Seq<char>, TagView)>),
    IntArray(Seq<i32>),
    LongArray(Seq<i64>),
}

impl View for Tag {
    type V = TagView;

    open spec fn view(&self) -> TagView
        decreases self,
    {
        match self {
            Tag::End => TagView::End,
            Tag::Byte(v) => TagView::Byte(*v),
            Tag::Short(v) => TagView::Short(*v),
            Tag::Int(v) => TagView::Int(*v),
            Tag::Long(v) => TagView::Long(*v),
            Tag::Float(v) => TagView::Float(*v),
            Tag::Double(v) => TagView::Double(*v),
            Tag::ByteArray(a) => TagView::ByteArray(a.inner@),
            Tag::String(s) => TagView::String(s@),
            Tag::List(et, v) => TagView::List(*et, views_of(v@)),
            Tag::Compound(v) => TagView::Compound(entries_of(v@)),
            Tag::IntArray(a) => TagView::IntArray(a.view_spec()),
            Tag::LongArray(a) => TagView::LongArray(a.view_spec()),
        }
    }
}

/// The models of a sequence of tags, elementwise.
pub open spec fn views_of(s: Seq<Tag>) -> Seq<TagView>
    decreases s,
{
    if s.len() == 0 {
        seq![]
    } else {
        seq![s[0]@] + views_of(s.drop_first())
    }
}

/// The models of a sequence of named tags, elementwise.
pub open spec fn entries_of(s: Seq<NamedTag>) -> Seq<(Seq<char>, TagView)>
    decreases s,
{
    if s.len() == 0 {
        seq![]
    } else {
        seq![(s[0].name@, s[0].value@)] + entries_of(s.drop_first())
    }
}

/// A tag's model is in the variant of the tag itself.
pub proof fn lemma_view_variant(t: Tag)
    ensures
        t@ is End <==> t is End,
        t@ is Byte <==> t is Byte,
        t@ is Short <==> t is Short,
        t@ is Int <==> t is Int,
        t@ is Long <==> t is Long,
        t@ is Float <==> t is Float,
        t@ is Double <==> t is Double,
        t@ is ByteArray <==> t is ByteArray,
        t@ is String <==> t is String,
        t@ is List <==> t is List,
        t@ is Compound <==> t is Compound,
        t@ is IntArray <==> t is IntArray,
        t@ is LongArray <==> t is LongArray,
{
    match t {
        Tag::End => {},
        Tag::Byte(_) => {},
        Tag::Short(_) => {},
        Tag::Int(_) => {},
        Tag::Long(_) => {},
        Tag::Float(_) => {},
        Tag::Double(_) => {},
        Tag::ByteArray(_) => {},
        Tag::String(_) => {},
        Tag::List(_, _) => {},
        Tag::Compound(_) => {},
        Tag::IntArray(_) => {},
        Tag::LongArray(_) => {},
    }
}

/// Pointwise description of [`views_of`].
pub proof fn lemma_views_of(s: Seq<Tag>)
    ensures
        views_of(s).len() == s.len(),
        forall|i: int| 0 <= i < s.len() ==> views_of(s)[i] == #[trigger] s[i]@,
    decreases s.len(),
{
    if s.len() > 0 {
        lemma_views_of(s.drop_first());
        assert(views_of(s) == seq![s[0]@] + views_of(s.drop_first()));
        assert(views_of(s).len() == 1 + views_of(s.drop_first()).len());
        assert forall|i: int| 0 <= i < s.len() implies views_of(s)[i] == s[i]@ by {
            if i > 0 {
                assert(views_of(s)[i] == views_of(s.drop_first())[i - 1]);
                assert(s.drop_first()[i - 1] == s[i]);
            }
        };
    }
}

/// Pointwise description of [`entries_of`].
pub proof fn lemma_entries_of(s: Seq<NamedTag>)
    ensures
        entries_of(s).len() == s.len(),
        forall|i: int| 0 <= i < s.len() ==> entries_of(s)[i] == (#[trigger] s[i].name@, s[i].value@),
    decreases s.len(),
{
    if s.len() > 0 {
        lemma_entries_of(s.drop_first());
        assert(entries_of(s) == seq![(s[0].name@, s[0].value@)] + entries_of(s.drop_first()));
        assert(entries_of(s).len() == 1 + entries_of(s.drop_first()).len());
        assert forall|i: int| 0 <= i < s.len() implies entries_of(s)[i] == (s[i].name@,
            s[i].value@) by {
            if i > 0 {
                assert(entries_of(s)[i] == entries_of(s.drop_first())[i - 1]);
                assert(s.drop_first()[i - 1] == s[i]);
            }
        };
    }
}

impl TagView {
    /// The tag kind of a modelled tag.
    pub open spec fn kind(self) -> TagType {
        match self {
            TagView::End => TagType::End,
            TagView::Byte(_) => TagType::Byte,
            TagView::Short(_) => TagType::Short,
            TagView::Int(_) => TagType::Int,
            TagView::Long(_) => TagType::Long,
            TagView::Float(_) => TagType::Float,
            TagView::Double(_) => TagType::Double,
            TagView::ByteArray(_) => TagType::ByteArray,
            TagView::String(_) => TagType::String,
            TagView::List(_, _) => TagType::List,
            TagView::Compound(_) => TagType::Compound,
            TagView::IntArray(_) => TagType::IntArray,
            TagView::LongArray(_) => TagType::LongArray,
        }
    }
}

impl Tag {
    /// The tag kind of this tag.
    pub fn tag_type(&self) -> (r: TagType)
        ensures
            r == self@.kind(),
    {
        match self {
            Tag::End => TagType::End,
            Tag::Byte(_) => TagType::Byte,
            Tag::Short(_) => TagType::Short,
            Tag::Int(_) => TagType::Int,
            Tag::Long(_) => TagType::Long,
            Tag::Float(_) => TagType::Float,
            Tag::Double(_) => TagType::Double,
            Tag::ByteArray(_) => TagType::ByteArray,
            Tag::String(_) => TagType::String,
            Tag::List(_, _) => TagType::List,
            Tag::Compound(_) => TagType::Compound,
            Tag::IntArray(_) => TagType::IntArray,
            Tag::LongArray(_) => TagType::LongArray,
        }
    }
}

fn clone_bytes(v: &Vec<u8>) -> (r: Vec<u8>)
    ensures
        r@ == v@,
{
    let n = v.len();
    let mut out: Vec<u8> = Vec::new();
    let mut i: usize = 0;
    while i < n
        invariant
            n == v@.len(),
            i <= n,
            out@.len() == i,
            forall|k: int| 0 <= k < i ==> out@[k] == v@[k],
        decreases n - i,
    {
        out.push(v[i]);
        i += 1;
    }
    proof {
        assert(out@ =~= v@);
    }
    out
}

impl ByteArray {
    /// An independent copy with the same bytes and byte-order record.
    pub fn deep_clone(&self) -> (r: ByteArray)
        ensures
            r.big_endian == self.big_endian,
            r.inner@ == self.inner@,
    {
        ByteArray { big_endian: self.big_endian, inner: clone_bytes(&self.inner) }
    }
}

impl IntArray {
    /// An independent copy with the same bytes and byte-order record.
    pub fn deep_clone(&self) -> (r: IntArray)
        ensures
            r.big_endian == self.big_endian,
            r.inner@ == self.inner@,
    {
        IntArray { big_endian: self.big_endian, inner: clone_bytes(&self.inner) }
    }
}

impl LongArray {
    /// An independent copy with the same bytes and byte-order record.
    pub fn deep_clone(&self) -> (r: LongArray)
        ensures
            r.big_endian == self.big_endian,
            r.inner@ == self.inner@,
    {
        LongArray { big_endian: self.big_endian, inner: clone_bytes(&self.inner) }
    }
}

impl Tag {
    /// An independent copy of the whole tag tree, equal to the original in
    /// its model.
    #[verifier::loop_isolation(false)]
    pub fn deep_clone(&self) -> (r: Tag)
        ensures
            r@ == self@,
        decreases self,
    {
        match self {
            Tag::End => Tag::End,
            Tag::Byte(v) => Tag::Byte(*v),
            Tag::Short(v) => Tag::Short(*v),
            Tag::Int(v) => Tag::Int(*v),
            Tag::Long(v) => Tag::Long(*v),
            Tag::Float(v) => Tag::Float(*v),
            Tag::Double(v) => Tag::Double(*v),
            Tag::ByteArray(a) => Tag::ByteArray(a.deep_clone()),
            Tag::String(s) => {
                let c = s.clone();
                proof {
                    assert(c@ == s@);
                }
                Tag::String(c)
            },
            Tag::List(et, v) => {
                let n = v.len();
                let mut out: Vec<Tag> = Vec::new();
                let mut i: usize = 0;
                while i < n
                    invariant
                        n == v@.len(),
                        i <= n,
                        out@.len() == i,
                        forall|k: int| 0 <= k < i ==> (#[trigger] out@[k])@ == v@[k]@,
                    decreases n - i,
                {
                    proof {
                        assert(decreases_to!(*self => self->List_1));
                        assert(self->List_1 == *v);
                        assert(decreases_to!(*v => v@));
                        assert(decreases_to!(v@ => v@[i as int]));
                        assert(decreases_to!(*self => v@[i as int]));
                    }
                    let c = v[i].deep_clone();
                    out.push(c);
                    i += 1;
                }
                proof {
                    lemma_views_of(out@);
                    lemma_views_of(v@);
                    assert forall|k: int| 0 <= k < out@.len() implies views_of(out@)[k]
                        == views_of(v@)[k] by {
                        assert(views_of(out@)[k] == out@[k]@);
                        assert(views_of(v@)[k] == v@[k]@);
                    };
                    assert(views_of(out@) =~= views_of(v@));
                }
                Tag::List(*et, out)
            },
            Tag::Compound(es) => {
                let n = es.len();
                let mut out: Vec<NamedTag> = Vec::new();
                let mut i: usize = 0;
                while i < n
                    invariant
                        n == es@.len(),
                        i <= n,
                        out@.len() == i,
                        forall|k: int| 0 <= k < i ==> (#[trigger] out@[k]).name@ == es@[k].name@
                            && out@[k].value@ == es@[k].value@,
                    decreases n - i,
                {
                    proof {
                        assert(decreases_to!(*self => self->Compound_0));
                        assert(self->Compound_0 == *es);
                        assert(decreases_to!(*es => es@));
                        assert(decreases_to!(es@ => es@[i as int]));
                        assert(decreases_to!(es@[i as int] => es@[i as int].value));
                        assert(decreases_to!(*self => es@[i as int].value));
                    }
                    let c = NamedTag { name: es[i].name.clone(), value: es[i].value.deep_clone() };
                    out.push(c);
                    i += 1;
                }
                proof {
                    lemma_entries_of(out@);
                    lemma_entries_of(es@);
                    assert forall|k: int| 0 <= k < out@.len() implies entries_of(out@)[k]
                        == entries_of(es@)[k] by {
                        assert(entries_of(out@)[k] == (out@[k].name@, out@[k].value@));
                        assert(entries_of(es@)[k] == (es@[k].name@, es@[k].value@));
                    };
                    assert(entries_of(out@) =~= entries_of(es@));
                }
                Tag::Compound(out)
            },
            Tag::IntArray(a) => {
                let c = a.deep_clone();
                proof {
                    assert(c.view_spec() =~= a.view_spec());
                }
                Tag::IntArray(c)
            },
            Tag::LongArray(a) => {
                let c = a.deep_clone();
                proof {
                    assert(c.view_spec() =~= a.view_spec());
                }
                Tag::LongArray(c)
            },
        }
    }
}

} // verus!
