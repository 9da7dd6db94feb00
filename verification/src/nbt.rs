//! The tag kinds of the tagged binary format and the dynamic tag tree.

use vstd::prelude::*;

pub mod owned;

verus! {

/// The thirteen tag kinds, with their stable wire codes given by
/// [`TagType::as_u8`].
#[derive(Debug, Clone, Copy, PartialEq, Eq, Structural)]
pub enum TagType {
    End,
    Byte,
    Short,
    Int,
    Long,
    Float,
    Double,
    ByteArray,
    String,
    List,
    Compound,
    IntArray,
    LongArray,
}

/// The error for a byte that names no tag kind, carrying the offending value.
#[derive(Debug, Clone, Copy, PartialEq, Eq)]
pub struct TagTypeConversionError<T>(pub T);

impl TagType {
    /// The wire code of this tag kind.
    pub open spec fn as_u8(self) -> u8 {
        match self {
            TagType::End => 0,
            TagType::Byte => 1,
            TagType::Short => 2,
            TagType::Int => 3,
            TagType::Long => 4,
            TagType::Float => 5,
            TagType::Double => 6,
            TagType::ByteArray => 7,
            TagType::String => 8,
            TagType::List => 9,
            TagType::Compound => 10,
            TagType::IntArray => 11,
            TagType::LongArray => 12,
        }
    }

    /// The tag kind with the given wire code, if the code is one of the
    /// thirteen.
    pub open spec fn spec_from_u8(value: u8) -> Option<TagType> {
        if value == 0 {
            Some(TagType::End)
        } else if value == 1 {
            Some(TagType::Byte)
        } else if value == 2 {
            Some(TagType::Short)
        } else if value == 3 {
            Some(TagType::Int)
        } else if value == 4 {
            Some(TagType::Long)
        } else if value == 5 {
            Some(TagType::Float)
        } else if value == 6 {
            Some(TagType::Double)
        } else if value == 7 {
            Some(TagType::ByteArray)
        } else if value == 8 {
            Some(TagType::String)
        } else if value == 9 {
            Some(TagType::List)
        } else if value == 10 {
            Some(TagType::Compound)
        } else if value == 11 {
            Some(TagType::IntArray)
        } else if value == 12 {
            Some(TagType::LongArray)
        } else {
            None
        }
    }

    /// Writes this tag kind's wire code.
    pub fn to_u8(self) -> (r: u8)
        ensures
            r == self.as_u8(),
    {
        match self {
            TagType::End => 0,
            TagType::Byte => 1,
            TagType::Short => 2,
            TagType::Int => 3,
            TagType::Long => 4,
            TagType::Float => 5,
            TagType::Double => 6,
            TagType::ByteArray => 7,
            TagType::String => 8,
            TagType::List => 9,
            TagType::Compound => 10,
            TagType::IntArray => 11,
            TagType::LongArray => 12,
        }
    }

    /// Reads a tag kind from its wire code; exactly the codes 0 through 12
    /// are accepted.
    pub fn try_from_u8(value: u8) -> (r: Result<TagType, TagTypeConversionError<u8>>)
        ensures
            r is Ok <==> TagType::spec_from_u8(value) is Some,
            r is Ok ==> Some(r->Ok_0) == TagType::spec_from_u8(value),
            r is Err ==> r->Err_0 == (TagTypeConversionError(value)),
    {
        match value {
            0 => Ok(TagType::End),
            1 => Ok(TagType::Byte),
            2 => Ok(TagType::Short),
            3 => Ok(TagType::Int),
            4 => Ok(TagType::Long),
            5 => Ok(TagType::Float),
            6 => Ok(TagType::Double),
            7 => Ok(TagType::ByteArray),
            8 => Ok(TagType::String),
            9 => Ok(TagType::List),
            10 => Ok(TagType::Compound),
            11 => Ok(TagType::IntArray),
            12 => Ok(TagType::LongArray),
            _ => Err(TagTypeConversionError(value)),
        }
    }
}

/// Round trip between a tag kind and its wire code.
pub proof fn lemma_tag_type_code_round_trip(t: TagType, value: u8)
    ensures
        TagType::spec_from_u8(t.as_u8()) == Some(t),
        TagType::spec_from_u8(value) matches Some(u) ==> u.as_u8() == value,
{
}

} // verus!
