//! Output formatters. The binary formatter writes the wire format; the
//! textual formatter writes the stringified form.

use vstd::prelude::*;
use crate::mutf8;
use crate::nbt::TagType;
use crate::ser::{be2, be4, be8, Error};

verus! {

/// Writes the tagged binary wire format into a byte buffer. The top-level
/// value is wrapped in a compound or list header with an empty name.
pub struct BinaryFormatter {
    /// Whether the next container starts the document and needs the
    /// top-level header.
    pub top_level: bool,
}

impl BinaryFormatter {
    pub fn new() -> (r: BinaryFormatter)
        ensures
            r.top_level,
    {
        BinaryFormatter { top_level: true }
    }

    pub fn write_bool(&mut self, out: &mut Vec<u8>, value: bool)
        ensures
            *final(self) == *old(self),
            final(out)@ == old(out)@ + seq![if value { 1u8 } else { 0u8 }],
    {
        out.push(if value { 1 } else { 0 });
    }

    pub fn write_byte(&mut self, out: &mut Vec<u8>, value: i8)
        ensures
            *final(self) == *old(self),
            final(out)@ == old(out)@ + seq![value as u8],
    {
        out.push(value as u8);
    }

    pub fn write_short(&mut self, out: &mut Vec<u8>, value: i16)
        ensures
            *final(self) == *old(self),
            final(out)@ == old(out)@ + be2(value as u16),
    {
        let v = value as u16;
        out.push((v >> 8u16) as u8);
        out.push(v as u8);
        proof {
            assert(out@ =~= old(out)@ + be2(value as u16));
        }
    }

    pub fn write_int(&mut self, out: &mut Vec<u8>, value: i32)
        ensures
            *final(self) == *old(self),
            final(out)@ == old(out)@ + be4(value as u32),
    {
        let v = value as u32;
        out.push((v >> 24u32) as u8);
        out.push((v >> 16u32) as u8);
        out.push((v >> 8u32) as u8);
        out.push(v as u8);
        proof {
            assert(out@ =~= old(out)@ + be4(value as u32));
        }
    }

    pub fn write_long(&mut self, out: &mut Vec<u8>, value: i64)
        ensures
            *final(self) == *old(self),
            final(out)@ == old(out)@ + be8(value as u64),
    {
        let v = value as u64;
        out.push((v >> 56u64) as u8);
        out.push((v >> 48u64) as u8);
        out.push((v >> 40u64) as u8);
        out.push((v >> 32u64) as u8);
        out.push((v >> 24u64) as u8);
        out.push((v >> 16u64) as u8);
        out.push((v >> 8u64) as u8);
        out.push(v as u8);
        proof {
            assert(out@ =~= old(out)@ + be8(value as u64));
        }
    }

    /// Writes the raw bits of a 32-bit floating-point wire value.
    pub fn write_float(&mut self, out: &mut Vec<u8>, bits: u32)
        ensures
            *final(self) == *old(self),
            final(out)@ == old(out)@ + be4(bits),
    {
        out.push((bits >> 24u32) as u8);
        out.push((bits >> 16u32) as u8);
        out.push((bits >> 8u32) as u8);
        out.push(bits as u8);
        proof {
            assert(out@ =~= old(out)@ + be4(bits));
        }
    }

    /// Writes the raw bits of a 64-bit floating-point wire value.
    pub fn write_double(&mut self, out: &mut Vec<u8>, bits: u64)
        ensures
            *final(self) == *old(self),
            final(out)@ == old(out)@ + be8(bits),
    {
        out.push((bits >> 56u64) as u8);
        out.push((bits >> 48u64) as u8);
        out.push((bits >> 40u64) as u8);
        out.push((bits >> 32u64) as u8);
        out.push((bits >> 24u64) as u8);
        out.push((bits >> 16u64) as u8);
        out.push((bits >> 8u64) as u8);
        out.push(bits as u8);
        proof {
            assert(out@ =~= old(out)@ + be8(bits));
        }
    }

    /// Writes a byte array: its 32-bit length, then the bytes.
    pub fn write_byte_array(&mut self, out: &mut Vec<u8>, value: &[u8]) -> (r: Result<(), Error>)
        ensures
            *final(self) == *old(self),
            r is Ok <==> value@.len() <= 0x7fffffff,
            r is Ok ==> final(out)@ == old(out)@ + be4(value@.len() as u32) + value@,
            r is Err ==> final(out)@ == old(out)@ && r->Err_0 == Error::SequenceTooBig,
    {
        let n = value.len();
        if n > 0x7fffffff {
            return Err(Error::SequenceTooBig);
        }
        let v = n as u32;
        out.push((v >> 24u32) as u8);
        out.push((v >> 16u32) as u8);
        out.push((v >> 8u32) as u8);
        out.push(v as u8);
        let mut i: usize = 0;
        while i < n
            invariant
                n == value@.len(),
                i <= n,
                out@ == old(out)@ + be4(n as u32) + value@.take(i as int),
            decreases n - i,
        {
            out.push(value[i]);
            proof {
                assert(value@.take(i + 1) =~= value@.take(i as int) + seq![value@[i as int]]);
                assert((old(out)@ + be4(n as u32) + value@.take(i as int)) + seq![
                    value@[i as int]] =~= old(out)@ + be4(n as u32) + value@.take(i + 1));
            }
            i += 1;
        }
        proof {
            assert(value@.take(n as int) =~= value@);
            assert(old(out)@ + be4(n as u32) + value@.take(i as int) =~= final(out)@);
        }
        Ok(())
    }

    /// Writes a string: its modified-UTF-8 bytes behind their 16-bit length.
    pub fn write_string(&mut self, out: &mut Vec<u8>, value: &str) -> (r: Result<(), Error>)
        ensures
            *final(self) == *old(self),
            r is Ok <==> mutf8::mutf8(value@).len() <= 0xffff,
            r is Ok ==> final(out)@ == old(out)@ + be2(mutf8::mutf8(value@).len() as u16)
                + mutf8::mutf8(value@),
            r is Err ==> final(out)@ == old(out)@ && r->Err_0 == Error::StringTooBig,
    {
        let encoded = mutf8::encode(value);
        let n = encoded.len();
        if n > 0xffff {
            return Err(Error::StringTooBig);
        }
        let v = n as u16;
        out.push((v >> 8u16) as u8);
        out.push(v as u8);
        let mut i: usize = 0;
        while i < n
            invariant
                n == encoded@.len(),
                encoded@ == mutf8::mutf8(value@),
                i <= n,
                n <= 0xffff,
                out@ == old(out)@ + be2(n as u16) + encoded@.take(i as int),
            decreases n - i,
        {
            out.push(encoded[i]);
            proof {
                assert(encoded@.take(i + 1) =~= encoded@.take(i as int) + seq![
                    encoded@[i as int]]);
                assert((old(out)@ + be2(n as u16) + encoded@.take(i as int)) + seq![
                    encoded@[i as int]] =~= old(out)@ + be2(n as u16) + encoded@.take(i + 1));
            }
            i += 1;
        }
        proof {
            assert(encoded@.take(n as int) =~= encoded@);
            assert(old(out)@ + be2(n as u16) + encoded@.take(i as int) =~= final(out)@);
        }
        Ok(())
    }

    /// Starts a byte array whose bytes the caller writes next.
    pub fn start_byte_array(&mut self, out: &mut Vec<u8>, len: i32)
        ensures
            *final(self) == *old(self),
            final(out)@ == old(out)@ + be4(len as u32),
    {
        let v = len as u32;
        out.push((v >> 24u32) as u8);
        out.push((v >> 16u32) as u8);
        out.push((v >> 8u32) as u8);
        out.push(v as u8);
        proof {
            assert(out@ =~= old(out)@ + be4(len as u32));
        }
    }

    /// Starts an integer array whose bytes the caller writes next.
    pub fn start_int_array(&mut self, out: &mut Vec<u8>, len: i32)
        ensures
            *final(self) == *old(self),
            final(out)@ == old(out)@ + be4(len as u32),
    {
        self.start_byte_array(out, len)
    }

    /// Starts a long array whose bytes the caller writes next.
    pub fn start_long_array(&mut self, out: &mut Vec<u8>, len: i32)
        ensures
            *final(self) == *old(self),
            final(out)@ == old(out)@ + be4(len as u32),
    {
        self.start_byte_array(out, len)
    }

    /// Starts a list: at the top level it first writes the list header with
    /// an empty name, then the element kind and the length.
    pub fn start_list(&mut self, out: &mut Vec<u8>, len: i32, element_type: TagType)
        ensures
            final(self).top_level == false,
            final(out)@ == old(out)@ + (if old(self).top_level {
                seq![TagType::List.as_u8(), 0u8, 0u8]
            } else {
                Seq::<u8>::empty()
            }) + seq![element_type.as_u8()] + be4(len as u32),
    {
        if self.top_level {
            self.top_level = false;
            out.push(9);
            out.push(0);
            out.push(0);
        }
        out.push(element_type.to_u8());
        let v = len as u32;
        out.push((v >> 24u32) as u8);
        out.push((v >> 16u32) as u8);
        out.push((v >> 8u32) as u8);
        out.push(v as u8);
        proof {
            if old(self).top_level {
                assert(out@ =~= old(out)@ + seq![TagType::List.as_u8(), 0u8, 0u8] + seq![
                    element_type.as_u8()] + be4(len as u32));
            } else {
                assert(out@ =~= old(out)@ + Seq::<u8>::empty() + seq![
                    element_type.as_u8()] + be4(len as u32));
            }
        }
    }

    /// Marks the start of a list element; the binary form needs nothing.
    pub fn start_element(&mut self, out: &mut Vec<u8>, first: bool)
        ensures
            *final(self) == *old(self),
            final(out)@ == old(out)@,
    {
        let _ = first;
    }

    /// Marks the end of a sequence; the binary form needs nothing.
    pub fn end_sequence(&mut self, out: &mut Vec<u8>)
        ensures
            *final(self) == *old(self),
            final(out)@ == old(out)@,
    {
    }

    /// Starts a compound: at the top level it writes the compound header
    /// with an empty name.
    pub fn start_compound(&mut self, out: &mut Vec<u8>)
        ensures
            final(self).top_level == false,
            final(out)@ == old(out)@ + (if old(self).top_level {
                seq![TagType::Compound.as_u8(), 0u8, 0u8]
            } else {
                Seq::<u8>::empty()
            }),
    {
        if self.top_level {
            self.top_level = false;
            out.push(10);
            out.push(0);
            out.push(0);
            proof {
                assert(out@ =~= old(out)@ + seq![TagType::Compound.as_u8(), 0u8, 0u8]);
            }
        } else {
            proof {
                assert(out@ =~= old(out)@ + Seq::<u8>::empty());
            }
        }
    }

    /// Ends a compound with the closing `End` byte.
    pub fn end_compound(&mut self, out: &mut Vec<u8>)
        ensures
            *final(self) == *old(self),
            final(out)@ == old(out)@ + seq![0u8],
    {
        out.push(0);
    }

    /// Starts one compound entry: the value's kind, then the already
    /// length-prefixed key bytes.
    pub fn start_entry(&mut self, out: &mut Vec<u8>, key: &[u8], value_type: TagType) -> (r:
        Result<(), Error>)
        ensures
            *final(self) == *old(self),
            r is Ok,
            final(out)@ == old(out)@ + seq![value_type.as_u8()] + key@,
    {
        out.push(value_type.to_u8());
        let n = key.len();
        let mut i: usize = 0;
        while i < n
            invariant
                n == key@.len(),
                i <= n,
                out@ == old(out)@ + seq![value_type.as_u8()] + key@.take(i as int),
            decreases n - i,
        {
            out.push(key[i]);
            proof {
                assert(key@.take(i + 1) =~= key@.take(i as int) + seq![key@[i as int]]);
                assert((old(out)@ + seq![value_type.as_u8()] + key@.take(i as int)) + seq![
                    key@[i as int]] =~= old(out)@ + seq![value_type.as_u8()] + key@.take(i + 1));
            }
            i += 1;
        }
        proof {
            assert(key@.take(n as int) =~= key@);
            assert(old(out)@ + seq![value_type.as_u8()] + key@.take(i as int) =~= final(out)@);
        }
        Ok(())
    }

    /// Ends one compound entry; the binary form needs nothing.
    pub fn end_entry(&mut self, out: &mut Vec<u8>)
        ensures
            *final(self) == *old(self),
            final(out)@ == old(out)@,
    {
    }
}

/// Writes the stringified textual form into a byte buffer, tracking for
/// each open container whether its first element is still to come.
pub struct StringifiedFormatter {
    pub first: Vec<bool>,
}

impl StringifiedFormatter {
    pub fn new() -> (r: StringifiedFormatter)
        ensures
            r.first@.len() == 0,
    {
        StringifiedFormatter { first: Vec::new() }
    }

    pub fn write_bool(&mut self, out: &mut Vec<u8>, value: bool)
        ensures
            *final(self) == *old(self),
            value ==> final(out)@ == old(out)@ + seq![0x74u8, 0x72u8, 0x75u8, 0x65u8],
            !value ==> final(out)@ == old(out)@ + seq![0x66u8, 0x61u8, 0x6cu8, 0x73u8, 0x65u8],
    {
        if value {
            out.push(0x74);
            out.push(0x72);
            out.push(0x75);
            out.push(0x65);
            proof {
                assert(out@ =~= old(out)@ + seq![0x74u8, 0x72u8, 0x75u8, 0x65u8]);
            }
        } else {
            out.push(0x66);
            out.push(0x61);
            out.push(0x6c);
            out.push(0x73);
            out.push(0x65);
            proof {
                assert(out@ =~= old(out)@ + seq![0x66u8, 0x61u8, 0x6cu8, 0x73u8, 0x65u8]);
            }
        }
    }

    pub fn write_byte(&mut self, out: &mut Vec<u8>, value: i8)
        ensures
            *final(self) == *old(self),
            final(out)@ == old(out)@ + crate::ser::snbt::dec_int(value as int) + seq![0x62u8],
    {
        crate::ser::snbt::push_dec_i64(out, value as i64);
        out.push(0x62);
        proof {
            assert(out@ =~= old(out)@ + crate::ser::snbt::dec_int(value as int) + seq![0x62u8]);
        }
    }

    pub fn write_short(&mut self, out: &mut Vec<u8>, value: i16)
        ensures
            *final(self) == *old(self),
            final(out)@ == old(out)@ + crate::ser::snbt::dec_int(value as int) + seq![0x73u8],
    {
        crate::ser::snbt::push_dec_i64(out, value as i64);
        out.push(0x73);
        proof {
            assert(out@ =~= old(out)@ + crate::ser::snbt::dec_int(value as int) + seq![0x73u8]);
        }
    }

    pub fn write_int(&mut self, out: &mut Vec<u8>, value: i32)
        ensures
            *final(self) == *old(self),
            final(out)@ == old(out)@ + crate::ser::snbt::dec_int(value as int),
    {
        crate::ser::snbt::push_dec_i64(out, value as i64);
    }

    pub fn write_long(&mut self, out: &mut Vec<u8>, value: i64)
        ensures
            *final(self) == *old(self),
            final(out)@ == old(out)@ + crate::ser::snbt::dec_int(value as int) + seq![0x6cu8],
    {
        crate::ser::snbt::push_dec_i64(out, value);
        out.push(0x6c);
        proof {
            assert(out@ =~= old(out)@ + crate::ser::snbt::dec_int(value as int) + seq![0x6cu8]);
        }
    }

    /// Writes a string in double quotes, with the standard escapes.
    pub fn write_string(&mut self, out: &mut Vec<u8>, value: &str)
        ensures
            *final(self) == *old(self),
            final(out)@ == old(out)@ + seq![0x22u8] + crate::ser::snbt::escaped(
                vstd::utf8::encode_utf8(value@),
            ) + seq![0x22u8],
    {
        out.push(0x22);
        crate::ser::snbt::push_escaped(out, value.as_bytes());
        out.push(0x22);
        proof {
            assert(out@ =~= old(out)@ + seq![0x22u8] + crate::ser::snbt::escaped(
                vstd::utf8::encode_utf8(value@),
            ) + seq![0x22u8]);
        }
    }

    /// Opens a byte array and expects its elements next.
    pub fn start_byte_array(&mut self, out: &mut Vec<u8>, len: i32)
        ensures
            final(self).first@ == old(self).first@.push(true),
            final(out)@ == old(out)@ + seq![0x5bu8, 0x42u8, 0x3bu8],
    {
        let _ = len;
        self.first.push(true);
        out.push(0x5b);
        out.push(0x42);
        out.push(0x3b);
        proof {
            assert(out@ =~= old(out)@ + seq![0x5bu8, 0x42u8, 0x3bu8]);
        }
    }

    /// Opens an integer array and expects its elements next.
    pub fn start_int_array(&mut self, out: &mut Vec<u8>, len: i32)
        ensures
            final(self).first@ == old(self).first@.push(true),
            final(out)@ == old(out)@ + seq![0x5bu8, 0x49u8, 0x3bu8],
    {
        let _ = len;
        self.first.push(true);
        out.push(0x5b);
        out.push(0x49);
        out.push(0x3b);
        proof {
            assert(out@ =~= old(out)@ + seq![0x5bu8, 0x49u8, 0x3bu8]);
        }
    }

    /// Opens a long array and expects its elements next.
    pub fn start_long_array(&mut self, out: &mut Vec<u8>, len: i32)
        ensures
            final(self).first@ == old(self).first@.push(true),
            final(out)@ == old(out)@ + seq![0x5bu8, 0x4cu8, 0x3bu8],
    {
        let _ = len;
        self.first.push(true);
        out.push(0x5b);
        out.push(0x4c);
        out.push(0x3b);
        proof {
            assert(out@ =~= old(out)@ + seq![0x5bu8, 0x4cu8, 0x3bu8]);
        }
    }

    /// Opens a list and expects its elements next.
    pub fn start_list(&mut self, out: &mut Vec<u8>, len: i32, element_type: TagType)
        ensures
            final(self).first@ == old(self).first@.push(true),
            final(out)@ == old(out)@ + seq![0x5bu8],
    {
        let _ = len;
        let _ = element_type;
        self.first.push(true);
        out.push(0x5b);
    }

    /// Separates one sequence element from the one before it.
    pub fn start_element(&mut self, out: &mut Vec<u8>, first: bool)
        ensures
            *final(self) == *old(self),
            first ==> final(out)@ == old(out)@,
            !first ==> final(out)@ == old(out)@ + seq![0x2cu8],
    {
        if !first {
            out.push(0x2c);
        }
    }

    /// Closes a sequence.
    pub fn end_sequence(&mut self, out: &mut Vec<u8>)
        ensures
            final(self).first@ == (if old(self).first@.len() > 0 {
                old(self).first@.drop_last()
            } else {
                old(self).first@
            }),
            final(out)@ == old(out)@ + seq![0x5du8],
    {
        if self.first.len() > 0 {
            let _ = self.first.pop();
        }
        out.push(0x5d);
    }

    /// Opens a compound.
    pub fn start_compound(&mut self, out: &mut Vec<u8>)
        ensures
            final(self).first@ == old(self).first@.push(true),
            final(out)@ == old(out)@ + seq![0x7bu8],
    {
        self.first.push(true);
        out.push(0x7b);
    }

    /// Closes a compound.
    pub fn end_compound(&mut self, out: &mut Vec<u8>)
        ensures
            final(self).first@ == (if old(self).first@.len() > 0 {
                old(self).first@.drop_last()
            } else {
                old(self).first@
            }),
            final(out)@ == old(out)@ + seq![0x7du8],
    {
        if self.first.len() > 0 {
            let _ = self.first.pop();
        }
        out.push(0x7d);
    }

    /// Starts one compound entry: a separating comma after the first, then
    /// the already rendered key bytes and a colon.
    pub fn start_entry(&mut self, out: &mut Vec<u8>, key: &[u8], value_type: TagType)
        ensures
            final(self).first@ == (if old(self).first@.len() > 0 {
                old(self).first@.update(old(self).first@.len() - 1, false)
            } else {
                old(self).first@
            }),
            final(out)@ == old(out)@ + (if old(self).first@.len() > 0 && !old(
                self,
            ).first@.last() {
                seq![0x2cu8]
            } else {
                Seq::<u8>::empty()
            }) + key@ + seq![0x3au8],
    {
        let _ = value_type;
        let ghost f0 = self.first@;
        let depth = self.first.len();
        if depth > 0 {
            let was_first = self.first[depth - 1];
            if !was_first {
                out.push(0x2c);
            }
            self.first.set(depth - 1, false);
        }
        let ghost mid = out@;
        append_bytes_text(out, key);
        out.push(0x3a);
        proof {
            if f0.len() > 0 {
                assert(self.first@ =~= f0.update(f0.len() - 1, false));
            }
            if f0.len() > 0 && !f0.last() {
                assert(out@ =~= old(out)@ + seq![0x2cu8] + key@ + seq![0x3au8]);
            } else {
                assert(out@ =~= old(out)@ + Seq::<u8>::empty() + key@ + seq![0x3au8]);
            }
        }
    }

    /// Ends one compound entry; the textual form needs nothing.
    pub fn end_entry(&mut self, out: &mut Vec<u8>)
        ensures
            *final(self) == *old(self),
            final(out)@ == old(out)@,
    {
    }
}

fn append_bytes_text(out: &mut Vec<u8>, b: &[u8])
    ensures
        final(out)@ == old(out)@ + b@,
{
    let n = b.len();
    let mut i: usize = 0;
    while i < n
        invariant
            n == b@.len(),
            i <= n,
            out@ == old(out)@ + b@.take(i as int),
        decreases n - i,
    {
        out.push(b[i]);
        proof {
            assert(b@.take(i + 1) =~= b@.take(i as int) + seq![b@[i as int]]);
            assert((old(out)@ + b@.take(i as int)) + seq![b@[i as int]] =~= old(out)@ + b@.take(
                i + 1,
            ));
        }
        i += 1;
    }
    proof {
        assert(b@.take(n as int) =~= b@);
    }
}

} // verus!
