//! A reader over a borrowed byte slice. Each primitive read consumes the
//! fixed-width big-endian wire form and reports `Io` where the input is too
//! short, instead of running off the end.

use vstd::prelude::*;
use vstd::utf8::decode_utf8;
use crate::de::{be16_at, be32_at, be64_at, Error};
use crate::mutf8;
use crate::mutf8::mutf8_to_utf8;
use crate::nbt::{TagType, TagTypeConversionError};

verus! {

/// A position inside a borrowed byte slice.
pub struct Slice<'a> {
    pub data: &'a [u8],
    pub pos: usize,
}

impl<'a> Slice<'a> {
    /// The bytes not yet consumed.
    pub open spec fn remaining(&self) -> Seq<u8> {
        self.data@.skip(self.pos as int)
    }

    /// The reader stands inside its slice.
    pub open spec fn inv(&self) -> bool {
        self.pos <= self.data@.len()
    }

    pub fn new(data: &'a [u8]) -> (r: Slice<'a>)
        ensures
            r.inv(),
            r.data@ == data@,
            r.pos == 0,
            r.remaining() == data@,
    {
        let r = Slice { data, pos: 0 };
        proof {
            assert(r.remaining() =~= data@);
        }
        r
    }

    pub fn read_byte(&mut self) -> (r: Result<i8, Error>)
        requires
            old(self).inv(),
        ensures
            final(self).inv(),
            final(self).data@ == old(self).data@,
            r is Ok <==> old(self).remaining().len() >= 1,
            r is Ok ==> r->Ok_0 == old(self).remaining()[0] as i8 && final(self).pos == old(
                self,
            ).pos + 1,
            r is Err ==> r->Err_0 == Error::Io && *final(self) == *old(self),
    {
        if self.pos < self.data.len() {
            let b = self.data[self.pos];
            self.pos = self.pos + 1;
            proof {
                assert(old(self).remaining()[0] == old(self).data@[old(self).pos as int]);
            }
            Ok(b as i8)
        } else {
            Err(Error::Io)
        }
    }

    pub fn read_short(&mut self) -> (r: Result<i16, Error>)
        requires
            old(self).inv(),
        ensures
            final(self).inv(),
            final(self).data@ == old(self).data@,
            r is Ok <==> old(self).remaining().len() >= 2,
            r is Ok ==> r->Ok_0 == be16_at(old(self).remaining(), 0) as i16 && final(self).pos
                == old(self).pos + 2,
            r is Err ==> r->Err_0 == Error::Io && *final(self) == *old(self),
    {
        let n = self.data.len();
        if n - self.pos >= 2 {
            let b0 = self.data[self.pos];
            let b1 = self.data[self.pos + 1];
            self.pos = self.pos + 2;
            let v = ((b0 as u16) << 8u16) | (b1 as u16);
            proof {
                assert(old(self).remaining()[0] == old(self).data@[old(self).pos as int]);
                assert(old(self).remaining()[1] == old(self).data@[old(self).pos + 1]);
            }
            Ok(v as i16)
        } else {
            Err(Error::Io)
        }
    }

    pub fn read_int(&mut self) -> (r: Result<i32, Error>)
        requires
            old(self).inv(),
        ensures
            final(self).inv(),
            final(self).data@ == old(self).data@,
            r is Ok <==> old(self).remaining().len() >= 4,
            r is Ok ==> r->Ok_0 == be32_at(old(self).remaining(), 0) as i32 && final(self).pos
                == old(self).pos + 4,
            r is Err ==> r->Err_0 == Error::Io && *final(self) == *old(self),
    {
        match self.read_u32() {
            Ok(v) => Ok(v as i32),
            Err(e) => Err(e),
        }
    }

    /// Reads a big-endian 32-bit value as its unsigned bits.
    pub fn read_u32(&mut self) -> (r: Result<u32, Error>)
        requires
            old(self).inv(),
        ensures
            final(self).inv(),
            final(self).data@ == old(self).data@,
            r is Ok <==> old(self).remaining().len() >= 4,
            r is Ok ==> r->Ok_0 == be32_at(old(self).remaining(), 0) && final(self).pos == old(
                self,
            ).pos + 4,
            r is Err ==> r->Err_0 == Error::Io && *final(self) == *old(self),
    {
        let n = self.data.len();
        if n - self.pos >= 4 {
            let b0 = self.data[self.pos];
            let b1 = self.data[self.pos + 1];
            let b2 = self.data[self.pos + 2];
            let b3 = self.data[self.pos + 3];
            self.pos = self.pos + 4;
            let v = ((b0 as u32) << 24u32) | ((b1 as u32) << 16u32) | ((b2 as u32) << 8u32) | (
            b3 as u32);
            proof {
                assert(old(self).remaining()[0] == old(self).data@[old(self).pos as int]);
                assert(old(self).remaining()[1] == old(self).data@[old(self).pos + 1]);
                assert(old(self).remaining()[2] == old(self).data@[old(self).pos + 2]);
                assert(old(self).remaining()[3] == old(self).data@[old(self).pos + 3]);
            }
            Ok(v)
        } else {
            Err(Error::Io)
        }
    }

    pub fn read_long(&mut self) -> (r: Result<i64, Error>)
        requires
            old(self).inv(),
        ensures
            final(self).inv(),
            final(self).data@ == old(self).data@,
            r is Ok <==> old(self).remaining().len() >= 8,
            r is Ok ==> r->Ok_0 == be64_at(old(self).remaining(), 0) as i64 && final(self).pos
                == old(self).pos + 8,
            r is Err ==> r->Err_0 == Error::Io && *final(self) == *old(self),
    {
        match self.read_u64() {
            Ok(v) => Ok(v as i64),
            Err(e) => Err(e),
        }
    }

    /// Reads a big-endian 64-bit value as its unsigned bits.
    pub fn read_u64(&mut self) -> (r: Result<u64, Error>)
        requires
            old(self).inv(),
        ensures
            final(self).inv(),
            final(self).data@ == old(self).data@,
            r is Ok <==> old(self).remaining().len() >= 8,
            r is Ok ==> r->Ok_0 == be64_at(old(self).remaining(), 0) && final(self).pos == old(
                self,
            ).pos + 8,
            r is Err ==> r->Err_0 == Error::Io && *final(self) == *old(self),
    {
        let n = self.data.len();
        if n - self.pos >= 8 {
            let b0 = self.data[self.pos];
            let b1 = self.data[self.pos + 1];
            let b2 = self.data[self.pos + 2];
            let b3 = self.data[self.pos + 3];
            let b4 = self.data[self.pos + 4];
            let b5 = self.data[self.pos + 5];
            let b6 = self.data[self.pos + 6];
            let b7 = self.data[self.pos + 7];
            self.pos = self.pos + 8;
            let v = ((b0 as u64) << 56u64) | ((b1 as u64) << 48u64) | ((b2 as u64) << 40u64) | ((
            b3 as u64) << 32u64) | ((b4 as u64) << 24u64) | ((b5 as u64) << 16u64) | ((b6 as u64)
                << 8u64) | (b7 as u64);
            proof {
                assert(old(self).remaining()[0] == old(self).data@[old(self).pos as int]);
                assert(old(self).remaining()[1] == old(self).data@[old(self).pos + 1]);
                assert(old(self).remaining()[2] == old(self).data@[old(self).pos + 2]);
                assert(old(self).remaining()[3] == old(self).data@[old(self).pos + 3]);
                assert(old(self).remaining()[4] == old(self).data@[old(self).pos + 4]);
                assert(old(self).remaining()[5] == old(self).data@[old(self).pos + 5]);
                assert(old(self).remaining()[6] == old(self).data@[old(self).pos + 6]);
                assert(old(self).remaining()[7] == old(self).data@[old(self).pos + 7]);
            }
            Ok(v)
        } else {
            Err(Error::Io)
        }
    }

    /// Reads the raw bits of a 32-bit floating-point wire value.
    pub fn read_float(&mut self) -> (r: Result<u32, Error>)
        requires
            old(self).inv(),
        ensures
            final(self).inv(),
            final(self).data@ == old(self).data@,
            r is Ok <==> old(self).remaining().len() >= 4,
            r is Ok ==> r->Ok_0 == be32_at(old(self).remaining(), 0) && final(self).pos == old(
                self,
            ).pos + 4,
            r is Err ==> r->Err_0 == Error::Io && *final(self) == *old(self),
    {
        self.read_u32()
    }

    /// Reads the raw bits of a 64-bit floating-point wire value.
    pub fn read_double(&mut self) -> (r: Result<u64, Error>)
        requires
            old(self).inv(),
        ensures
            final(self).inv(),
            final(self).data@ == old(self).data@,
            r is Ok <==> old(self).remaining().len() >= 8,
            r is Ok ==> r->Ok_0 == be64_at(old(self).remaining(), 0) && final(self).pos == old(
                self,
            ).pos + 8,
            r is Err ==> r->Err_0 == Error::Io && *final(self) == *old(self),
    {
        self.read_u64()
    }

    /// Copies `count` bytes out of the input.
    pub fn take_bytes(&mut self, count: usize) -> (r: Result<Vec<u8>, Error>)
        requires
            old(self).inv(),
        ensures
            final(self).inv(),
            final(self).data@ == old(self).data@,
            r is Ok <==> old(self).remaining().len() >= count,
            r is Ok ==> r->Ok_0@ == old(self).remaining().subrange(0, count as int) && final(self).pos == old(self).pos + count,
            r is Err ==> r->Err_0 == Error::Io && *final(self) == *old(self),
    {
        let n = self.data.len();
        if count > n - self.pos {
            return Err(Error::Io);
        }
        let mut out: Vec<u8> = Vec::new();
        let mut i: usize = 0;
        while i < count
            invariant
                old(self).inv(),
                *self == *old(self),
                n == old(self).data@.len(),
                count <= n - old(self).pos,
                i <= count,
                out@.len() == i,
                forall|k: int| 0 <= k < i ==> out@[k] == old(self).data@[old(self).pos + k],
            decreases count - i,
        {
            out.push(self.data[self.pos + i]);
            i += 1;
        }
        self.pos = self.pos + count;
        proof {
            assert(out@ =~= old(self).remaining().subrange(0, count as int));
        }
        Ok(out)
    }

    /// Reads a 32-bit length, then that many times `len_multiplier` raw
    /// bytes.
    pub fn read_bytes(&mut self, len_multiplier: u32) -> (r: Result<Vec<u8>, Error>)
        requires
            old(self).inv(),
            1 <= len_multiplier <= 8,
        ensures
            final(self).inv(),
            final(self).data@ == old(self).data@,
            ({
                let b = old(self).remaining();
                if b.len() < 4 {
                    r == Result::<Vec<u8>, Error>::Err(Error::Io)
                } else {
                    let n = be32_at(b, 0) as i32;
                    if n < 0 {
                        r == Result::<Vec<u8>, Error>::Err(Error::NegativeLength)
                    } else if b.len() < 4 + len_multiplier * n {
                        r == Result::<Vec<u8>, Error>::Err(Error::Io)
                    } else {
                        &&& r is Ok
                        &&& r->Ok_0@ == b.subrange(4, 4 + len_multiplier * n)
                        &&& final(self).pos == old(self).pos + 4 + len_multiplier * n
                    }
                }
            }),
    {
        let dn = self.data.len();
        let len = match self.read_int() {
            Ok(v) => v,
            Err(e) => {
                return Err(e);
            },
        };
        if len < 0 {
            return Err(Error::NegativeLength);
        }
        proof {
            assert((len as u64) * (len_multiplier as u64) <= 0x7fffffffu64 * 8) by (
            nonlinear_arith)
                requires
                    0 <= len <= 0x7fffffff,
                    1 <= len_multiplier <= 8,
            ;
        }
        let count = (len as u64) * (len_multiplier as u64);
        let ghost b = old(self).remaining();
        let ghost nv: i32 = be32_at(b, 0) as i32;
        proof {
            assert(self.remaining() =~= b.skip(4));
            assert(b.len() <= dn);
            assert(count == len_multiplier * nv) by (nonlinear_arith)
                requires
                    count == (len as u64) * (len_multiplier as u64),
                    len == nv,
                    0 <= nv,
                    1 <= len_multiplier <= 8,
            ;
        }
        if count > usize::MAX as u64 {
            return Err(Error::Io);
        }
        let r = self.take_bytes(count as usize);
        proof {
            let n = be32_at(b, 0) as i32;
            if r is Ok {
                assert(r->Ok_0@ =~= b.subrange(4, 4 + len_multiplier * n));
            } else {
                assert(b.len() - 4 < len_multiplier * n);
            }
        }
        match r {
            Ok(v) => Ok(v),
            Err(e) => Err(e),
        }
    }

    /// Reads a 16-bit length, then that many modified-UTF-8 bytes, decoded
    /// strictly.
    pub fn read_string(&mut self) -> (r: Result<String, Error>)
        requires
            old(self).inv(),
        ensures
            final(self).inv(),
            final(self).data@ == old(self).data@,
            ({
                let b = old(self).remaining();
                if b.len() < 2 {
                    r == Result::<String, Error>::Err(Error::Io)
                } else {
                    let n = be16_at(b, 0) as int;
                    if b.len() < 2 + n {
                        r == Result::<String, Error>::Err(Error::Io)
                    } else {
                        match mutf8_to_utf8(b.subrange(2, 2 + n)) {
                            Option::None => r == Result::<String, Error>::Err(
                                Error::InvalidMUTF8,
                            ),
                            Option::Some(u) => r is Ok && r->Ok_0@ == decode_utf8(u) && final(self).pos == old(self).pos + 2 + n,
                        }
                    }
                }
            }),
    {
        let len = match self.read_short() {
            Ok(v) => v,
            Err(e) => {
                return Err(e);
            },
        };
        let ghost b = old(self).remaining();
        proof {
            assert(self.remaining() =~= b.skip(2));
        }
        let count = (len as u16) as usize;
        let ghost lv: u16 = be16_at(b, 0);
        proof {
            assert(count == lv) by (bit_vector)
                requires
                    len == lv as i16,
                    count == (len as u16) as usize,
            ;
        }
        let raw = match self.take_bytes(count) {
            Ok(v) => v,
            Err(e) => {
                proof {
                    assert(b.len() < 2 + be16_at(b, 0));
                }
                return Err(e);
            },
        };
        proof {
            assert(raw@ =~= b.subrange(2, 2 + be16_at(b, 0)));
        }
        match mutf8::decode(raw.as_slice()) {
            Some(s) => Ok(s),
            None => Err(Error::InvalidMUTF8),
        }
    }

    /// Skips a 16-bit length and that many bytes, without decoding them.
    pub fn ignore_string(&mut self) -> (r: Result<(), Error>)
        requires
            old(self).inv(),
        ensures
            final(self).inv(),
            final(self).data@ == old(self).data@,
            ({
                let b = old(self).remaining();
                if b.len() < 2 || b.len() < 2 + be16_at(b, 0) {
                    r == Result::<(), Error>::Err(Error::Io)
                } else {
                    r is Ok && final(self).pos == old(self).pos + 2 + be16_at(b, 0)
                }
            }),
    {
        let len = match self.read_short() {
            Ok(v) => v,
            Err(e) => {
                return Err(e);
            },
        };
        let ghost b = old(self).remaining();
        proof {
            assert(self.remaining() =~= b.skip(2));
        }
        let count = (len as u16) as usize;
        let ghost lv: u16 = be16_at(b, 0);
        proof {
            assert(count == lv) by (bit_vector)
                requires
                    len == lv as i16,
                    count == (len as u16) as usize,
            ;
        }
        let n = self.data.len();
        if count > n - self.pos {
            return Err(Error::Io);
        }
        self.pos = self.pos + count;
        Ok(())
    }

    /// Reads one byte and interprets it as a tag kind.
    pub fn read_tag_type(&mut self) -> (r: Result<TagType, Error>)
        requires
            old(self).inv(),
        ensures
            final(self).inv(),
            final(self).data@ == old(self).data@,
            ({
                let b = old(self).remaining();
                if b.len() < 1 {
                    r == Result::<TagType, Error>::Err(Error::Io)
                } else {
                    match TagType::spec_from_u8(b[0]) {
                        Option::None => r == Result::<TagType, Error>::Err(
                            Error::InvalidTagType(b[0]),
                        ) && final(self).pos == old(self).pos + 1,
                        Option::Some(t) => r is Ok && r->Ok_0 == t && final(self).pos == old(
                            self,
                        ).pos + 1,
                    }
                }
            }),
    {
        let byte = match self.read_byte() {
            Ok(v) => v,
            Err(e) => {
                return Err(e);
            },
        };
        proof {
            let b0 = old(self).remaining()[0];
            assert((b0 as i8) as u8 == b0) by (bit_vector);
        }
        match TagType::try_from_u8(byte as u8) {
            Ok(t) => Ok(t),
            Err(TagTypeConversionError(v)) => Err(Error::InvalidTagType(v)),
        }
    }
}

} // verus!
