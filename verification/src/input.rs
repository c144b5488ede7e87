//! The reader side of the byte I/O primitives: a byte buffer consumed left
//! to right with one byte of look-ahead, plus the reader's half of the
//! document-local interning table.
//!
//! Every read is atomic: a failed read returns an error and leaves the
//! reader exactly as it was.

use vstd::prelude::*;
use vstd::utf8::{decode_utf8, encode_utf8, valid_utf8};
use crate::codecs::bytes_to_string;
use crate::wire::{
    spec_take16, spec_take32, spec_take64, spec_take_iutf, spec_take_utf, spec_u32_as_i32,
    spec_u64_as_i64, spec_val16, spec_val32, spec_val64, InternTable,
};
use crate::ConversionError;

verus! {

broadcast use vstd::utf8::group_utf8_lib;

/// The signed reinterpretation of a `u32`.
pub(crate) fn u32_as_i32(v: u32) -> (r: i32)
    ensures
        r == spec_u32_as_i32(v),
{
    if v < 0x8000_0000 {
        v as i32
    } else {
        ((v as i64) - 0x1_0000_0000) as i32
    }
}

/// The signed reinterpretation of a `u64`.
pub(crate) fn u64_as_i64(v: u64) -> (r: i64)
    ensures
        r == spec_u64_as_i64(v),
{
    if v < 0x8000_0000_0000_0000 {
        v as i64
    } else {
        ((v as i128) - 0x1_0000_0000_0000_0000) as i64
    }
}

/// A data source that reads the ABX wire primitives out of an in-memory
/// buffer and owns the reader's half of the string-interning table.
pub struct DataInput {
    data: Vec<u8>,
    pos: usize,
    interned_strings: Vec<String>,
}

impl DataInput {
    /// The whole input.
    pub closed spec fn data(&self) -> Seq<u8> {
        self.data@
    }

    /// How much of the input has been consumed.
    pub closed spec fn pos(&self) -> int {
        self.pos as int
    }

    /// The interning table so far, as the byte strings it holds.
    pub closed spec fn table(&self) -> InternTable {
        Seq::new(self.interned_strings@.len(), |i: int| encode_utf8(self.interned_strings@[i]@))
    }

    /// The bytes not yet consumed.
    pub open spec fn rem(&self) -> Seq<u8> {
        self.data().skip(self.pos())
    }

    /// The position never runs past the end of the input.
    pub open spec fn wf(&self) -> bool {
        0 <= self.pos() <= self.data().len()
    }

    /// A fresh reader over `data`, with an empty interning table.
    pub fn new(data: Vec<u8>) -> (r: Self)
        ensures
            r.data() == data@,
            r.pos() == 0,
            r.table() == Seq::<Seq<u8>>::empty(),
            r.wf(),
    {
        let r = DataInput { data, pos: 0, interned_strings: Vec::new() };
        proof {
            assert(r.table() =~= Seq::<Seq<u8>>::empty());
        }
        r
    }

    /// Reads one byte.
    pub fn read_byte(&mut self) -> (r: Result<u8, ConversionError>)
        requires
            old(self).wf(),
        ensures
            final(self).wf(),
            final(self).data() == old(self).data(),
            final(self).table() == old(self).table(),
            r is Ok <==> old(self).rem().len() >= 1,
            r matches Ok(b) ==> b == old(self).rem()[0] && final(self).pos() == old(self).pos()
                + 1,
            r matches Err(e) ==> *final(self) == *old(self) && e is ReadError,
    {
        if self.pos < self.data.len() {
            let b = self.data[self.pos];
            self.pos = self.pos + 1;
            Ok(b)
        } else {
            Err(ConversionError::ReadError("byte".to_owned()))
        }
    }

    /// Looks at the next byte without consuming it.
    pub fn peek_byte(&mut self) -> (r: Result<u8, ConversionError>)
        requires
            old(self).wf(),
        ensures
            *final(self) == *old(self),
            r is Ok <==> old(self).rem().len() >= 1,
            r matches Ok(b) ==> b == old(self).rem()[0],
            r matches Err(e) ==> e is ReadError,
    {
        if self.pos < self.data.len() {
            Ok(self.data[self.pos])
        } else {
            Err(ConversionError::ReadError("byte".to_owned()))
        }
    }

    /// Reads a `u16`, big-endian.
    pub fn read_short(&mut self) -> (r: Result<u16, ConversionError>)
        requires
            old(self).wf(),
        ensures
            final(self).wf(),
            final(self).data() == old(self).data(),
            final(self).table() == old(self).table(),
            r is Ok <==> spec_take16(old(self).rem()) is Some,
            r matches Ok(v) ==> spec_take16(old(self).rem()) == Some((v, 2int)) && final(self).pos() == old(self).pos() + 2,
            r matches Err(e) ==> *final(self) == *old(self) && e is ReadError,
    {
        if self.data.len() - self.pos >= 2 {
            let b0 = self.data[self.pos];
            let b1 = self.data[self.pos + 1];
            self.pos = self.pos + 2;
            let v: u16 = ((b0 as u16) << 8) | (b1 as u16);
            proof {
                assert(v == spec_val16(old(self).rem()[0], old(self).rem()[1]));
            }
            Ok(v)
        } else {
            Err(ConversionError::ReadError("short".to_owned()))
        }
    }

    /// Reads an `i32`, big-endian, two's complement.
    pub fn read_int(&mut self) -> (r: Result<i32, ConversionError>)
        requires
            old(self).wf(),
        ensures
            final(self).wf(),
            final(self).data() == old(self).data(),
            final(self).table() == old(self).table(),
            r is Ok <==> spec_take32(old(self).rem()) is Some,
            r matches Ok(v) ==> (spec_take32(old(self).rem()) matches Some((u, n)) && v
                == spec_u32_as_i32(u) && n == 4 && final(self).pos() == old(self).pos() + 4),
            r matches Err(e) ==> *final(self) == *old(self) && e is ReadError,
    {
        if self.data.len() - self.pos >= 4 {
            let b0 = self.data[self.pos];
            let b1 = self.data[self.pos + 1];
            let b2 = self.data[self.pos + 2];
            let b3 = self.data[self.pos + 3];
            self.pos = self.pos + 4;
            let u: u32 = ((b0 as u32) << 24) | ((b1 as u32) << 16) | ((b2 as u32) << 8) | (
            b3 as u32);
            proof {
                assert(u == spec_val32(
                    old(self).rem()[0],
                    old(self).rem()[1],
                    old(self).rem()[2],
                    old(self).rem()[3],
                ));
            }
            Ok(u32_as_i32(u))
        } else {
            Err(ConversionError::ReadError("int".to_owned()))
        }
    }

    /// Reads an `i64`, big-endian, two's complement.
    pub fn read_long(&mut self) -> (r: Result<i64, ConversionError>)
        requires
            old(self).wf(),
        ensures
            final(self).wf(),
            final(self).data() == old(self).data(),
            final(self).table() == old(self).table(),
            r is Ok <==> spec_take64(old(self).rem()) is Some,
            r matches Ok(v) ==> (spec_take64(old(self).rem()) matches Some((u, n)) && v
                == spec_u64_as_i64(u) && n == 8 && final(self).pos() == old(self).pos() + 8),
            r matches Err(e) ==> *final(self) == *old(self) && e is ReadError,
    {
        if self.data.len() - self.pos >= 8 {
            let b0 = self.data[self.pos];
            let b1 = self.data[self.pos + 1];
            let b2 = self.data[self.pos + 2];
            let b3 = self.data[self.pos + 3];
            let b4 = self.data[self.pos + 4];
            let b5 = self.data[self.pos + 5];
            let b6 = self.data[self.pos + 6];
            let b7 = self.data[self.pos + 7];
            self.pos = self.pos + 8;
            let u: u64 = ((b0 as u64) << 56) | ((b1 as u64) << 48) | ((b2 as u64) << 40) | ((
            b3 as u64) << 32) | ((b4 as u64) << 24) | ((b5 as u64) << 16) | ((b6 as u64) << 8) | (
            b7 as u64);
            proof {
                assert(u == spec_val64(
                    old(self).rem()[0],
                    old(self).rem()[1],
                    old(self).rem()[2],
                    old(self).rem()[3],
                    old(self).rem()[4],
                    old(self).rem()[5],
                    old(self).rem()[6],
                    old(self).rem()[7],
                ));
            }
            Ok(u64_as_i64(u))
        } else {
            Err(ConversionError::ReadError("long".to_owned()))
        }
    }

    /// Reads the big-endian IEEE-754 bit pattern of an `f32`. The caller
    /// interprets the bits; this keeps floating point out of the engine.
    pub fn read_float(&mut self) -> (r: Result<u32, ConversionError>)
        requires
            old(self).wf(),
        ensures
            final(self).wf(),
            final(self).data() == old(self).data(),
            final(self).table() == old(self).table(),
            r is Ok <==> spec_take32(old(self).rem()) is Some,
            r matches Ok(v) ==> spec_take32(old(self).rem()) == Some((v, 4int)) && final(self).pos() == old(self).pos() + 4,
            r matches Err(e) ==> *final(self) == *old(self) && e is ReadError,
    {
        if self.data.len() - self.pos >= 4 {
            let b0 = self.data[self.pos];
            let b1 = self.data[self.pos + 1];
            let b2 = self.data[self.pos + 2];
            let b3 = self.data[self.pos + 3];
            self.pos = self.pos + 4;
            let u: u32 = ((b0 as u32) << 24) | ((b1 as u32) << 16) | ((b2 as u32) << 8) | (
            b3 as u32);
            proof {
                assert(u == spec_val32(
                    old(self).rem()[0],
                    old(self).rem()[1],
                    old(self).rem()[2],
                    old(self).rem()[3],
                ));
            }
            Ok(u)
        } else {
            Err(ConversionError::ReadError("float".to_owned()))
        }
    }

    /// Reads the big-endian IEEE-754 bit pattern of an `f64`.
    pub fn read_double(&mut self) -> (r: Result<u64, ConversionError>)
        requires
            old(self).wf(),
        ensures
            final(self).wf(),
            final(self).data() == old(self).data(),
            final(self).table() == old(self).table(),
            r is Ok <==> spec_take64(old(self).rem()) is Some,
            r matches Ok(v) ==> spec_take64(old(self).rem()) == Some((v, 8int)) && final(self).pos() == old(self).pos() + 8,
            r matches Err(e) ==> *final(self) == *old(self) && e is ReadError,
    {
        if self.data.len() - self.pos >= 8 {
            let b0 = self.data[self.pos];
            let b1 = self.data[self.pos + 1];
            let b2 = self.data[self.pos + 2];
            let b3 = self.data[self.pos + 3];
            let b4 = self.data[self.pos + 4];
            let b5 = self.data[self.pos + 5];
            let b6 = self.data[self.pos + 6];
            let b7 = self.data[self.pos + 7];
            self.pos = self.pos + 8;
            let u: u64 = ((b0 as u64) << 56) | ((b1 as u64) << 48) | ((b2 as u64) << 40) | ((
            b3 as u64) << 32) | ((b4 as u64) << 24) | ((b5 as u64) << 16) | ((b6 as u64) << 8) | (
            b7 as u64);
            proof {
                assert(u == spec_val64(
                    old(self).rem()[0],
                    old(self).rem()[1],
                    old(self).rem()[2],
                    old(self).rem()[3],
                    old(self).rem()[4],
                    old(self).rem()[5],
                    old(self).rem()[6],
                    old(self).rem()[7],
                ));
            }
            Ok(u)
        } else {
            Err(ConversionError::ReadError("double".to_owned()))
        }
    }

    /// Reads `length` raw bytes.
    pub fn read_bytes(&mut self, length: u16) -> (r: Result<Vec<u8>, ConversionError>)
        requires
            old(self).wf(),
        ensures
            final(self).wf(),
            final(self).data() == old(self).data(),
            final(self).table() == old(self).table(),
            r is Ok <==> old(self).rem().len() >= length,
            r matches Ok(b) ==> b@ == old(self).rem().take(length as int) && final(self).pos()
                == old(self).pos() + length,
            r matches Err(e) ==> *final(self) == *old(self) && e is ReadError,
    {
        if self.data.len() - self.pos >= length as usize {
            let mut out: Vec<u8> = Vec::new();
            let mut i: usize = 0;
            while i < length as usize
                invariant
                    self.data@.len() <= usize::MAX as int,
                    self.pos + length <= self.data@.len(),
                    0 <= i <= length,
                    out@ == self.data@.subrange(self.pos as int, self.pos + i),
                decreases length as int - i,
            {
                out.push(self.data[self.pos + i]);
                proof {
                    assert(out@ =~= self.data@.subrange(self.pos as int, self.pos + i + 1));
                }
                i += 1;
            }
            self.pos = self.pos + length as usize;
            proof {
                assert(out@ =~= old(self).rem().take(length as int));
            }
            Ok(out)
        } else {
            Err(ConversionError::ReadError("bytes".to_owned()))
        }
    }

    /// Reads a length-prefixed UTF-8 string: two big-endian length bytes,
    /// then that many bytes of UTF-8. Fails on a short read or bytes that
    /// are not UTF-8.
    pub fn read_utf(&mut self) -> (r: Result<String, ConversionError>)
        requires
            old(self).wf(),
        ensures
            final(self).wf(),
            final(self).data() == old(self).data(),
            final(self).table() == old(self).table(),
            r is Ok <==> (spec_take_utf(old(self).rem()) matches Some((p, _)) && valid_utf8(p)),
            r matches Ok(s) ==> (spec_take_utf(old(self).rem()) matches Some((p, n)) && s@
                == decode_utf8(p) && encode_utf8(s@) == p && final(self).pos() == old(self).pos()
                + n),
            r matches Err(e) ==> *final(self) == *old(self) && e is ReadError,
    {
        if self.data.len() - self.pos < 2 {
            return Err(ConversionError::ReadError("UTF string".to_owned()));
        }
        let b0 = self.data[self.pos];
        let b1 = self.data[self.pos + 1];
        let length: u16 = ((b0 as u16) << 8) | (b1 as u16);
        proof {
            assert(length == spec_val16(old(self).rem()[0], old(self).rem()[1]));
        }
        if self.data.len() - self.pos - 2 < length as usize {
            return Err(ConversionError::ReadError("UTF string".to_owned()));
        }
        let mut payload: Vec<u8> = Vec::new();
        let mut i: usize = 0;
        while i < length as usize
            invariant
                self.data@.len() <= usize::MAX as int,
                self.pos + 2 + length <= self.data@.len(),
                0 <= i <= length,
                payload@ == self.data@.subrange(self.pos + 2, self.pos + 2 + i),
            decreases length as int - i,
        {
            payload.push(self.data[self.pos + 2 + i]);
            proof {
                assert(payload@ =~= self.data@.subrange(self.pos + 2, self.pos + 2 + i + 1));
            }
            i += 1;
        }
        proof {
            assert(payload@ =~= old(self).rem().subrange(2, 2 + length as int));
        }
        match bytes_to_string(payload) {
            Some(s) => {
                self.pos = self.pos + 2 + length as usize;
                Ok(s)
            },
            None => Err(ConversionError::ReadError("UTF string (invalid UTF-8)".to_owned())),
        }
    }

    /// Reads an interned-string reference: an index into the table, or the
    /// new-string marker followed by a string that is appended to the table.
    /// Fails on a short read, invalid UTF-8, or an index at or past the end
    /// of the table (`InvalidInternedStringIndex`).
    pub fn read_interned_utf(&mut self) -> (r: Result<String, ConversionError>)
        requires
            old(self).wf(),
        ensures
            final(self).wf(),
            final(self).data() == old(self).data(),
            r is Ok <==> (spec_take_iutf(old(self).rem(), old(self).table()) matches Some(
                (sb, _, _),
            ) && valid_utf8(sb)),
            r matches Ok(s) ==> (spec_take_iutf(old(self).rem(), old(self).table()) matches Some(
                (sb, t2, n),
            ) && encode_utf8(s@) == sb && s@ == decode_utf8(sb) && final(self).table() == t2
                && final(self).pos() == old(self).pos() + n),
            r matches Err(e) ==> *final(self) == *old(self) && (e is ReadError
                || e is InvalidInternedStringIndex),
            r matches Err(e) ==> (e matches ConversionError::InvalidInternedStringIndex(ix) ==> (
            spec_take16(old(self).rem()) matches Some((v, _)) && v == ix && ix != 0xFFFF
                && old(self).table().len() <= ix as int)),
    {
        if self.data.len() - self.pos < 2 {
            return Err(ConversionError::ReadError("short".to_owned()));
        }
        let b0 = self.data[self.pos];
        let b1 = self.data[self.pos + 1];
        let index: u16 = ((b0 as u16) << 8) | (b1 as u16);
        proof {
            assert(index == spec_val16(old(self).rem()[0], old(self).rem()[1]));
        }
        if index == 0xFFFF {
            self.pos = self.pos + 2;
            let ghost mid = *self;
            match self.read_utf() {
                Ok(s) => {
                    self.interned_strings.push(s.clone());
                    proof {
                        assert(final(self).table() =~= old(self).table().push(encode_utf8(s@)));
                        assert(mid.rem() =~= old(self).rem().skip(2));
                    }
                    Ok(s)
                },
                Err(e) => {
                    self.pos = self.pos - 2;
                    proof {
                        assert(mid.rem() =~= old(self).rem().skip(2));
                        assert(*final(self) == *old(self));
                    }
                    Err(e)
                },
            }
        } else if (index as usize) < self.interned_strings.len() {
            let s = self.interned_strings[index as usize].clone();
            self.pos = self.pos + 2;
            proof {
                assert(encode_utf8(s@) == old(self).table()[index as int]);
            }
            Ok(s)
        } else {
            Err(ConversionError::InvalidInternedStringIndex(index))
        }
    }
}

} // verus!
