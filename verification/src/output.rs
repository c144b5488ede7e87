//! The writer side of the byte I/O primitives: big-endian fixed-width
//! writes, length-prefixed UTF-8 strings and interned-string references,
//! accumulated in an in-memory buffer together with the writer's half of the
//! document-local interning table.

use vstd::prelude::*;
use vstd::utf8::encode_utf8;
use crate::type_detection::bytes_eq;
use crate::wire::{
    spec_be16, spec_be32, spec_be64, spec_i32_as_u32, spec_i64_as_u64, spec_iutf_bytes,
    spec_iutf_ok, spec_iutf_table, spec_utf, table_index_of, table_wf, InternTable,
};
use crate::ConversionError;

verus! {

/// Appends every byte of `src` to `dst`.
pub(crate) fn push_all(dst: &mut Vec<u8>, src: &[u8])
    ensures
        final(dst)@ == old(dst)@ + src@,
{
    let mut i: usize = 0;
    while i < src.len()
        invariant
            0 <= i <= src@.len(),
            dst@ == old(dst)@ + src@.take(i as int),
        decreases src@.len() - i,
    {
        dst.push(src[i]);
        proof {
            assert(old(dst)@ + src@.take(i + 1) =~= (old(dst)@ + src@.take(i as int)).push(
                src@[i as int],
            ));
        }
        i += 1;
    }
    proof {
        assert(src@.take(src@.len() as int) =~= src@);
    }
}

/// The unsigned reinterpretation of an `i32`.
pub(crate) fn i32_as_u32(v: i32) -> (r: u32)
    ensures
        r == spec_i32_as_u32(v),
{
    if v >= 0 {
        v as u32
    } else {
        ((v as i64) + 0x1_0000_0000) as u32
    }
}

/// The unsigned reinterpretation of an `i64`.
pub(crate) fn i64_as_u64(v: i64) -> (r: u64)
    ensures
        r == spec_i64_as_u64(v),
{
    if v >= 0 {
        v as u64
    } else {
        ((v as i128) + 0x1_0000_0000_0000_0000) as u64
    }
}

/// A data sink that writes the ABX wire primitives into an in-memory buffer
/// and owns the writer's half of the string-interning table.
pub struct FastDataOutput {
    buf: Vec<u8>,
    interned_strings: Vec<String>,
}

impl FastDataOutput {
    /// The bytes written so far.
    pub closed spec fn out(&self) -> Seq<u8> {
        self.buf@
    }

    /// The interning table so far, as the byte strings it holds.
    pub closed spec fn table(&self) -> InternTable {
        Seq::new(self.interned_strings@.len(), |i: int| encode_utf8(self.interned_strings@[i]@))
    }

    /// Well-formedness: the table respects the format's bounds.
    pub open spec fn wf(&self) -> bool {
        table_wf(self.table())
    }

    /// A fresh sink: nothing written, nothing interned.
    pub fn new() -> (r: Self)
        ensures
            r.out() == Seq::<u8>::empty(),
            r.table() == Seq::<Seq<u8>>::empty(),
            r.wf(),
    {
        let r = FastDataOutput { buf: Vec::new(), interned_strings: Vec::new() };
        proof {
            assert(r.table() =~= Seq::<Seq<u8>>::empty());
        }
        r
    }

    /// Writes one byte.
    pub fn write_byte(&mut self, value: u8)
        ensures
            final(self).out() == old(self).out() + seq![value],
            final(self).table() == old(self).table(),
            final(self).wf() == old(self).wf(),
    {
        self.buf.push(value);
        proof {
            assert(final(self).out() =~= old(self).out() + seq![value]);
            assert(final(self).table() =~= old(self).table());
        }
    }

    /// Writes a `u16`, big-endian.
    pub fn write_short(&mut self, value: u16)
        ensures
            final(self).out() == old(self).out() + spec_be16(value),
            final(self).table() == old(self).table(),
            final(self).wf() == old(self).wf(),
    {
        self.buf.push((value >> 8) as u8);
        self.buf.push(value as u8);
        proof {
            assert(final(self).out() =~= old(self).out() + spec_be16(value));
            assert(final(self).table() =~= old(self).table());
        }
    }

    /// Writes an `i32`, big-endian, two's complement.
    pub fn write_int(&mut self, value: i32)
        ensures
            final(self).out() == old(self).out() + spec_be32(spec_i32_as_u32(value)),
            final(self).table() == old(self).table(),
            final(self).wf() == old(self).wf(),
    {
        let v = i32_as_u32(value);
        self.buf.push((v >> 24) as u8);
        self.buf.push((v >> 16) as u8);
        self.buf.push((v >> 8) as u8);
        self.buf.push(v as u8);
        proof {
            assert(final(self).out() =~= old(self).out() + spec_be32(v));
            assert(final(self).table() =~= old(self).table());
        }
    }

    /// Writes an `i64`, big-endian, two's complement.
    pub fn write_long(&mut self, value: i64)
        ensures
            final(self).out() == old(self).out() + spec_be64(spec_i64_as_u64(value)),
            final(self).table() == old(self).table(),
            final(self).wf() == old(self).wf(),
    {
        let v = i64_as_u64(value);
        self.buf.push((v >> 56) as u8);
        self.buf.push((v >> 48) as u8);
        self.buf.push((v >> 40) as u8);
        self.buf.push((v >> 32) as u8);
        self.buf.push((v >> 24) as u8);
        self.buf.push((v >> 16) as u8);
        self.buf.push((v >> 8) as u8);
        self.buf.push(v as u8);
        proof {
            assert(final(self).out() =~= old(self).out() + spec_be64(v));
            assert(final(self).table() =~= old(self).table());
        }
    }

    /// Writes the IEEE-754 bit pattern of an `f32`, big-endian. The caller
    /// supplies the bits; this keeps floating point out of the engine.
    pub fn write_float(&mut self, bits: u32)
        ensures
            final(self).out() == old(self).out() + spec_be32(bits),
            final(self).table() == old(self).table(),
            final(self).wf() == old(self).wf(),
    {
        self.buf.push((bits >> 24) as u8);
        self.buf.push((bits >> 16) as u8);
        self.buf.push((bits >> 8) as u8);
        self.buf.push(bits as u8);
        proof {
            assert(final(self).out() =~= old(self).out() + spec_be32(bits));
            assert(final(self).table() =~= old(self).table());
        }
    }

    /// Writes the IEEE-754 bit pattern of an `f64`, big-endian.
    pub fn write_double(&mut self, bits: u64)
        ensures
            final(self).out() == old(self).out() + spec_be64(bits),
            final(self).table() == old(self).table(),
            final(self).wf() == old(self).wf(),
    {
        self.buf.push((bits >> 56) as u8);
        self.buf.push((bits >> 48) as u8);
        self.buf.push((bits >> 40) as u8);
        self.buf.push((bits >> 32) as u8);
        self.buf.push((bits >> 24) as u8);
        self.buf.push((bits >> 16) as u8);
        self.buf.push((bits >> 8) as u8);
        self.buf.push(bits as u8);
        proof {
            assert(final(self).out() =~= old(self).out() + spec_be64(bits));
            assert(final(self).table() =~= old(self).table());
        }
    }

    /// Writes raw bytes with no framing.
    pub fn write_bytes(&mut self, data: &[u8])
        ensures
            final(self).out() == old(self).out() + data@,
            final(self).table() == old(self).table(),
            final(self).wf() == old(self).wf(),
    {
        push_all(&mut self.buf, data);
        proof {
            assert(final(self).table() =~= old(self).table());
        }
    }

    /// Writes a length-prefixed UTF-8 string. Fails with `StringTooLong`,
    /// and writes nothing, when the string's bytes exceed the u16 cap.
    pub fn write_utf(&mut self, s: &str) -> (r: Result<(), ConversionError>)
        ensures
            r is Ok <==> encode_utf8(s@).len() <= 65535,
            r is Ok ==> final(self).out() == old(self).out() + spec_utf(encode_utf8(s@)),
            r is Err ==> *final(self) == *old(self) && (r matches Err(e) ==> e matches
                ConversionError::StringTooLong(l, m) && l == encode_utf8(s@).len() && m == 65535),
            final(self).table() == old(self).table(),
            final(self).wf() == old(self).wf(),
    {
        let bytes = s.as_bytes();
        if bytes.len() > 65535 {
            return Err(ConversionError::StringTooLong(bytes.len(), 65535));
        }
        self.write_short(bytes.len() as u16);
        push_all(&mut self.buf, bytes);
        proof {
            assert(final(self).out() =~= old(self).out() + spec_utf(encode_utf8(s@)));
            assert(final(self).table() =~= old(self).table());
        }
        Ok(())
    }

    /// The index of `s` in the interning table, if it is there.
    fn find_interned(&self, s: &str) -> (r: Option<usize>)
        requires
            self.wf(),
        ensures
            match r {
                Some(i) => i < self.table().len() && self.table()[i as int] == encode_utf8(s@)
                    && table_index_of(self.table(), encode_utf8(s@)) == i as int,
                None => table_index_of(self.table(), encode_utf8(s@)) == -1,
            },
    {
        let ghost sb = encode_utf8(s@);
        let mut i: usize = 0;
        while i < self.interned_strings.len()
            invariant
                self.wf(),
                sb == encode_utf8(s@),
                0 <= i <= self.table().len(),
                forall|j: int| 0 <= j < i ==> self.table()[j] != sb,
            decreases self.table().len() - i,
        {
            if bytes_eq(self.interned_strings[i].as_str().as_bytes(), s.as_bytes()) {
                proof {
                    assert(self.table()[i as int] == sb);
                    assert(self.table().contains(sb));
                    let k = self.table().index_of(sb);
                    assert(0 <= k < self.table().len() && self.table()[k] == sb);
                    if k != i as int {
                        assert(self.table()[k] != self.table()[i as int]);
                    }
                }
                return Some(i);
            }
            i += 1;
        }
        proof {
            if self.table().contains(sb) {
                let k = self.table().index_of(sb);
                assert(self.table()[k] == sb);
            }
        }
        None
    }

    /// Decides, without writing anything, whether an interned-string
    /// reference to `s` can be emitted, and with which error it would fail.
    pub fn check_intern(&self, s: &str) -> (r: Result<(), ConversionError>)
        requires
            self.wf(),
        ensures
            r is Ok <==> spec_iutf_ok(self.table(), encode_utf8(s@)),
            r matches Err(e) ==> (if encode_utf8(s@).len() > 65535 {
                e matches ConversionError::StringTooLong(l, m) && l == encode_utf8(s@).len() && m
                    == 65535
            } else {
                e is ParseError
            }),
    {
        match self.find_interned(s) {
            Some(_) => Ok(()),
            None => {
                let bytes_len = s.as_bytes().len();
                if bytes_len > 65535 {
                    Err(ConversionError::StringTooLong(bytes_len, 65535))
                } else if self.interned_strings.len() >= 65534 {
                    Err(ConversionError::ParseError("interned string pool is full".to_owned()))
                } else {
                    Ok(())
                }
            },
        }
    }

    /// Decides, without writing anything, whether interned references to
    /// `a` and then `b` can both be emitted, and with which error the pair
    /// would fail.
    pub fn check_intern_two(&self, a: &str, b: &str) -> (r: Result<(), ConversionError>)
        requires
            self.wf(),
        ensures
            r is Ok <==> (spec_iutf_ok(self.table(), encode_utf8(a@)) && spec_iutf_ok(
                spec_iutf_table(self.table(), encode_utf8(a@)),
                encode_utf8(b@),
            )),
            r matches Err(e) ==> (e is StringTooLong || e is ParseError),
    {
        let ghost t0 = self.table();
        let ghost ab = encode_utf8(a@);
        let ghost bb = encode_utf8(b@);
        match self.check_intern(a) {
            Err(e) => Err(e),
            Ok(_) => {
                let ghost t1 = spec_iutf_table(t0, ab);
                match self.find_interned(b) {
                    Some(_) => {
                        proof {
                            assert(t0.contains(bb));
                            if table_index_of(t0, ab) >= 0 {
                                assert(t1 == t0);
                            } else {
                                assert(t1 == t0.push(ab));
                                crate::wire::lemma_table_grows(t0, t1, bb);
                            }
                            assert(table_index_of(t1, bb) >= 0);
                        }
                        Ok(())
                    },
                    None => {
                        if bytes_eq(b.as_bytes(), a.as_bytes()) {
                            proof {
                                assert(bb == ab);
                                if table_index_of(t0, ab) >= 0 {
                                    assert(t1 == t0 && t0.contains(ab));
                                } else {
                                    assert(t1 == t0.push(ab));
                                    assert(t1[t1.len() - 1] == ab);
                                    assert(t1.contains(bb));
                                }
                                assert(table_index_of(t1, bb) >= 0);
                            }
                            Ok(())
                        } else if b.as_bytes().len() > 65535 {
                            proof {
                                assert(!t0.contains(bb));
                                if table_index_of(t1, bb) >= 0 {
                                    assert(t1.contains(bb));
                                    assert(table_index_of(t0, ab) < 0);
                                    assert(t1 == t0.push(ab));
                                    let j = table_index_of(t1, bb);
                                    assert(t1[j] == bb);
                                    assert(j == t1.len() - 1);
                                    assert(bb == ab);
                                }
                            }
                            Err(ConversionError::StringTooLong(b.as_bytes().len(), 65535))
                        } else {
                            let a_new = match self.find_interned(a) {
                                Some(_) => false,
                                None => true,
                            };
                            let future_len: usize = if a_new {
                                self.interned_strings.len() + 1
                            } else {
                                self.interned_strings.len()
                            };
                            proof {
                                assert(t1.len() == future_len);
                                assert(!t0.contains(bb));
                                if table_index_of(t1, bb) >= 0 {
                                    assert(t1.contains(bb));
                                    assert(a_new);
                                    let j = table_index_of(t1, bb);
                                    assert(t1[j] == bb);
                                    assert(j == t1.len() - 1);
                                    assert(bb == ab);
                                }
                                assert(table_index_of(t1, bb) < 0);
                            }
                            if future_len >= 65534 {
                                Err(
                                    ConversionError::ParseError(
                                        "interned string pool is full".to_owned(),
                                    ),
                                )
                            } else {
                                Ok(())
                            }
                        }
                    },
                }
            },
        }
    }

    /// Writes an interned-string reference: the string's index when it has
    /// been seen before, else the new-string marker, the string itself, and
    /// a new table entry at the next free index (first-write-wins). Fails,
    /// writing nothing, when a new string exceeds the u16 length cap
    /// (`StringTooLong`) or the table is at capacity (`ParseError`).
    pub fn write_interned_utf(&mut self, s: &str) -> (r: Result<(), ConversionError>)
        requires
            old(self).wf(),
        ensures
            final(self).wf(),
            r is Ok <==> spec_iutf_ok(old(self).table(), encode_utf8(s@)),
            r is Ok ==> final(self).out() == old(self).out() + spec_iutf_bytes(
                old(self).table(),
                encode_utf8(s@),
            ) && final(self).table() == spec_iutf_table(old(self).table(), encode_utf8(s@)),
            r is Err ==> *final(self) == *old(self),
            r matches Err(e) ==> (if encode_utf8(s@).len() > 65535 {
                e matches ConversionError::StringTooLong(l, m) && l == encode_utf8(s@).len() && m
                    == 65535
            } else {
                e is ParseError
            }),
    {
        let ghost sb = encode_utf8(s@);
        match self.find_interned(s) {
            Some(index) => {
                self.write_short(index as u16);
                proof {
                    assert(spec_iutf_bytes(old(self).table(), sb) == spec_be16(index as u16));
                }
                Ok(())
            },
            None => {
                let bytes_len = s.as_bytes().len();
                if bytes_len > 65535 {
                    return Err(ConversionError::StringTooLong(bytes_len, 65535));
                }
                if self.interned_strings.len() >= 65534 {
                    return Err(
                        ConversionError::ParseError("interned string pool is full".to_owned()),
                    );
                }
                self.write_short(0xFFFF);
                let res = self.write_utf(s);
                proof {
                    assert(res is Ok);
                }
                self.interned_strings.push(s.to_owned());
                proof {
                    let ot = old(self).table();
                    let nt = ot.push(sb);
                    assert(final(self).table() =~= nt);
                    assert(final(self).out() =~= old(self).out() + spec_iutf_bytes(ot, sb));
                    assert(!ot.contains(sb));
                    assert forall|i: int, j: int|
                        0 <= i < j < nt.len() implies #[trigger] nt[i] != #[trigger] nt[j] by {
                        if j < ot.len() {
                            assert(ot[i] != ot[j]);
                        } else {
                            assert(nt[j] == sb);
                            assert(ot[i] != sb);
                        }
                    }
                }
                match res {
                    Ok(_) => Ok(()),
                    Err(e) => Err(e),
                }
            },
        }
    }

    /// Flushes the sink. The buffer is in memory, so there is nothing to do.
    pub fn flush(&mut self)
        ensures
            *final(self) == *old(self),
    {
    }

    /// Hands over the written bytes.
    pub fn into_vec(self) -> (r: Vec<u8>)
        ensures
            r@ == self.out(),
    {
        self.buf
    }
}

} // verus!
