//! The ABX serializer: a streaming state machine that turns document
//! building calls (`start_tag`, typed `attribute_*` calls, `text`, ...)
//! into the token byte stream.
//!
//! Every method is atomic: it either appends exactly the bytes of one token
//! and succeeds, or it fails, changes nothing, and reports why. The element
//! stack validates `end_tag` calls, and `end_document` refuses to close a
//! document while elements are open, so any accepted call sequence is
//! properly nested.

use vstd::prelude::*;
use vstd::utf8::encode_utf8;
use crate::output::FastDataOutput;
use crate::type_detection::bytes_eq;
use crate::wire::{
    spec_be16, spec_be32, spec_be64, spec_i32_as_u32, spec_i64_as_u64, spec_iutf_bytes,
    spec_iutf_ok, spec_iutf_table, spec_utf, table_index_of, InternTable,
};
use crate::{
    ConversionError, ATTRIBUTE, CDSECT, COMMENT, DOCDECL, END_DOCUMENT, END_TAG, ENTITY_REF,
    IGNORABLE_WHITESPACE, PROCESSING_INSTRUCTION, START_DOCUMENT, START_TAG, TEXT,
    TYPE_BOOLEAN_FALSE, TYPE_BOOLEAN_TRUE, TYPE_BYTES_BASE64, TYPE_BYTES_HEX, TYPE_DOUBLE,
    TYPE_FLOAT, TYPE_INT, TYPE_INT_HEX, TYPE_LONG, TYPE_LONG_HEX, TYPE_NULL, TYPE_STRING,
    TYPE_STRING_INTERNED,
};

verus! {

/// The payload text of a processing-instruction token: the target, then the
/// data separated by one space when there is any.
pub open spec fn spec_pi_text(target: Seq<char>, data: Option<Seq<char>>) -> Seq<char> {
    match data {
        None => target,
        Some(d) => if d.len() == 0 {
            target
        } else {
            target + " "@ + d
        },
    }
}

/// A streaming serializer from document-building calls to ABX bytes.
pub struct BinaryXmlSerializer {
    output: FastDataOutput,
    tag_names: Vec<String>,
    preserve_whitespace: bool,
}

impl BinaryXmlSerializer {
    /// The bytes emitted so far.
    pub closed spec fn out(&self) -> Seq<u8> {
        self.output.out()
    }

    /// The writer's interning table.
    pub closed spec fn table(&self) -> InternTable {
        self.output.table()
    }

    /// The names of the currently open elements, outermost first.
    pub closed spec fn open_tags(&self) -> Seq<Seq<char>> {
        Seq::new(self.tag_names@.len(), |i: int| self.tag_names@[i]@)
    }

    /// Whether whitespace-only text is kept as IGNORABLE_WHITESPACE tokens.
    pub closed spec fn preserve(&self) -> bool {
        self.preserve_whitespace
    }

    /// The writer's interning table respects the format's bounds.
    pub closed spec fn table_ok(&self) -> bool {
        self.output.wf()
    }

    /// Well-formedness: the output begins with the magic header, the table
    /// respects the format's bounds, and every open element's name has been
    /// interned (so a matching `end_tag` can always be written).
    pub open spec fn wf(&self) -> bool {
        &&& self.table_ok()
        &&& self.out().len() >= 4
        &&& self.out().subrange(0, 4) == crate::spec_magic()
        &&& forall|i: int|
            0 <= i < self.open_tags().len() ==> self.table().contains(
                encode_utf8(#[trigger] self.open_tags()[i]),
            )
    }

    /// A serializer that keeps whitespace-only text.
    pub fn new() -> (r: Result<Self, ConversionError>)
        ensures
            r matches Ok(s) && s.wf() && s.out() == crate::spec_magic() && s.table()
                == Seq::<Seq<u8>>::empty() && s.open_tags() == Seq::<Seq<char>>::empty()
                && s.preserve() == true,
    {
        Self::with_options(true)
    }

    /// A serializer with an explicit whitespace policy. Emits the magic
    /// header at construction, before any token.
    pub fn with_options(preserve_whitespace: bool) -> (r: Result<Self, ConversionError>)
        ensures
            r matches Ok(s) && s.wf() && s.out() == crate::spec_magic() && s.table()
                == Seq::<Seq<u8>>::empty() && s.open_tags() == Seq::<Seq<char>>::empty()
                && s.preserve() == preserve_whitespace,
    {
        let mut output = FastDataOutput::new();
        output.write_byte(0x41);
        output.write_byte(0x42);
        output.write_byte(0x58);
        output.write_byte(0x00);
        let r = BinaryXmlSerializer { output, tag_names: Vec::new(), preserve_whitespace };
        proof {
            assert(r.out() =~= crate::spec_magic());
            assert(r.out().subrange(0, 4) =~= crate::spec_magic());
            assert(r.open_tags() =~= Seq::<Seq<char>>::empty());
        }
        Ok(r)
    }

    /// Whether this serializer keeps whitespace-only text.
    pub fn preserves_whitespace(&self) -> (r: bool)
        ensures
            r == self.preserve(),
    {
        self.preserve_whitespace
    }

    /// Writes a token byte, an interned reference to `name`, or nothing on
    /// failure.
    fn write_token_interned(&mut self, token: u8, name: &str) -> (r: Result<(), ConversionError>)
        requires
            old(self).wf(),
        ensures
            final(self).wf(),
            final(self).open_tags() == old(self).open_tags(),
            final(self).preserve() == old(self).preserve(),
            r is Ok <==> spec_iutf_ok(old(self).table(), encode_utf8(name@)),
            r is Ok ==> final(self).out() == old(self).out() + seq![token] + spec_iutf_bytes(
                old(self).table(),
                encode_utf8(name@),
            ) && final(self).table() == spec_iutf_table(old(self).table(), encode_utf8(name@)),
            r is Err ==> *final(self) == *old(self),
            r matches Err(e) ==> (if encode_utf8(name@).len() > 65535 {
                e matches ConversionError::StringTooLong(l, m) && l == encode_utf8(name@).len()
                    && m == 65535
            } else {
                e is ParseError
            }),
    {
        match self.output.check_intern(name) {
            Ok(_) => {
                self.output.write_byte(token);
                let r = self.output.write_interned_utf(name);
                proof {
                    assert(r is Ok);
                    assert(self.out() =~= old(self).out() + seq![token] + spec_iutf_bytes(
                        old(self).table(),
                        encode_utf8(name@),
                    ));
                    assert(self.out().subrange(0, 4) =~= old(self).out().subrange(0, 4));
                    assert(self.open_tags() =~= old(self).open_tags());
                    let nt = self.table();
                    assert forall|i: int| 0 <= i < self.open_tags().len() implies nt.contains(
                        encode_utf8(#[trigger] self.open_tags()[i]),
                    ) by {
                        assert(old(self).table().contains(
                            encode_utf8(old(self).open_tags()[i]),
                        ));
                        crate::wire::lemma_table_grows(
                            old(self).table(),
                            nt,
                            encode_utf8(old(self).open_tags()[i]),
                        );
                    }
                }
                Ok(())
            },
            Err(e) => Err(e),
        }
    }

    /// Writes a token byte carrying TYPE_STRING and a length-prefixed text
    /// payload, or nothing on failure.
    fn write_token_text(&mut self, command: u8, text: &str) -> (r: Result<(), ConversionError>)
        requires
            old(self).wf(),
            command < 16,
        ensures
            final(self).wf(),
            final(self).open_tags() == old(self).open_tags(),
            final(self).preserve() == old(self).preserve(),
            final(self).table() == old(self).table(),
            r is Ok <==> encode_utf8(text@).len() <= 65535,
            r is Ok ==> final(self).out() == old(self).out() + seq![(command + TYPE_STRING) as u8]
                + spec_utf(encode_utf8(text@)),
            r is Err ==> *final(self) == *old(self),
            r matches Err(e) ==> e matches ConversionError::StringTooLong(l, m) && l == encode_utf8(
                text@,
            ).len() && m == 65535,
    {
        if text.as_bytes().len() > 65535 {
            return Err(ConversionError::StringTooLong(text.as_bytes().len(), 65535));
        }
        self.output.write_byte(command + TYPE_STRING);
        let r = self.output.write_utf(text);
        proof {
            assert(r is Ok);
            assert(self.out() =~= old(self).out() + seq![(command + TYPE_STRING) as u8]
                + spec_utf(encode_utf8(text@)));
            assert(self.out().subrange(0, 4) =~= old(self).out().subrange(0, 4));
            assert(self.open_tags() =~= old(self).open_tags());
        }
        Ok(())
    }

    /// Writes a typed attribute head (token byte and interned name) and, on
    /// success, hands control back for the payload; or nothing on failure.
    fn write_attr_head(&mut self, type_info: u8, name: &str) -> (r: Result<(), ConversionError>)
        requires
            old(self).wf(),
            type_info <= 0xE0,
        ensures
            final(self).wf(),
            final(self).open_tags() == old(self).open_tags(),
            final(self).preserve() == old(self).preserve(),
            r is Ok <==> spec_iutf_ok(old(self).table(), encode_utf8(name@)),
            r is Ok ==> final(self).out() == old(self).out() + seq![(ATTRIBUTE + type_info) as u8]
                + spec_iutf_bytes(old(self).table(), encode_utf8(name@)) && final(self).table()
                == spec_iutf_table(old(self).table(), encode_utf8(name@)),
            r is Err ==> *final(self) == *old(self),
            r matches Err(e) ==> (e is StringTooLong || e is ParseError),
    {
        self.write_token_interned(ATTRIBUTE + type_info, name)
    }

    /// Opens the document: emits `START_DOCUMENT|NULL`.
    pub fn start_document(&mut self) -> (r: Result<(), ConversionError>)
        requires
            old(self).wf(),
        ensures
            final(self).wf(),
            r is Ok,
            final(self).out() == old(self).out() + seq![(START_DOCUMENT + TYPE_NULL) as u8],
            final(self).table() == old(self).table(),
            final(self).open_tags() == old(self).open_tags(),
            final(self).preserve() == old(self).preserve(),
    {
        self.output.write_byte(START_DOCUMENT + TYPE_NULL);
        proof {
            assert(self.out() =~= old(self).out() + seq![(START_DOCUMENT + TYPE_NULL) as u8]);
            assert(self.out().subrange(0, 4) =~= old(self).out().subrange(0, 4));
            assert(self.open_tags() =~= old(self).open_tags());
        }
        Ok(())
    }

    /// Closes the document: emits `END_DOCUMENT|NULL` and flushes. Fails
    /// with `TagMismatch`, emitting nothing, while elements are still open.
    pub fn end_document(&mut self) -> (r: Result<(), ConversionError>)
        requires
            old(self).wf(),
        ensures
            final(self).wf(),
            r is Ok <==> old(self).open_tags().len() == 0,
            r is Ok ==> final(self).out() == old(self).out() + seq![(END_DOCUMENT
                + TYPE_NULL) as u8],
            r is Err ==> *final(self) == *old(self),
            r matches Err(e) ==> e is TagMismatch,
            final(self).table() == old(self).table(),
            final(self).open_tags() == old(self).open_tags(),
            final(self).preserve() == old(self).preserve(),
    {
        if self.tag_names.len() != 0 {
            proof {
                assert(old(self).open_tags().len() == self.tag_names@.len());
            }
            return Err(ConversionError::TagMismatch);
        }
        self.output.write_byte(END_DOCUMENT + TYPE_NULL);
        self.output.flush();
        proof {
            assert(self.out() =~= old(self).out() + seq![(END_DOCUMENT + TYPE_NULL) as u8]);
            assert(self.out().subrange(0, 4) =~= old(self).out().subrange(0, 4));
            assert(self.open_tags() =~= old(self).open_tags());
        }
        Ok(())
    }

    /// Opens an element: emits `START_TAG|STRING_INTERNED` with the interned
    /// name and pushes the name on the element stack.
    pub fn start_tag(&mut self, name: &str) -> (r: Result<(), ConversionError>)
        requires
            old(self).wf(),
        ensures
            final(self).wf(),
            final(self).preserve() == old(self).preserve(),
            r is Ok <==> spec_iutf_ok(old(self).table(), encode_utf8(name@)),
            r is Ok ==> final(self).out() == old(self).out() + seq![(START_TAG
                + TYPE_STRING_INTERNED) as u8] + spec_iutf_bytes(
                old(self).table(),
                encode_utf8(name@),
            ) && final(self).table() == spec_iutf_table(old(self).table(), encode_utf8(name@))
                && final(self).open_tags() == old(self).open_tags().push(name@),
            r is Err ==> *final(self) == *old(self),
            r matches Err(e) ==> (e is StringTooLong || e is ParseError),
    {
        let r = self.write_token_interned(START_TAG + TYPE_STRING_INTERNED, name);
        match r {
            Ok(_) => {
                self.tag_names.push(name.to_owned());
                proof {
                    assert(self.open_tags() =~= old(self).open_tags().push(name@));
                    let nt = self.table();
                    assert(nt.contains(encode_utf8(name@))) by {
                        if table_index_of(old(self).table(), encode_utf8(name@)) >= 0 {
                            assert(old(self).table().contains(encode_utf8(name@)));
                            assert(nt == old(self).table());
                        } else {
                            assert(nt == old(self).table().push(encode_utf8(name@)));
                            assert(nt[nt.len() - 1] == encode_utf8(name@));
                        }
                    }
                    let ftab = self.table();
                    let fopen = self.open_tags();
                    assert forall|i: int| 0 <= i < fopen.len() implies ftab.contains(
                        encode_utf8(#[trigger] fopen[i]),
                    ) by {
                        if i < old(self).open_tags().len() {
                            assert(old(self).table().contains(
                                encode_utf8(old(self).open_tags()[i]),
                            ));
                            crate::wire::lemma_table_grows(
                                old(self).table(),
                                ftab,
                                encode_utf8(old(self).open_tags()[i]),
                            );
                        } else {
                            assert(fopen[i] == name@);
                        }
                    }
                }
                Ok(())
            },
            Err(e) => Err(e),
        }
    }

    /// Closes the innermost open element: checks that `name` matches the
    /// top of the element stack, pops it, and emits
    /// `END_TAG|STRING_INTERNED` with the interned name. Fails with
    /// `TagMismatch`, emitting nothing, when no element is open or the name
    /// does not match.
    pub fn end_tag(&mut self, name: &str) -> (r: Result<(), ConversionError>)
        requires
            old(self).wf(),
        ensures
            final(self).wf(),
            final(self).preserve() == old(self).preserve(),
            r is Ok <==> old(self).open_tags().len() > 0 && old(self).open_tags().last() == name@,
            r is Ok ==> final(self).out() == old(self).out() + seq![(END_TAG
                + TYPE_STRING_INTERNED) as u8] + spec_iutf_bytes(
                old(self).table(),
                encode_utf8(name@),
            ) && final(self).table() == old(self).table() && final(self).open_tags() == old(
                self,
            ).open_tags().drop_last(),
            r is Err ==> *final(self) == *old(self),
            r matches Err(e) ==> e is TagMismatch,
    {
        if self.tag_names.len() == 0 {
            proof {
                assert(old(self).open_tags().len() == 0);
            }
            return Err(ConversionError::TagMismatch);
        }
        let top_matches = bytes_eq(
            self.tag_names[self.tag_names.len() - 1].as_str().as_bytes(),
            name.as_bytes(),
        );
        proof {
            broadcast use vstd::utf8::group_utf8_lib;

            let top = old(self).open_tags().last();
            if encode_utf8(top) == encode_utf8(name@) {
                assert(vstd::utf8::decode_utf8(encode_utf8(top)) == vstd::utf8::decode_utf8(
                    encode_utf8(name@),
                ));
                assert(top == name@);
            }
        }
        if !top_matches {
            return Err(ConversionError::TagMismatch);
        }
        proof {
            assert(old(self).table().contains(encode_utf8(old(self).open_tags().last())));
            assert(table_index_of(old(self).table(), encode_utf8(name@)) >= 0);
        }
        let r = self.write_token_interned(END_TAG + TYPE_STRING_INTERNED, name);
        match r {
            Ok(_) => {
                let _ = self.tag_names.pop();
                proof {
                    assert(self.open_tags() =~= old(self).open_tags().drop_last());
                    let ftab = self.table();
                    let fopen = self.open_tags();
                    assert forall|i: int| 0 <= i < fopen.len() implies ftab.contains(
                        encode_utf8(#[trigger] fopen[i]),
                    ) by {
                        assert(fopen[i] == old(self).open_tags()[i]);
                    }
                }
                Ok(())
            },
            Err(e) => Err(e),
        }
    }

    /// Adds a string attribute: `ATTRIBUTE|STRING`, the interned name, and
    /// the length-prefixed value.
    pub fn attribute(&mut self, name: &str, value: &str) -> (r: Result<(), ConversionError>)
        requires
            old(self).wf(),
        ensures
            final(self).wf(),
            final(self).open_tags() == old(self).open_tags(),
            final(self).preserve() == old(self).preserve(),
            r is Ok <==> spec_iutf_ok(old(self).table(), encode_utf8(name@)) && encode_utf8(
                value@,
            ).len() <= 65535,
            r is Ok ==> final(self).out() == old(self).out() + seq![(ATTRIBUTE
                + TYPE_STRING) as u8] + spec_iutf_bytes(old(self).table(), encode_utf8(name@))
                + spec_utf(encode_utf8(value@)) && final(self).table() == spec_iutf_table(
                old(self).table(),
                encode_utf8(name@),
            ),
            r is Err ==> *final(self) == *old(self),
            r matches Err(e) ==> (e is StringTooLong || e is ParseError),
            r matches Err(e) ==> (encode_utf8(value@).len() > 65535 ==> (e matches
                ConversionError::StringTooLong(l, m) && l == encode_utf8(value@).len() && m
                == 65535)),
    {
        if value.as_bytes().len() > 65535 {
            return Err(ConversionError::StringTooLong(value.as_bytes().len(), 65535));
        }
        let r = self.write_attr_head(TYPE_STRING, name);
        match r {
            Ok(_) => {
                let ghost mid = *self;
                let r2 = self.output.write_utf(value);
                proof {
                    assert(r2 is Ok);
                    assert(self.out() =~= old(self).out() + seq![(ATTRIBUTE + TYPE_STRING) as u8]
                        + spec_iutf_bytes(old(self).table(), encode_utf8(name@)) + spec_utf(
                        encode_utf8(value@),
                    ));
                    lemma_wf_after_payload(&mid, self);
                }
                Ok(())
            },
            Err(e) => Err(e),
        }
    }

    /// Adds a string attribute with an interned value:
    /// `ATTRIBUTE|STRING_INTERNED`, the interned name, the interned value.
    pub fn attribute_interned(&mut self, name: &str, value: &str) -> (r: Result<
        (),
        ConversionError,
    >)
        requires
            old(self).wf(),
        ensures
            final(self).wf(),
            final(self).open_tags() == old(self).open_tags(),
            final(self).preserve() == old(self).preserve(),
            r is Ok <==> spec_iutf_ok(old(self).table(), encode_utf8(name@)) && spec_iutf_ok(
                spec_iutf_table(old(self).table(), encode_utf8(name@)),
                encode_utf8(value@),
            ),
            r is Ok ==> final(self).out() == old(self).out() + seq![(ATTRIBUTE
                + TYPE_STRING_INTERNED) as u8] + spec_iutf_bytes(
                old(self).table(),
                encode_utf8(name@),
            ) + spec_iutf_bytes(
                spec_iutf_table(old(self).table(), encode_utf8(name@)),
                encode_utf8(value@),
            ) && final(self).table() == spec_iutf_table(
                spec_iutf_table(old(self).table(), encode_utf8(name@)),
                encode_utf8(value@),
            ),
            r is Err ==> *final(self) == *old(self),
            r matches Err(e) ==> (e is StringTooLong || e is ParseError),
    {
        let pair = self.output.check_intern_two(name, value);
        match pair {
            Err(e) => Err(e),
            Ok(_) => {
                let r = self.write_attr_head(TYPE_STRING_INTERNED, name);
                proof {
                    assert(r is Ok);
                }
                let ghost mid = *self;
                let r2 = self.output.write_interned_utf(value);
                proof {
                    assert(r2 is Ok);
                    assert(self.out() =~= old(self).out() + seq![(ATTRIBUTE
                        + TYPE_STRING_INTERNED) as u8] + spec_iutf_bytes(
                        old(self).table(),
                        encode_utf8(name@),
                    ) + spec_iutf_bytes(
                        spec_iutf_table(old(self).table(), encode_utf8(name@)),
                        encode_utf8(value@),
                    ));
                    lemma_wf_after_payload(&mid, self);
                }
                Ok(())
            },
        }
    }

    /// Adds a byte-array attribute rendered as hex on the XML side:
    /// `ATTRIBUTE|BYTES_HEX`, the interned name, a length, the raw bytes.
    pub fn attribute_bytes_hex(&mut self, name: &str, value: &[u8]) -> (r: Result<
        (),
        ConversionError,
    >)
        requires
            old(self).wf(),
        ensures
            final(self).wf(),
            final(self).open_tags() == old(self).open_tags(),
            final(self).preserve() == old(self).preserve(),
            r is Ok <==> spec_iutf_ok(old(self).table(), encode_utf8(name@)) && value@.len()
                <= 65535,
            r is Ok ==> final(self).out() == old(self).out() + seq![(ATTRIBUTE
                + TYPE_BYTES_HEX) as u8] + spec_iutf_bytes(old(self).table(), encode_utf8(name@))
                + spec_be16(value@.len() as u16) + value@ && final(self).table()
                == spec_iutf_table(old(self).table(), encode_utf8(name@)),
            r is Err ==> *final(self) == *old(self),
            r matches Err(e) ==> (e is StringTooLong || e is ParseError
                || e is BinaryDataTooLong),
            r matches Err(e) ==> (value@.len() > 65535 ==> (e matches
                ConversionError::BinaryDataTooLong(l, m) && l == value@.len() && m == 65535)),
    {
        if value.len() > 65535 {
            return Err(ConversionError::BinaryDataTooLong(value.len(), 65535));
        }
        let r = self.write_attr_head(TYPE_BYTES_HEX, name);
        match r {
            Ok(_) => {
                let ghost mid = *self;
                self.output.write_short(value.len() as u16);
                self.output.write_bytes(value);
                proof {
                    assert(self.out() =~= old(self).out() + seq![(ATTRIBUTE
                        + TYPE_BYTES_HEX) as u8] + spec_iutf_bytes(
                        old(self).table(),
                        encode_utf8(name@),
                    ) + spec_be16(value@.len() as u16) + value@);
                    lemma_wf_after_payload(&mid, self);
                }
                Ok(())
            },
            Err(e) => Err(e),
        }
    }

    /// Adds a byte-array attribute rendered as base64 on the XML side:
    /// `ATTRIBUTE|BYTES_BASE64`, the interned name, a length, the raw bytes.
    pub fn attribute_bytes_base64(&mut self, name: &str, value: &[u8]) -> (r: Result<
        (),
        ConversionError,
    >)
        requires
            old(self).wf(),
        ensures
            final(self).wf(),
            final(self).open_tags() == old(self).open_tags(),
            final(self).preserve() == old(self).preserve(),
            r is Ok <==> spec_iutf_ok(old(self).table(), encode_utf8(name@)) && value@.len()
                <= 65535,
            r is Ok ==> final(self).out() == old(self).out() + seq![(ATTRIBUTE
                + TYPE_BYTES_BASE64) as u8] + spec_iutf_bytes(
                old(self).table(),
                encode_utf8(name@),
            ) + spec_be16(value@.len() as u16) + value@ && final(self).table() == spec_iutf_table(
                old(self).table(),
                encode_utf8(name@),
            ),
            r is Err ==> *final(self) == *old(self),
            r matches Err(e) ==> (e is StringTooLong || e is ParseError
                || e is BinaryDataTooLong),
            r matches Err(e) ==> (value@.len() > 65535 ==> (e matches
                ConversionError::BinaryDataTooLong(l, m) && l == value@.len() && m == 65535)),
    {
        if value.len() > 65535 {
            return Err(ConversionError::BinaryDataTooLong(value.len(), 65535));
        }
        let r = self.write_attr_head(TYPE_BYTES_BASE64, name);
        match r {
            Ok(_) => {
                let ghost mid = *self;
                self.output.write_short(value.len() as u16);
                self.output.write_bytes(value);
                proof {
                    assert(self.out() =~= old(self).out() + seq![(ATTRIBUTE
                        + TYPE_BYTES_BASE64) as u8] + spec_iutf_bytes(
                        old(self).table(),
                        encode_utf8(name@),
                    ) + spec_be16(value@.len() as u16) + value@);
                    lemma_wf_after_payload(&mid, self);
                }
                Ok(())
            },
            Err(e) => Err(e),
        }
    }

    /// Adds a 32-bit integer attribute (decimal on the XML side).
    pub fn attribute_int(&mut self, name: &str, value: i32) -> (r: Result<(), ConversionError>)
        requires
            old(self).wf(),
        ensures
            final(self).wf(),
            final(self).open_tags() == old(self).open_tags(),
            final(self).preserve() == old(self).preserve(),
            r is Ok <==> spec_iutf_ok(old(self).table(), encode_utf8(name@)),
            r is Ok ==> final(self).out() == old(self).out() + seq![(ATTRIBUTE + TYPE_INT) as u8]
                + spec_iutf_bytes(old(self).table(), encode_utf8(name@)) + spec_be32(
                spec_i32_as_u32(value),
            ) && final(self).table() == spec_iutf_table(old(self).table(), encode_utf8(name@)),
            r is Err ==> *final(self) == *old(self),
            r matches Err(e) ==> (e is StringTooLong || e is ParseError),
    {
        let r = self.write_attr_head(TYPE_INT, name);
        match r {
            Ok(_) => {
                let ghost mid = *self;
                self.output.write_int(value);
                proof {
                    assert(self.out() =~= old(self).out() + seq![(ATTRIBUTE + TYPE_INT) as u8]
                        + spec_iutf_bytes(old(self).table(), encode_utf8(name@)) + spec_be32(
                        spec_i32_as_u32(value),
                    ));
                    lemma_wf_after_payload(&mid, self);
                }
                Ok(())
            },
            Err(e) => Err(e),
        }
    }

    /// Adds a 32-bit integer attribute (lowercase hex on the XML side).
    pub fn attribute_int_hex(&mut self, name: &str, value: i32) -> (r: Result<
        (),
        ConversionError,
    >)
        requires
            old(self).wf(),
        ensures
            final(self).wf(),
            final(self).open_tags() == old(self).open_tags(),
            final(self).preserve() == old(self).preserve(),
            r is Ok <==> spec_iutf_ok(old(self).table(), encode_utf8(name@)),
            r is Ok ==> final(self).out() == old(self).out() + seq![(ATTRIBUTE
                + TYPE_INT_HEX) as u8] + spec_iutf_bytes(old(self).table(), encode_utf8(name@))
                + spec_be32(spec_i32_as_u32(value)) && final(self).table() == spec_iutf_table(
                old(self).table(),
                encode_utf8(name@),
            ),
            r is Err ==> *final(self) == *old(self),
            r matches Err(e) ==> (e is StringTooLong || e is ParseError),
    {
        let r = self.write_attr_head(TYPE_INT_HEX, name);
        match r {
            Ok(_) => {
                let ghost mid = *self;
                self.output.write_int(value);
                proof {
                    assert(self.out() =~= old(self).out() + seq![(ATTRIBUTE + TYPE_INT_HEX) as u8]
                        + spec_iutf_bytes(old(self).table(), encode_utf8(name@)) + spec_be32(
                        spec_i32_as_u32(value),
                    ));
                    lemma_wf_after_payload(&mid, self);
                }
                Ok(())
            },
            Err(e) => Err(e),
        }
    }

    /// Adds a 64-bit integer attribute (decimal on the XML side).
    pub fn attribute_long(&mut self, name: &str, value: i64) -> (r: Result<(), ConversionError>)
        requires
            old(self).wf(),
        ensures
            final(self).wf(),
            final(self).open_tags() == old(self).open_tags(),
            final(self).preserve() == old(self).preserve(),
            r is Ok <==> spec_iutf_ok(old(self).table(), encode_utf8(name@)),
            r is Ok ==> final(self).out() == old(self).out() + seq![(ATTRIBUTE + TYPE_LONG) as u8]
                + spec_iutf_bytes(old(self).table(), encode_utf8(name@)) + spec_be64(
                spec_i64_as_u64(value),
            ) && final(self).table() == spec_iutf_table(old(self).table(), encode_utf8(name@)),
            r is Err ==> *final(self) == *old(self),
            r matches Err(e) ==> (e is StringTooLong || e is ParseError),
    {
        let r = self.write_attr_head(TYPE_LONG, name);
        match r {
            Ok(_) => {
                let ghost mid = *self;
                self.output.write_long(value);
                proof {
                    assert(self.out() =~= old(self).out() + seq![(ATTRIBUTE + TYPE_LONG) as u8]
                        + spec_iutf_bytes(old(self).table(), encode_utf8(name@)) + spec_be64(
                        spec_i64_as_u64(value),
                    ));
                    lemma_wf_after_payload(&mid, self);
                }
                Ok(())
            },
            Err(e) => Err(e),
        }
    }

    /// Adds a 64-bit integer attribute (lowercase hex on the XML side).
    pub fn attribute_long_hex(&mut self, name: &str, value: i64) -> (r: Result<
        (),
        ConversionError,
    >)
        requires
            old(self).wf(),
        ensures
            final(self).wf(),
            final(self).open_tags() == old(self).open_tags(),
            final(self).preserve() == old(self).preserve(),
            r is Ok <==> spec_iutf_ok(old(self).table(), encode_utf8(name@)),
            r is Ok ==> final(self).out() == old(self).out() + seq![(ATTRIBUTE
                + TYPE_LONG_HEX) as u8] + spec_iutf_bytes(old(self).table(), encode_utf8(name@))
                + spec_be64(spec_i64_as_u64(value)) && final(self).table() == spec_iutf_table(
                old(self).table(),
                encode_utf8(name@),
            ),
            r is Err ==> *final(self) == *old(self),
            r matches Err(e) ==> (e is StringTooLong || e is ParseError),
    {
        let r = self.write_attr_head(TYPE_LONG_HEX, name);
        match r {
            Ok(_) => {
                let ghost mid = *self;
                self.output.write_long(value);
                proof {
                    assert(self.out() =~= old(self).out() + seq![(ATTRIBUTE
                        + TYPE_LONG_HEX) as u8] + spec_iutf_bytes(
                        old(self).table(),
                        encode_utf8(name@),
                    ) + spec_be64(spec_i64_as_u64(value)));
                    lemma_wf_after_payload(&mid, self);
                }
                Ok(())
            },
            Err(e) => Err(e),
        }
    }

    /// Adds a 32-bit floating-point attribute; the caller passes the
    /// IEEE-754 bit pattern, which keeps floating point out of the engine.
    pub fn attribute_float(&mut self, name: &str, bits: u32) -> (r: Result<(), ConversionError>)
        requires
            old(self).wf(),
        ensures
            final(self).wf(),
            final(self).open_tags() == old(self).open_tags(),
            final(self).preserve() == old(self).preserve(),
            r is Ok <==> spec_iutf_ok(old(self).table(), encode_utf8(name@)),
            r is Ok ==> final(self).out() == old(self).out() + seq![(ATTRIBUTE
                + TYPE_FLOAT) as u8] + spec_iutf_bytes(old(self).table(), encode_utf8(name@))
                + spec_be32(bits) && final(self).table() == spec_iutf_table(
                old(self).table(),
                encode_utf8(name@),
            ),
            r is Err ==> *final(self) == *old(self),
            r matches Err(e) ==> (e is StringTooLong || e is ParseError),
    {
        let r = self.write_attr_head(TYPE_FLOAT, name);
        match r {
            Ok(_) => {
                let ghost mid = *self;
                self.output.write_float(bits);
                proof {
                    assert(self.out() =~= old(self).out() + seq![(ATTRIBUTE + TYPE_FLOAT) as u8]
                        + spec_iutf_bytes(old(self).table(), encode_utf8(name@)) + spec_be32(
                        bits,
                    ));
                    lemma_wf_after_payload(&mid, self);
                }
                Ok(())
            },
            Err(e) => Err(e),
        }
    }

    /// Adds a 64-bit floating-point attribute from its IEEE-754 bit pattern.
    pub fn attribute_double(&mut self, name: &str, bits: u64) -> (r: Result<(), ConversionError>)
        requires
            old(self).wf(),
        ensures
            final(self).wf(),
            final(self).open_tags() == old(self).open_tags(),
            final(self).preserve() == old(self).preserve(),
            r is Ok <==> spec_iutf_ok(old(self).table(), encode_utf8(name@)),
            r is Ok ==> final(self).out() == old(self).out() + seq![(ATTRIBUTE
                + TYPE_DOUBLE) as u8] + spec_iutf_bytes(old(self).table(), encode_utf8(name@))
                + spec_be64(bits) && final(self).table() == spec_iutf_table(
                old(self).table(),
                encode_utf8(name@),
            ),
            r is Err ==> *final(self) == *old(self),
            r matches Err(e) ==> (e is StringTooLong || e is ParseError),
    {
        let r = self.write_attr_head(TYPE_DOUBLE, name);
        match r {
            Ok(_) => {
                let ghost mid = *self;
                self.output.write_double(bits);
                proof {
                    assert(self.out() =~= old(self).out() + seq![(ATTRIBUTE + TYPE_DOUBLE) as u8]
                        + spec_iutf_bytes(old(self).table(), encode_utf8(name@)) + spec_be64(
                        bits,
                    ));
                    lemma_wf_after_payload(&mid, self);
                }
                Ok(())
            },
            Err(e) => Err(e),
        }
    }

    /// Adds a boolean attribute: `ATTRIBUTE|BOOLEAN_TRUE` or
    /// `ATTRIBUTE|BOOLEAN_FALSE` with the interned name and no payload.
    pub fn attribute_boolean(&mut self, name: &str, value: bool) -> (r: Result<
        (),
        ConversionError,
    >)
        requires
            old(self).wf(),
        ensures
            final(self).wf(),
            final(self).open_tags() == old(self).open_tags(),
            final(self).preserve() == old(self).preserve(),
            r is Ok <==> spec_iutf_ok(old(self).table(), encode_utf8(name@)),
            r is Ok ==> final(self).out() == old(self).out() + seq![
                (if value {
                    (ATTRIBUTE + TYPE_BOOLEAN_TRUE) as u8
                } else {
                    (ATTRIBUTE + TYPE_BOOLEAN_FALSE) as u8
                }),
            ] + spec_iutf_bytes(old(self).table(), encode_utf8(name@)) && final(self).table()
                == spec_iutf_table(old(self).table(), encode_utf8(name@)),
            r is Err ==> *final(self) == *old(self),
            r matches Err(e) ==> (e is StringTooLong || e is ParseError),
    {
        if value {
            self.write_attr_head(TYPE_BOOLEAN_TRUE, name)
        } else {
            self.write_attr_head(TYPE_BOOLEAN_FALSE, name)
        }
    }

    /// Adds text content: `TEXT|STRING` with the length-prefixed text. The
    /// binary form stores the text verbatim; entities belong to the textual
    /// XML rendering, not to ABX.
    pub fn text(&mut self, text: &str) -> (r: Result<(), ConversionError>)
        requires
            old(self).wf(),
        ensures
            final(self).wf(),
            final(self).open_tags() == old(self).open_tags(),
            final(self).preserve() == old(self).preserve(),
            final(self).table() == old(self).table(),
            r is Ok <==> encode_utf8(text@).len() <= 65535,
            r is Ok ==> final(self).out() == old(self).out() + seq![(TEXT + TYPE_STRING) as u8]
                + spec_utf(encode_utf8(text@)),
            r is Err ==> *final(self) == *old(self),
            r matches Err(e) ==> e matches ConversionError::StringTooLong(l, m) && l == encode_utf8(
                text@,
            ).len() && m == 65535,
    {
        self.write_token_text(TEXT, text)
    }

    /// Adds a CDATA section: `CDSECT|STRING`.
    pub fn cdsect(&mut self, text: &str) -> (r: Result<(), ConversionError>)
        requires
            old(self).wf(),
        ensures
            final(self).wf(),
            final(self).open_tags() == old(self).open_tags(),
            final(self).preserve() == old(self).preserve(),
            final(self).table() == old(self).table(),
            r is Ok <==> encode_utf8(text@).len() <= 65535,
            r is Ok ==> final(self).out() == old(self).out() + seq![(CDSECT + TYPE_STRING) as u8]
                + spec_utf(encode_utf8(text@)),
            r is Err ==> *final(self) == *old(self),
            r matches Err(e) ==> e is StringTooLong,
    {
        self.write_token_text(CDSECT, text)
    }

    /// Adds a comment: `COMMENT|STRING`.
    pub fn comment(&mut self, text: &str) -> (r: Result<(), ConversionError>)
        requires
            old(self).wf(),
        ensures
            final(self).wf(),
            final(self).open_tags() == old(self).open_tags(),
            final(self).preserve() == old(self).preserve(),
            final(self).table() == old(self).table(),
            r is Ok <==> encode_utf8(text@).len() <= 65535,
            r is Ok ==> final(self).out() == old(self).out() + seq![(COMMENT + TYPE_STRING) as u8]
                + spec_utf(encode_utf8(text@)),
            r is Err ==> *final(self) == *old(self),
            r matches Err(e) ==> e is StringTooLong,
    {
        self.write_token_text(COMMENT, text)
    }

    /// Adds a processing instruction: `PROCESSING_INSTRUCTION|STRING` whose
    /// payload is the target, then the data separated by one space when
    /// there is any.
    pub fn processing_instruction(&mut self, target: &str, data: Option<&str>) -> (r: Result<
        (),
        ConversionError,
    >)
        requires
            old(self).wf(),
        ensures
            final(self).wf(),
            final(self).open_tags() == old(self).open_tags(),
            final(self).preserve() == old(self).preserve(),
            final(self).table() == old(self).table(),
            ({
                let payload = spec_pi_text(
                    target@,
                    match data {
                        Some(d) => Some(d@),
                        None => None,
                    },
                );
                &&& (r is Ok <==> encode_utf8(payload).len() <= 65535)
                &&& (r is Ok ==> final(self).out() == old(self).out() + seq![
                    (PROCESSING_INSTRUCTION + TYPE_STRING) as u8,
                ] + spec_utf(encode_utf8(payload)))
            }),
            r is Err ==> *final(self) == *old(self),
            r matches Err(e) ==> e is StringTooLong,
    {
        match data {
            Some(d) => {
                if d.is_empty() {
                    self.write_token_text(PROCESSING_INSTRUCTION, target)
                } else {
                    let mut full: String = target.to_owned();
                    full.append(" ");
                    full.append(d);
                    proof {
                        assert(full@ == target@ + " "@ + d@);
                    }
                    self.write_token_text(PROCESSING_INSTRUCTION, full.as_str())
                }
            },
            None => self.write_token_text(PROCESSING_INSTRUCTION, target),
        }
    }

    /// Adds a DOCTYPE declaration: `DOCDECL|STRING`.
    pub fn docdecl(&mut self, text: &str) -> (r: Result<(), ConversionError>)
        requires
            old(self).wf(),
        ensures
            final(self).wf(),
            final(self).open_tags() == old(self).open_tags(),
            final(self).preserve() == old(self).preserve(),
            final(self).table() == old(self).table(),
            r is Ok <==> encode_utf8(text@).len() <= 65535,
            r is Ok ==> final(self).out() == old(self).out() + seq![(DOCDECL + TYPE_STRING) as u8]
                + spec_utf(encode_utf8(text@)),
            r is Err ==> *final(self) == *old(self),
            r matches Err(e) ==> e is StringTooLong,
    {
        self.write_token_text(DOCDECL, text)
    }

    /// Adds whitespace-only text kept for fidelity:
    /// `IGNORABLE_WHITESPACE|STRING`.
    pub fn ignorable_whitespace(&mut self, text: &str) -> (r: Result<(), ConversionError>)
        requires
            old(self).wf(),
        ensures
            final(self).wf(),
            final(self).open_tags() == old(self).open_tags(),
            final(self).preserve() == old(self).preserve(),
            final(self).table() == old(self).table(),
            r is Ok <==> encode_utf8(text@).len() <= 65535,
            r is Ok ==> final(self).out() == old(self).out() + seq![(IGNORABLE_WHITESPACE
                + TYPE_STRING) as u8] + spec_utf(encode_utf8(text@)),
            r is Err ==> *final(self) == *old(self),
            r matches Err(e) ==> e is StringTooLong,
    {
        self.write_token_text(IGNORABLE_WHITESPACE, text)
    }

    /// Adds an entity reference by name: `ENTITY_REF|STRING`.
    pub fn entity_ref(&mut self, text: &str) -> (r: Result<(), ConversionError>)
        requires
            old(self).wf(),
        ensures
            final(self).wf(),
            final(self).open_tags() == old(self).open_tags(),
            final(self).preserve() == old(self).preserve(),
            final(self).table() == old(self).table(),
            r is Ok <==> encode_utf8(text@).len() <= 65535,
            r is Ok ==> final(self).out() == old(self).out() + seq![(ENTITY_REF
                + TYPE_STRING) as u8] + spec_utf(encode_utf8(text@)),
            r is Err ==> *final(self) == *old(self),
            r matches Err(e) ==> e is StringTooLong,
    {
        self.write_token_text(ENTITY_REF, text)
    }

    /// Hands over the serialized bytes.
    pub fn get_buffer(self) -> (r: Vec<u8>)
        ensures
            r@ == self.out(),
    {
        self.output.into_vec()
    }
}

/// Every document the serializer accepts begins with the magic header: the
/// constructor writes the four bytes `41 42 58 00` before any token, and
/// every method only appends, so the bytes of any well-formed serializer,
/// at any point in its lifetime, start with them.
pub proof fn lemma_output_begins_with_magic(s: &BinaryXmlSerializer)
    requires
        s.wf(),
    ensures
        s.out().len() >= 4,
        s.out().subrange(0, 4) == crate::spec_magic(),
        s.out()[0] == 0x41 && s.out()[1] == 0x42 && s.out()[2] == 0x58 && s.out()[3] == 0x00,
{
    assert(s.out()[0] == s.out().subrange(0, 4)[0]);
    assert(s.out()[1] == s.out().subrange(0, 4)[1]);
    assert(s.out()[2] == s.out().subrange(0, 4)[2]);
    assert(s.out()[3] == s.out().subrange(0, 4)[3]);
}

/// After an attribute head was written (which re-established
/// well-formedness), a payload write that only appends non-table bytes
/// keeps the serializer well-formed.
proof fn lemma_wf_after_payload(mid: &BinaryXmlSerializer, post: &BinaryXmlSerializer)
    requires
        mid.wf(),
        post.table_ok(),
        post.open_tags() == mid.open_tags(),
        mid.table().len() <= post.table().len(),
        forall|i: int| 0 <= i < mid.table().len() ==> post.table()[i] == mid.table()[i],
        post.out().len() >= mid.out().len(),
        forall|i: int| 0 <= i < mid.out().len() ==> post.out()[i] == mid.out()[i],
    ensures
        post.wf(),
{
    assert(post.out().subrange(0, 4) =~= mid.out().subrange(0, 4));
    assert forall|i: int| 0 <= i < post.open_tags().len() implies post.table().contains(
        encode_utf8(#[trigger] post.open_tags()[i]),
    ) by {
        assert(mid.table().contains(encode_utf8(mid.open_tags()[i])));
        crate::wire::lemma_table_grows(
            mid.table(),
            post.table(),
            encode_utf8(mid.open_tags()[i]),
        );
    }
}

} // verus!

