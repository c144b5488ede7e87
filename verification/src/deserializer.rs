//! The ABX deserializer: parses the token stream and materializes XML text.
//!
//! The deserializer's behaviour is defined by the `spec_*` functions below,
//! which read the byte stream token by token, threading the reader's
//! interning table, and describe the XML output down to the byte. Because
//! floating-point attribute values are rendered by the textual front end
//! (the engine never touches floats), the output is modelled as a sequence
//! of [`OutPiece`]s: plain bytes, interleaved with the IEEE-754 bit
//! patterns of FLOAT and DOUBLE attribute values awaiting rendering. A
//! document without such attributes is all bytes.

use vstd::prelude::*;
use vstd::utf8::{encode_utf8, valid_utf8};
use crate::codecs::bytes_to_string;
use crate::input::DataInput;
use crate::render::{
    spec_base64, spec_escape, spec_hex_upper, spec_render_int, spec_render_int_hex,
    spec_render_long_hex,
};
use crate::wire::{
    spec_take16, spec_take32, spec_take64, spec_take_iutf, spec_take_utf, spec_u32_as_i32,
    spec_u64_as_i64, InternTable,
};
use crate::{
    ConversionError, ATTRIBUTE, CDSECT, COMMENT, DOCDECL, END_DOCUMENT, END_TAG, ENTITY_REF,
    IGNORABLE_WHITESPACE, PROCESSING_INSTRUCTION, START_DOCUMENT, START_TAG, TEXT,
    TYPE_BOOLEAN_FALSE, TYPE_BOOLEAN_TRUE, TYPE_BYTES_BASE64, TYPE_BYTES_HEX, TYPE_DOUBLE,
    TYPE_FLOAT, TYPE_INT, TYPE_INT_HEX, TYPE_LONG, TYPE_LONG_HEX, TYPE_STRING,
    TYPE_STRING_INTERNED,
};

verus! {

broadcast use vstd::utf8::group_utf8_lib;

// ============================================================================
// The output model
// ============================================================================

/// One piece of deserializer output: a byte of XML text, or the bit pattern
/// of a floating-point attribute value whose text rendering is left to the
/// front end.
pub enum OutPiece {
    Byte(u8),
    F32(u32),
    F64(u64),
}

/// A byte string as output pieces.
pub open spec fn bytes_pieces(b: Seq<u8>) -> Seq<OutPiece> {
    b.map_values(|x: u8| OutPiece::Byte(x))
}

/// A run of materialized output: a stretch of XML text, or one pending
/// floating-point attribute value.
pub enum XmlChunk {
    Text(Vec<u8>),
    FloatValue(u32),
    DoubleValue(u64),
}

impl XmlChunk {
    /// The output pieces a chunk stands for.
    pub open spec fn pieces(&self) -> Seq<OutPiece> {
        match self {
            XmlChunk::Text(v) => bytes_pieces(v@),
            XmlChunk::FloatValue(bits) => seq![OutPiece::F32(*bits)],
            XmlChunk::DoubleValue(bits) => seq![OutPiece::F64(*bits)],
        }
    }
}

/// The output pieces of a chunk list, in order.
pub open spec fn chunks_pieces(chunks: Seq<XmlChunk>) -> Seq<OutPiece>
    decreases chunks.len(),
{
    if chunks.len() == 0 {
        Seq::empty()
    } else {
        chunks[0].pieces() + chunks_pieces(chunks.drop_first())
    }
}

/// Appending one chunk appends its pieces.
pub proof fn lemma_chunks_pieces_push(chunks: Seq<XmlChunk>, c: XmlChunk)
    ensures
        chunks_pieces(chunks.push(c)) == chunks_pieces(chunks) + c.pieces(),
    decreases chunks.len(),
{
    if chunks.len() == 0 {
        reveal_with_fuel(chunks_pieces, 3);
        assert(chunks.push(c)[0] == c);
        assert(chunks.push(c).drop_first() =~= Seq::<XmlChunk>::empty());
        assert(chunks_pieces(chunks.push(c)) =~= chunks_pieces(chunks) + c.pieces());
    } else {
        assert(chunks.push(c).drop_first() =~= chunks.drop_first().push(c));
        lemma_chunks_pieces_push(chunks.drop_first(), c);
        assert(chunks_pieces(chunks.push(c)) =~= chunks_pieces(chunks) + c.pieces());
    }
}

/// Whether every piece is a plain byte (no floating-point values pending).
pub open spec fn pieces_all_bytes(p: Seq<OutPiece>) -> bool {
    forall|i: int| 0 <= i < p.len() ==> (#[trigger] p[i]) is Byte
}

/// The bytes of an all-byte piece sequence.
pub open spec fn pieces_to_bytes(p: Seq<OutPiece>) -> Seq<u8>
    recommends
        pieces_all_bytes(p),
{
    Seq::new(p.len(), |i: int| p[i]->Byte_0)
}

/// The XML declaration that precedes every deserialized document.
pub open spec fn spec_xml_decl() -> Seq<u8> {
    encode_utf8("<?xml version=\"1.0\" encoding=\"UTF-8\"?>"@)
}

// ============================================================================
// The token-stream model
// ============================================================================

/// The high type nibble of a token byte, as a byte with a zero low nibble.
pub open spec fn spec_type_info(token: u8) -> u8 {
    ((token / 16) * 16) as u8
}

/// The command in the low nibble of a token byte.
pub open spec fn spec_command(token: u8) -> u8 {
    token % 16
}

/// Reads one attribute value of the given type from the front of `rem`:
/// the output pieces of its XML rendering, the table afterwards, and the
/// number of bytes consumed. `None` on a short read, invalid UTF-8, an
/// undefined interned index, or a type nibble outside the legal set.
#[verifier::opaque]
pub open spec fn spec_attr_value(type_info: u8, rem: Seq<u8>, table: InternTable) -> Option<
    (Seq<OutPiece>, InternTable, int),
> {
    if type_info == TYPE_STRING {
        match spec_take_utf(rem) {
            Some((p, n)) => if valid_utf8(p) {
                Some((bytes_pieces(spec_escape(p)), table, n))
            } else {
                None
            },
            None => None,
        }
    } else if type_info == TYPE_STRING_INTERNED {
        match spec_take_iutf(rem, table) {
            Some((sb, t2, n)) => if valid_utf8(sb) {
                Some((bytes_pieces(spec_escape(sb)), t2, n))
            } else {
                None
            },
            None => None,
        }
    } else if type_info == TYPE_INT {
        match spec_take32(rem) {
            Some((v, n)) => Some(
                (bytes_pieces(spec_render_int(spec_u32_as_i32(v) as int)), table, n),
            ),
            None => None,
        }
    } else if type_info == TYPE_INT_HEX {
        match spec_take32(rem) {
            Some((v, n)) => Some((bytes_pieces(spec_render_int_hex(spec_u32_as_i32(v))), table, n)),
            None => None,
        }
    } else if type_info == TYPE_LONG {
        match spec_take64(rem) {
            Some((v, n)) => Some(
                (bytes_pieces(spec_render_int(spec_u64_as_i64(v) as int)), table, n),
            ),
            None => None,
        }
    } else if type_info == TYPE_LONG_HEX {
        match spec_take64(rem) {
            Some((v, n)) => Some(
                (bytes_pieces(spec_render_long_hex(spec_u64_as_i64(v))), table, n),
            ),
            None => None,
        }
    } else if type_info == TYPE_FLOAT {
        match spec_take32(rem) {
            Some((v, n)) => Some((seq![OutPiece::F32(v)], table, n)),
            None => None,
        }
    } else if type_info == TYPE_DOUBLE {
        match spec_take64(rem) {
            Some((v, n)) => Some((seq![OutPiece::F64(v)], table, n)),
            None => None,
        }
    } else if type_info == TYPE_BOOLEAN_TRUE {
        Some((bytes_pieces(encode_utf8("true"@)), table, 0))
    } else if type_info == TYPE_BOOLEAN_FALSE {
        Some((bytes_pieces(encode_utf8("false"@)), table, 0))
    } else if type_info == TYPE_BYTES_HEX {
        match spec_take16(rem) {
            Some((len, _)) => if rem.len() >= 2 + len {
                Some(
                    (
                        bytes_pieces(spec_hex_upper(rem.subrange(2, 2 + len as int))),
                        table,
                        2 + len as int,
                    ),
                )
            } else {
                None
            },
            None => None,
        }
    } else if type_info == TYPE_BYTES_BASE64 {
        match spec_take16(rem) {
            Some((len, _)) => if rem.len() >= 2 + len {
                Some(
                    (
                        bytes_pieces(spec_base64(rem.subrange(2, 2 + len as int))),
                        table,
                        2 + len as int,
                    ),
                )
            } else {
                None
            },
            None => None,
        }
    } else {
        None
    }
}

/// Reads one attribute whose token byte has already been consumed: the
/// interned name, then the typed value; renders ` name="value"`.
pub open spec fn spec_attr_after_token(token: u8, rem: Seq<u8>, table: InternTable) -> Option<
    (Seq<OutPiece>, InternTable, int),
> {
    match spec_take_iutf(rem, table) {
        None => None,
        Some((nb, t1, n1)) => if !valid_utf8(nb) {
            None
        } else {
            match spec_attr_value(spec_type_info(token), rem.skip(n1), t1) {
                None => None,
                Some((vp, t2, n2)) => Some(
                    (
                        bytes_pieces(seq![32u8] + nb + seq![61u8, 34u8]) + vp + bytes_pieces(
                            seq![34u8],
                        ),
                        t2,
                        n1 + n2,
                    ),
                ),
            }
        },
    }
}

/// Reads one attribute starting at its token byte.
pub open spec fn spec_attr(rem: Seq<u8>, table: InternTable) -> Option<
    (Seq<OutPiece>, InternTable, int),
> {
    if rem.len() == 0 {
        None
    } else {
        match spec_attr_after_token(rem[0], rem.skip(1), table) {
            None => None,
            Some((p, t2, n)) => Some((p, t2, 1 + n)),
        }
    }
}

/// Every take function consumes no more than what is there.
pub proof fn lemma_take_bounds(rem: Seq<u8>, table: InternTable)
    ensures
        spec_take16(rem) matches Some((_, n)) ==> 0 < n <= rem.len(),
        spec_take32(rem) matches Some((_, n)) ==> 0 < n <= rem.len(),
        spec_take64(rem) matches Some((_, n)) ==> 0 < n <= rem.len(),
        spec_take_utf(rem) matches Some((_, n)) ==> 0 < n <= rem.len(),
        spec_take_iutf(rem, table) matches Some((_, _, n)) ==> 0 < n <= rem.len(),
{
    if spec_take_iutf(rem, table) is Some {
        if let Some((idx, _)) = spec_take16(rem) {
            if idx == 0xFFFF {
                assert(rem.skip(2).len() == rem.len() - 2);
            }
        }
    }
}

/// An attribute value consumes no more than what is there.
pub proof fn lemma_attr_value_bounds(type_info: u8, rem: Seq<u8>, table: InternTable)
    ensures
        spec_attr_value(type_info, rem, table) matches Some((_, _, n)) ==> 0 <= n <= rem.len(),
{
    reveal(spec_attr_value);
    lemma_take_bounds(rem, table);
}

/// A whole attribute consumes at least its token byte and no more than
/// what is there.
pub proof fn lemma_attr_bounds(rem: Seq<u8>, table: InternTable)
    ensures
        spec_attr(rem, table) matches Some((_, _, n)) ==> 1 <= n <= rem.len(),
{
    if rem.len() > 0 {
        let body = rem.skip(1);
        lemma_take_bounds(body, table);
        if let Some((nb, t1, n1)) = spec_take_iutf(body, table) {
            lemma_attr_value_bounds(spec_type_info(rem[0]), body.skip(n1), t1);
            assert(body.skip(n1).len() == body.len() - n1);
        }
    }
}

/// Reads a run of consecutive attribute tokens: it ends at the first byte
/// whose command nibble is not ATTRIBUTE, or at the end of the input.
pub open spec fn spec_attr_run(rem: Seq<u8>, table: InternTable) -> Option<
    (Seq<OutPiece>, InternTable, int),
>
    decreases rem.len(),
    via spec_attr_run_decreases
{
    if rem.len() == 0 || spec_command(rem[0]) != ATTRIBUTE {
        Some((Seq::empty(), table, 0))
    } else {
        match spec_attr(rem, table) {
            None => None,
            Some((p, t1, n)) => match spec_attr_run(rem.skip(n), t1) {
                None => None,
                Some((p2, t2, n2)) => Some((p + p2, t2, n + n2)),
            },
        }
    }
}

#[via_fn]
proof fn spec_attr_run_decreases(rem: Seq<u8>, table: InternTable) {
    if rem.len() > 0 && spec_command(rem[0]) == ATTRIBUTE {
        lemma_attr_bounds(rem, table);
        if let Some((p, t1, n)) = spec_attr(rem, table) {
            assert(rem.skip(n).len() == rem.len() - n);
        }
    }
}

/// An attribute run consumes no more than what is there.
pub proof fn lemma_attr_run_bounds(rem: Seq<u8>, table: InternTable)
    ensures
        spec_attr_run(rem, table) matches Some((_, _, n)) ==> 0 <= n <= rem.len(),
    decreases rem.len(),
{
    if rem.len() == 0 || spec_command(rem[0]) != ATTRIBUTE {
    } else {
        lemma_attr_bounds(rem, table);
        if let Some((p, t1, n)) = spec_attr(rem, table) {
            assert(rem.skip(n).len() == rem.len() - n);
            lemma_attr_run_bounds(rem.skip(n), t1);
        }
    }
}

/// Reads one structural token from the front of `rem`: the output pieces
/// it renders, the table afterwards, the bytes consumed, and whether the
/// document is finished (END_DOCUMENT, or an unknown command, at which the
/// deserializer stops gracefully for forward compatibility).
#[verifier::opaque]
pub open spec fn spec_token(rem: Seq<u8>, table: InternTable) -> Option<
    (Seq<OutPiece>, InternTable, int, bool),
> {
    if rem.len() == 0 {
        None
    } else {
        let token = rem[0];
        let command = spec_command(token);
        let type_info = spec_type_info(token);
        let body = rem.skip(1);
        if command == START_DOCUMENT {
            Some((Seq::empty(), table, 1, false))
        } else if command == END_DOCUMENT {
            Some((Seq::empty(), table, 1, true))
        } else if command == START_TAG {
            match spec_take_iutf(body, table) {
                None => None,
                Some((nb, t1, n1)) => if !valid_utf8(nb) {
                    None
                } else {
                    match spec_attr_run(body.skip(n1), t1) {
                        None => None,
                        Some((ap, t2, n2)) => Some(
                            (
                                bytes_pieces(seq![60u8] + nb) + ap + bytes_pieces(seq![62u8]),
                                t2,
                                1 + n1 + n2,
                                false,
                            ),
                        ),
                    }
                },
            }
        } else if command == END_TAG {
            match spec_take_iutf(body, table) {
                None => None,
                Some((nb, t1, n1)) => if !valid_utf8(nb) {
                    None
                } else {
                    Some(
                        (
                            bytes_pieces(seq![60u8, 47u8] + nb + seq![62u8]),
                            t1,
                            1 + n1,
                            false,
                        ),
                    )
                },
            }
        } else if command == TEXT {
            if type_info == TYPE_STRING {
                match spec_take_utf(body) {
                    None => None,
                    Some((p, n)) => if valid_utf8(p) {
                        Some((bytes_pieces(spec_escape(p)), table, 1 + n, false))
                    } else {
                        None
                    },
                }
            } else {
                Some((Seq::empty(), table, 1, false))
            }
        } else if command == CDSECT {
            if type_info == TYPE_STRING {
                match spec_take_utf(body) {
                    None => None,
                    Some((p, n)) => if valid_utf8(p) {
                        Some(
                            (
                                bytes_pieces(
                                    encode_utf8("<![CDATA["@) + p + encode_utf8("]]>"@),
                                ),
                                table,
                                1 + n,
                                false,
                            ),
                        )
                    } else {
                        None
                    },
                }
            } else {
                Some((Seq::empty(), table, 1, false))
            }
        } else if command == COMMENT {
            if type_info == TYPE_STRING {
                match spec_take_utf(body) {
                    None => None,
                    Some((p, n)) => if valid_utf8(p) {
                        Some(
                            (
                                bytes_pieces(encode_utf8("<!--"@) + p + encode_utf8("-->"@)),
                                table,
                                1 + n,
                                false,
                            ),
                        )
                    } else {
                        None
                    },
                }
            } else {
                Some((Seq::empty(), table, 1, false))
            }
        } else if command == PROCESSING_INSTRUCTION {
            if type_info == TYPE_STRING {
                match spec_take_utf(body) {
                    None => None,
                    Some((p, n)) => if valid_utf8(p) {
                        Some(
                            (
                                bytes_pieces(encode_utf8("<?"@) + p + encode_utf8("?>"@)),
                                table,
                                1 + n,
                                false,
                            ),
                        )
                    } else {
                        None
                    },
                }
            } else {
                Some((Seq::empty(), table, 1, false))
            }
        } else if command == DOCDECL {
            if type_info == TYPE_STRING {
                match spec_take_utf(body) {
                    None => None,
                    Some((p, n)) => if valid_utf8(p) {
                        Some(
                            (
                                bytes_pieces(encode_utf8("<!DOCTYPE "@) + p + encode_utf8(">"@)),
                                table,
                                1 + n,
                                false,
                            ),
                        )
                    } else {
                        None
                    },
                }
            } else {
                Some((Seq::empty(), table, 1, false))
            }
        } else if command == ENTITY_REF {
            if type_info == TYPE_STRING {
                match spec_take_utf(body) {
                    None => None,
                    Some((p, n)) => if valid_utf8(p) {
                        Some(
                            (
                                bytes_pieces(encode_utf8("&"@) + p + encode_utf8(";"@)),
                                table,
                                1 + n,
                                false,
                            ),
                        )
                    } else {
                        None
                    },
                }
            } else {
                Some((Seq::empty(), table, 1, false))
            }
        } else if command == IGNORABLE_WHITESPACE {
            if type_info == TYPE_STRING {
                match spec_take_utf(body) {
                    None => None,
                    Some((p, n)) => if valid_utf8(p) {
                        Some((bytes_pieces(p), table, 1 + n, false))
                    } else {
                        None
                    },
                }
            } else {
                Some((Seq::empty(), table, 1, false))
            }
        } else {
            // Unknown command: stop the document gracefully.
            Some((Seq::empty(), table, 1, true))
        }
    }
}

/// One structural token consumes at least its token byte and no more than
/// what is there.
pub proof fn lemma_token_bounds(rem: Seq<u8>, table: InternTable)
    ensures
        spec_token(rem, table) matches Some((_, _, n, _)) ==> 1 <= n <= rem.len(),
{
    reveal(spec_token);
    if rem.len() > 0 {
        let body = rem.skip(1);
        lemma_take_bounds(body, table);
        if let Some((nb, t1, n1)) = spec_take_iutf(body, table) {
            lemma_attr_run_bounds(body.skip(n1), t1);
            assert(body.skip(n1).len() == body.len() - n1);
        }
    }
}

/// Reads tokens until the document finishes: the output pieces of the
/// whole document and the bytes consumed. `None` when any token is
/// malformed or the stream ends before END_DOCUMENT.
pub open spec fn spec_doc(rem: Seq<u8>, table: InternTable) -> Option<(Seq<OutPiece>, int)>
    decreases rem.len(),
    via spec_doc_decreases
{
    match spec_token(rem, table) {
        None => None,
        Some((p, t2, n, done)) => if done {
            Some((p, n))
        } else {
            match spec_doc(rem.skip(n), t2) {
                None => None,
                Some((p2, n2)) => Some((p + p2, n + n2)),
            }
        },
    }
}

#[via_fn]
proof fn spec_doc_decreases(rem: Seq<u8>, table: InternTable) {
    lemma_token_bounds(rem, table);
    if let Some((p, t2, n, done)) = spec_token(rem, table) {
        assert(rem.skip(n).len() == rem.len() - n);
    }
}

/// The whole deserialization of an ABX byte stream: the magic header, then
/// the document, rendered after the XML declaration. `None` when the magic
/// is wrong or the document is malformed.
pub open spec fn spec_deserialize(data: Seq<u8>) -> Option<Seq<OutPiece>> {
    if data.len() < 4 || data.subrange(0, 4) != crate::spec_magic() {
        None
    } else {
        match spec_doc(data.skip(4), Seq::empty()) {
            None => None,
            Some((p, _)) => Some(bytes_pieces(spec_xml_decl()) + p),
        }
    }
}

/// Mapping bytes to pieces distributes over concatenation.
pub proof fn lemma_bytes_pieces_concat(a: Seq<u8>, b: Seq<u8>)
    ensures
        bytes_pieces(a + b) == bytes_pieces(a) + bytes_pieces(b),
{
    assert(bytes_pieces(a + b) =~= bytes_pieces(a) + bytes_pieces(b));
}

/// The pieces of a chunk list split anywhere.
pub proof fn lemma_chunks_pieces_split(chunks: Seq<XmlChunk>, i: int)
    requires
        0 <= i <= chunks.len(),
    ensures
        chunks_pieces(chunks) == chunks_pieces(chunks.take(i)) + chunks_pieces(
            chunks.skip(i),
        ),
    decreases i,
{
    if i == 0 {
        assert(chunks.take(0) =~= Seq::<XmlChunk>::empty());
        assert(chunks.skip(0) =~= chunks);
        assert(chunks_pieces(chunks) =~= chunks_pieces(chunks.take(0)) + chunks_pieces(
            chunks.skip(0),
        ));
    } else {
        lemma_chunks_pieces_split(chunks.drop_first(), i - 1);
        assert(chunks.take(i).drop_first() =~= chunks.drop_first().take(i - 1));
        assert(chunks.skip(i) =~= chunks.drop_first().skip(i - 1));
        assert(chunks.take(i)[0] == chunks[0]);
        assert(chunks.take(i).len() == i);
        assert(chunks_pieces(chunks) == chunks[0].pieces() + chunks_pieces(chunks.drop_first()));
        assert(chunks_pieces(chunks.take(i)) == chunks[0].pieces() + chunks_pieces(
            chunks.drop_first().take(i - 1),
        ));
        assert(chunks_pieces(chunks) =~= chunks_pieces(chunks.take(i)) + chunks_pieces(
            chunks.skip(i),
        ));
    }
}

// ============================================================================
// The executable deserializer
// ============================================================================

/// A streaming deserializer from ABX bytes to materialized XML text.
pub struct BinaryXmlDeserializer {
    input: DataInput,
    chunks: Vec<XmlChunk>,
}

impl BinaryXmlDeserializer {
    /// The whole input.
    pub closed spec fn data(&self) -> Seq<u8> {
        self.input.data()
    }

    /// How much of the input has been consumed.
    pub closed spec fn pos(&self) -> int {
        self.input.pos()
    }

    /// The reader's interning table.
    pub closed spec fn table(&self) -> InternTable {
        self.input.table()
    }

    /// The bytes not yet consumed.
    pub open spec fn rem(&self) -> Seq<u8> {
        self.data().skip(self.pos())
    }

    /// The output chunks produced so far.
    pub closed spec fn out_chunks(&self) -> Seq<XmlChunk> {
        self.chunks@
    }

    /// The output produced so far, piece by piece.
    pub open spec fn pieces(&self) -> Seq<OutPiece> {
        chunks_pieces(self.out_chunks())
    }

    /// The reader never runs past the end of the input.
    pub closed spec fn wf(&self) -> bool {
        self.input.wf()
    }

    /// Opens an ABX byte stream: checks the 4-byte magic header and fails
    /// with `InvalidMagicHeader` (carrying the expected and actual prefix)
    /// when it does not match, or `ReadError` when the input is shorter
    /// than the header.
    pub fn new(data: Vec<u8>) -> (r: Result<Self, ConversionError>)
        ensures
            r is Ok <==> data@.len() >= 4 && data@.subrange(0, 4) == crate::spec_magic(),
            r matches Ok(d) ==> d.wf() && d.data() == data@ && d.pos() == 4 && d.table()
                == Seq::<Seq<u8>>::empty() && d.pieces() == Seq::<OutPiece>::empty() && d.rem()
                == data@.skip(4),
            r matches Err(e) ==> (if data@.len() < 4 {
                e is ReadError
            } else {
                e matches ConversionError::InvalidMagicHeader { expected, actual } && expected@
                    == crate::spec_magic() && actual@ == data@.subrange(0, 4)
            }),
    {
        let ghost dv = data@;
        let mut input = DataInput::new(data);
        match input.read_bytes(4) {
            Err(_) => Err(ConversionError::ReadError("magic header".to_owned())),
            Ok(m) => {
                proof {
                    assert(m@ =~= dv.subrange(0, 4));
                }
                if m[0] == 0x41 && m[1] == 0x42 && m[2] == 0x58 && m[3] == 0x00 {
                    let d = BinaryXmlDeserializer { input, chunks: Vec::new() };
                    proof {
                        assert(dv.subrange(0, 4) =~= crate::spec_magic());
                        assert(d.pieces() =~= Seq::<OutPiece>::empty());
                    }
                    Ok(d)
                } else {
                    let actual: [u8; 4] = [m[0], m[1], m[2], m[3]];
                    proof {
                        assert(actual@ =~= dv.subrange(0, 4));
                        assert(dv.subrange(0, 4) !~= crate::spec_magic());
                        assert(crate::PROTOCOL_MAGIC_VERSION_0@ =~= crate::spec_magic());
                    }
                    Err(
                        ConversionError::InvalidMagicHeader {
                            expected: crate::PROTOCOL_MAGIC_VERSION_0,
                            actual,
                        },
                    )
                }
            },
        }
    }

    /// Appends a stretch of XML text to the output.
    fn push_text(&mut self, b: Vec<u8>)
        ensures
            final(self).pieces() == old(self).pieces() + bytes_pieces(b@),
            final(self).data() == old(self).data(),
            final(self).pos() == old(self).pos(),
            final(self).table() == old(self).table(),
            final(self).wf() == old(self).wf(),
    {
        let ghost cs = self.chunks@;
        let ghost bb = b@;
        self.chunks.push(XmlChunk::Text(b));
        proof {
            let c = self.chunks@.last();
            assert(self.chunks@ =~= cs.push(c));
            lemma_chunks_pieces_push(cs, c);
            assert(c.pieces() == bytes_pieces(bb));
        }
    }

    /// Appends one pending floating-point value to the output.
    fn push_float(&mut self, c: XmlChunk)
        ensures
            final(self).pieces() == old(self).pieces() + c.pieces(),
            final(self).data() == old(self).data(),
            final(self).pos() == old(self).pos(),
            final(self).table() == old(self).table(),
            final(self).wf() == old(self).wf(),
    {
        let ghost cs = self.chunks@;
        let ghost cg = c;
        self.chunks.push(c);
        proof {
            assert(self.chunks@ =~= cs.push(cg));
            lemma_chunks_pieces_push(cs, cg);
        }
    }

    /// Reads one attribute whose token byte has already been consumed and
    /// appends ` name="value"` to the output, the value rendered according
    /// to the token's type nibble. An attribute type outside the legal set
    /// is fatal (`UnknownAttributeType`): its payload length is unknown.
    #[verifier::rlimit(100)]
    pub fn process_attribute(&mut self, token: u8) -> (r: Result<(), ConversionError>)
        requires
            old(self).wf(),
        ensures
            final(self).wf(),
            final(self).data() == old(self).data(),
            r is Ok <==> spec_attr_after_token(token, old(self).rem(), old(self).table())
                is Some,
            r is Ok ==> (spec_attr_after_token(token, old(self).rem(), old(self).table())
                matches Some((p, t2, n)) && final(self).pieces() == old(self).pieces() + p
                && final(self).table() == t2 && final(self).pos() == old(self).pos() + n),
            r matches Err(e) ==> (e is ReadError || e is InvalidInternedStringIndex
                || e is UnknownAttributeType),
    {
        let ghost rem0 = old(self).rem();
        let ghost t0 = old(self).table();
        proof {
            reveal(spec_attr_value);
        }
        let type_info: u8 = (token / 16) * 16;
        let name = match self.input.read_interned_utf() {
            Ok(n) => n,
            Err(e) => {
                return Err(e);
            },
        };
        let ghost nb = encode_utf8(name@);
        let ghost t1 = self.table();
        let ghost n1 = self.pos() - old(self).pos();
        let ghost rem1 = self.rem();
        proof {
            assert(rem1 =~= rem0.skip(n1));
        }
        let mut head: Vec<u8> = Vec::new();
        head.push(32);
        crate::output::push_all(&mut head, name.as_str().as_bytes());
        head.push(61);
        head.push(34);
        proof {
            assert(head@ =~= seq![32u8] + nb + seq![61u8, 34u8]);
        }
        self.push_text(head);
        let ghost pieces1 = self.pieces();
        if type_info == TYPE_STRING {
            let v = match self.input.read_utf() {
                Ok(v) => v,
                Err(e) => {
                    return Err(e);
                },
            };
            let escaped = crate::render::encode_xml_entities(v.as_str().as_bytes());
            self.push_text(escaped);
        } else if type_info == TYPE_STRING_INTERNED {
            let v = match self.input.read_interned_utf() {
                Ok(v) => v,
                Err(e) => {
                    return Err(e);
                },
            };
            let escaped = crate::render::encode_xml_entities(v.as_str().as_bytes());
            self.push_text(escaped);
        } else if type_info == TYPE_INT {
            let v = match self.input.read_int() {
                Ok(v) => v,
                Err(e) => {
                    return Err(e);
                },
            };
            self.push_text(crate::render::render_i32(v));
        } else if type_info == TYPE_INT_HEX {
            let v = match self.input.read_int() {
                Ok(v) => v,
                Err(e) => {
                    return Err(e);
                },
            };
            if v == -1 {
                let mut neg: Vec<u8> = Vec::new();
                neg.push(45);
                neg.push(49);
                proof {
                    assert(neg@ =~= seq![45u8, 49u8]);
                }
                self.push_text(neg);
            } else {
                let u = crate::output::i32_as_u32(v);
                self.push_text(crate::render::render_hex_u64(u as u64));
            }
        } else if type_info == TYPE_LONG {
            let v = match self.input.read_long() {
                Ok(v) => v,
                Err(e) => {
                    return Err(e);
                },
            };
            self.push_text(crate::render::render_i64(v));
        } else if type_info == TYPE_LONG_HEX {
            let v = match self.input.read_long() {
                Ok(v) => v,
                Err(e) => {
                    return Err(e);
                },
            };
            if v == -1 {
                let mut neg: Vec<u8> = Vec::new();
                neg.push(45);
                neg.push(49);
                proof {
                    assert(neg@ =~= seq![45u8, 49u8]);
                }
                self.push_text(neg);
            } else {
                let u = crate::output::i64_as_u64(v);
                self.push_text(crate::render::render_hex_u64(u));
            }
        } else if type_info == TYPE_FLOAT {
            let bits = match self.input.read_float() {
                Ok(v) => v,
                Err(e) => {
                    return Err(e);
                },
            };
            self.push_float(XmlChunk::FloatValue(bits));
        } else if type_info == TYPE_DOUBLE {
            let bits = match self.input.read_double() {
                Ok(v) => v,
                Err(e) => {
                    return Err(e);
                },
            };
            self.push_float(XmlChunk::DoubleValue(bits));
        } else if type_info == TYPE_BOOLEAN_TRUE {
            self.push_text("true".as_bytes_vec());
        } else if type_info == TYPE_BOOLEAN_FALSE {
            self.push_text("false".as_bytes_vec());
        } else if type_info == TYPE_BYTES_HEX {
            let length = match self.input.read_short() {
                Ok(v) => v,
                Err(e) => {
                    return Err(e);
                },
            };
            let raw = match self.input.read_bytes(length) {
                Ok(v) => v,
                Err(e) => {
                    return Err(e);
                },
            };
            proof {
                assert(raw@ =~= rem1.subrange(2, 2 + length as int));
            }
            let rendered = crate::codecs::hex_encode(raw.as_slice());
            self.push_text(rendered.as_str().as_bytes_vec());
        } else if type_info == TYPE_BYTES_BASE64 {
            let length = match self.input.read_short() {
                Ok(v) => v,
                Err(e) => {
                    return Err(e);
                },
            };
            let raw = match self.input.read_bytes(length) {
                Ok(v) => v,
                Err(e) => {
                    return Err(e);
                },
            };
            proof {
                assert(raw@ =~= rem1.subrange(2, 2 + length as int));
            }
            let rendered = crate::codecs::base64_encode(raw.as_slice());
            self.push_text(rendered.as_str().as_bytes_vec());
        } else {
            return Err(ConversionError::UnknownAttributeType(type_info));
        }
        let mut tail: Vec<u8> = Vec::new();
        tail.push(34);
        proof {
            assert(tail@ =~= seq![34u8]);
        }
        self.push_text(tail);
        proof {
            reveal(spec_attr_value);
            let sp = spec_attr_after_token(token, rem0, t0);
            assert(spec_type_info(token) == type_info);
            assert(sp is Some);
            if let Some((p, st2, sn)) = sp {
                assert(self.pieces() =~= old(self).pieces() + p);
            }
        }
        Ok(())
    }

    /// Reads a START_TAG body, the token byte being consumed: the interned
    /// name, then the attribute run that follows, closing with `>`.
    #[verifier::rlimit(100)]
    #[verifier::loop_isolation(false)]
    fn process_start_tag(&mut self) -> (r: Result<(), ConversionError>)
        requires
            old(self).wf(),
        ensures
            final(self).wf(),
            final(self).data() == old(self).data(),
            r is Ok <==> (spec_take_iutf(old(self).rem(), old(self).table()) matches Some(
                (nb, t1, n1),
            ) && valid_utf8(nb) && spec_attr_run(old(self).rem().skip(n1), t1) is Some),
            r is Ok ==> (spec_take_iutf(old(self).rem(), old(self).table()) matches Some(
                (nb, t1, n1),
            ) && spec_attr_run(old(self).rem().skip(n1), t1) matches Some((ap, t2, n2))
                && final(self).pieces() == old(self).pieces() + (bytes_pieces(seq![60u8] + nb) + ap
                + bytes_pieces(seq![62u8])) && final(self).table() == t2 && final(self).pos()
                == old(self).pos() + n1 + n2),
            r matches Err(e) ==> (e is ReadError || e is InvalidInternedStringIndex
                || e is UnknownAttributeType),
    {
        let name = match self.input.read_interned_utf() {
            Ok(n) => n,
            Err(e) => {
                return Err(e);
            },
        };
        let ghost nb = encode_utf8(name@);
        let ghost n1 = self.pos() - old(self).pos();
        let ghost t1 = self.table();
        proof {
            assert(self.rem() =~= old(self).rem().skip(n1));
        }
        let mut head: Vec<u8> = Vec::new();
        head.push(60);
        crate::output::push_all(&mut head, name.as_str().as_bytes());
        proof {
            assert(head@ =~= seq![60u8] + nb);
        }
        self.push_text(head);
        let ghost mid = *self;
        let ghost mut acc: Seq<OutPiece> = Seq::empty();
        let mut more = true;
        proof {
            assert(spec_attr_run(mid.rem(), mid.table()) =~~= (match spec_attr_run(
                self.rem(),
                self.table(),
            ) {
                Some((p2, t2, n2)) => Some((acc + p2, t2, self.pos() - mid.pos() + n2)),
                None => None::<(Seq<OutPiece>, InternTable, int)>,
            }));
        }
        while more
            invariant
                self.wf(),
                self.data() == mid.data(),
                self.pos() >= mid.pos(),
                self.pieces() == mid.pieces() + acc,
                (match spec_attr_run(self.rem(), self.table()) {
                    Some((p2, t2, n2)) => spec_attr_run(mid.rem(), mid.table()) == Some(
                        (acc + p2, t2, self.pos() - mid.pos() + n2),
                    ),
                    None => spec_attr_run(mid.rem(), mid.table()) is None,
                }),
                !more ==> (self.rem().len() == 0 || spec_command(self.rem()[0]) != ATTRIBUTE),
            decreases self.data().len() - self.pos() + (if more {
                1int
            } else {
                0int
            }),
        {
            let ghost pre = *self;
            let ghost acc_pre = acc;
            match self.input.peek_byte() {
                Err(_) => {
                    more = false;
                },
                Ok(next) => {
                    if next % 16 != ATTRIBUTE {
                        more = false;
                    } else {
                        let t = match self.input.read_byte() {
                            Ok(t) => t,
                            Err(e) => {
                                return Err(e);
                            },
                        };
                        let r = self.process_attribute(t);
                        match r {
                            Ok(_) => {
                                proof {
                                    let sa = spec_attr(pre.rem(), pre.table());
                                    assert(pre.rem()[0] == t);
                                    assert(pre.rem().skip(1) =~= self.data().skip(pre.pos() + 1));
                                    assert(sa is Some);
                                    if let Some((p, ta, na)) = sa {
                                        acc = acc + p;
                                        lemma_attr_bounds(pre.rem(), pre.table());
                                        assert(self.pos() == pre.pos() + na);
                                        vstd::seq_lib::lemma_seq_skip_of_skip(
                                            pre.data(),
                                            pre.pos(),
                                            na,
                                        );
                                        assert(self.rem() =~= pre.rem().skip(na));
                                        if let Some((p2, t2, n2)) = spec_attr_run(
                                            self.rem(),
                                            self.table(),
                                        ) {
                                            assert(spec_attr_run(pre.rem(), pre.table()) == Some(
                                                (p + p2, t2, na + n2),
                                            ));
                                            assert(acc_pre + (p + p2) =~= acc + p2);
                                        } else {
                                            assert(spec_attr_run(pre.rem(), pre.table()) is None);
                                        }
                                    }
                                }
                            },
                            Err(e) => {
                                proof {
                                    let sa = spec_attr(pre.rem(), pre.table());
                                    assert(pre.rem()[0] == t);
                                    assert(pre.rem().skip(1) =~= self.data().skip(pre.pos() + 1));
                                    assert(sa is None);
                                    assert(spec_attr_run(pre.rem(), pre.table()) is None);
                                }
                                return Err(e);
                            },
                        }
                    }
                },
            }
        }
        let ghost endst = *self;
        let mut tail: Vec<u8> = Vec::new();
        tail.push(62);
        proof {
            assert(tail@ =~= seq![62u8]);
        }
        self.push_text(tail);
        proof {
            assert(spec_attr_run(endst.rem(), endst.table()) == Some(
                (Seq::<OutPiece>::empty(), endst.table(), 0int),
            ));
            assert(acc + Seq::<OutPiece>::empty() =~= acc);
            assert(spec_attr_run(mid.rem(), mid.table()) == Some(
                (acc, endst.table(), endst.pos() - mid.pos()),
            ));
            assert(mid.rem() =~= old(self).rem().skip(n1));
            assert(self.pieces() =~= old(self).pieces() + (bytes_pieces(seq![60u8] + nb) + acc
                + bytes_pieces(seq![62u8])));
        }
        Ok(())
    }

    /// Reads a length-prefixed text payload and appends it, wrapped in the
    /// given prefix and suffix and optionally entity-escaped.
    fn process_text_payload(&mut self, prefix: &[u8], suffix: &[u8], escape: bool) -> (r: Result<
        (),
        ConversionError,
    >)
        requires
            old(self).wf(),
        ensures
            final(self).wf(),
            final(self).data() == old(self).data(),
            final(self).table() == old(self).table(),
            r is Ok <==> (spec_take_utf(old(self).rem()) matches Some((p, _)) && valid_utf8(p)),
            r is Ok ==> (spec_take_utf(old(self).rem()) matches Some((p, n))
                && final(self).pieces() == old(self).pieces() + bytes_pieces(
                prefix@ + (if escape {
                    spec_escape(p)
                } else {
                    p
                }) + suffix@,
            ) && final(self).pos() == old(self).pos() + n),
            r matches Err(e) ==> e is ReadError,
    {
        let s = match self.input.read_utf() {
            Ok(s) => s,
            Err(e) => {
                return Err(e);
            },
        };
        let mut v = vstd::slice::slice_to_vec(prefix);
        if escape {
            let mut escaped = crate::render::encode_xml_entities(s.as_str().as_bytes());
            v.append(&mut escaped);
        } else {
            crate::output::push_all(&mut v, s.as_str().as_bytes());
        }
        crate::output::push_all(&mut v, suffix);
        self.push_text(v);
        Ok(())
    }

    /// Reads one structural token, appends its XML rendering to the output,
    /// and says whether to continue. For a START_TAG it also consumes the
    /// attribute run that follows, deciding by one byte of look-ahead
    /// whether the next token is still an attribute.
    #[verifier::rlimit(100)]
    pub fn process_token(&mut self) -> (r: Result<bool, ConversionError>)
        requires
            old(self).wf(),
        ensures
            final(self).wf(),
            final(self).data() == old(self).data(),
            r is Ok <==> spec_token(old(self).rem(), old(self).table()) is Some,
            r matches Ok(cont) ==> (spec_token(old(self).rem(), old(self).table()) matches Some(
                (p, t2, n, done),
            ) && cont == !done && final(self).pieces() == old(self).pieces() + p
                && final(self).table() == t2 && final(self).pos() == old(self).pos() + n),
            r matches Err(e) ==> (e is ReadError || e is InvalidInternedStringIndex
                || e is UnknownAttributeType),
    {
        let ghost rem0 = old(self).rem();
        let ghost t0 = old(self).table();
        proof {
            reveal(spec_token);
        }
        let token = match self.input.read_byte() {
            Ok(t) => t,
            Err(e) => {
                return Err(e);
            },
        };
        let command: u8 = token % 16;
        let type_info: u8 = (token / 16) * 16;
        let ghost body = rem0.skip(1);
        proof {
            assert(self.rem() =~= body);
        }
        if command == START_DOCUMENT {
            proof {
                assert(self.pieces() =~= old(self).pieces() + Seq::<OutPiece>::empty());
            }
            Ok(true)
        } else if command == END_DOCUMENT {
            proof {
                assert(self.pieces() =~= old(self).pieces() + Seq::<OutPiece>::empty());
            }
            Ok(false)
        } else if command == START_TAG {
            let r = self.process_start_tag();
            match r {
                Ok(_) => {
                    proof {
                        if let Some((p, t2, n, done)) = spec_token(rem0, t0) {
                            assert(self.pieces() =~= old(self).pieces() + p);
                        }
                    }
                    Ok(true)
                },
                Err(e) => Err(e),
            }
        } else if command == END_TAG {
            let name = match self.input.read_interned_utf() {
                Ok(n) => n,
                Err(e) => {
                    return Err(e);
                },
            };
            let ghost nb = encode_utf8(name@);
            let mut v: Vec<u8> = Vec::new();
            v.push(60);
            v.push(47);
            crate::output::push_all(&mut v, name.as_str().as_bytes());
            v.push(62);
            proof {
                assert(v@ =~= seq![60u8, 47u8] + nb + seq![62u8]);
            }
            self.push_text(v);
            proof {
                if let Some((p, t2, n, done)) = spec_token(rem0, t0) {
                    assert(self.pieces() =~= old(self).pieces() + p);
                }
            }
            Ok(true)
        } else if command == TEXT || command == CDSECT || command == COMMENT || command
            == PROCESSING_INSTRUCTION || command == DOCDECL || command == ENTITY_REF || command
            == IGNORABLE_WHITESPACE {
            if type_info == TYPE_STRING {
                let r = if command == TEXT {
                    self.process_text_payload("".as_bytes(), "".as_bytes(), true)
                } else if command == CDSECT {
                    self.process_text_payload("<![CDATA[".as_bytes(), "]]>".as_bytes(), false)
                } else if command == COMMENT {
                    self.process_text_payload("<!--".as_bytes(), "-->".as_bytes(), false)
                } else if command == PROCESSING_INSTRUCTION {
                    self.process_text_payload("<?".as_bytes(), "?>".as_bytes(), false)
                } else if command == DOCDECL {
                    self.process_text_payload("<!DOCTYPE ".as_bytes(), ">".as_bytes(), false)
                } else if command == ENTITY_REF {
                    self.process_text_payload("&".as_bytes(), ";".as_bytes(), false)
                } else {
                    self.process_text_payload("".as_bytes(), "".as_bytes(), false)
                };
                match r {
                    Ok(_) => {
                        proof {
                            reveal_strlit("");
                            assert(""@.len() == 0);
                            assert(encode_utf8(""@) =~= Seq::<u8>::empty());
                            if let Some((p, t2, n, done)) = spec_token(rem0, t0) {
                                if let Some((pl, nn)) = spec_take_utf(body) {
                                    if command == TEXT {
                                        assert(Seq::<u8>::empty() + spec_escape(pl)
                                            + Seq::<u8>::empty() =~= spec_escape(pl));
                                    } else if command == IGNORABLE_WHITESPACE {
                                        assert(Seq::<u8>::empty() + pl + Seq::<u8>::empty()
                                            =~= pl);
                                    }
                                    assert(self.pieces() =~= old(self).pieces() + p);
                                }
                            }
                        }
                        Ok(true)
                    },
                    Err(e) => Err(e),
                }
            } else {
                proof {
                    assert(self.pieces() =~= old(self).pieces() + Seq::<OutPiece>::empty());
                }
                Ok(true)
            }
        } else {
            // Unknown command: stop the document gracefully, keeping what
            // was already written (forward compatibility with future
            // format revisions).
            proof {
                assert(self.pieces() =~= old(self).pieces() + Seq::<OutPiece>::empty());
            }
            Ok(false)
        }
    }

    /// Runs the main loop: writes the XML declaration, then processes
    /// tokens until END_DOCUMENT (or an unknown command, at which it stops
    /// gracefully). Succeeds exactly when the remaining stream is a valid
    /// document per [`spec_doc`], and then the output holds its rendering.
    #[verifier::loop_isolation(false)]
    pub fn deserialize(&mut self) -> (r: Result<(), ConversionError>)
        requires
            old(self).wf(),
        ensures
            final(self).wf(),
            final(self).data() == old(self).data(),
            r is Ok <==> spec_doc(old(self).rem(), old(self).table()) is Some,
            r is Ok ==> (spec_doc(old(self).rem(), old(self).table()) matches Some((p, n))
                && final(self).pieces() == old(self).pieces() + bytes_pieces(spec_xml_decl()) + p
                && final(self).pos() == old(self).pos() + n),
            r matches Err(e) ==> (e is ReadError || e is InvalidInternedStringIndex
                || e is UnknownAttributeType),
    {
        self.push_text("<?xml version=\"1.0\" encoding=\"UTF-8\"?>".as_bytes_vec());
        let ghost mid = *self;
        let ghost mut acc: Seq<OutPiece> = Seq::empty();
        let mut running = true;
        proof {
            assert(mid.pieces() =~= mid.pieces() + acc);
        }
        while running
            invariant
                self.wf(),
                self.data() == mid.data(),
                self.pos() >= mid.pos(),
                self.pieces() == mid.pieces() + acc,
                running ==> (match spec_doc(self.rem(), self.table()) {
                    Some((p2, n2)) => spec_doc(mid.rem(), mid.table()) == Some(
                        (acc + p2, self.pos() - mid.pos() + n2),
                    ),
                    None => spec_doc(mid.rem(), mid.table()) is None,
                }),
                !running ==> spec_doc(mid.rem(), mid.table()) == Some(
                    (acc, self.pos() - mid.pos()),
                ),
            decreases self.data().len() - self.pos() + (if running {
                1int
            } else {
                0int
            }),
        {
            let ghost pre = *self;
            let ghost acc_pre = acc;
            let r = self.process_token();
            match r {
                Ok(cont) => {
                    proof {
                        let st = spec_token(pre.rem(), pre.table());
                        assert(st is Some);
                        lemma_token_bounds(pre.rem(), pre.table());
                        if let Some((p, t2, n, done)) = st {
                            acc = acc + p;
                            assert(1 <= n <= pre.rem().len());
                            assert(self.pos() == pre.pos() + n);
                            vstd::seq_lib::lemma_seq_skip_of_skip(pre.data(), pre.pos(), n);
                            assert(self.rem() =~= pre.rem().skip(n));
                            if done {
                                assert(spec_doc(pre.rem(), pre.table()) == Some(
                                    (p, n),
                                ));
                                assert(acc_pre + p =~= acc);
                            } else {
                                if let Some((p2, n2)) = spec_doc(self.rem(), self.table()) {
                                    assert(spec_doc(pre.rem(), pre.table()) == Some(
                                        (p + p2, n + n2),
                                    ));
                                    assert(acc_pre + (p + p2) =~= acc + p2);
                                } else {
                                    assert(spec_doc(pre.rem(), pre.table()) is None);
                                }
                            }
                        }
                    }
                    if !cont {
                        running = false;
                    }
                },
                Err(e) => {
                    proof {
                        assert(spec_token(pre.rem(), pre.table()) is None);
                        assert(spec_doc(pre.rem(), pre.table()) is None);
                    }
                    return Err(e);
                },
            }
        }
        proof {
            assert(mid.rem() =~= old(self).rem());
            assert(self.pieces() =~= old(self).pieces() + bytes_pieces(spec_xml_decl()) + acc);
        }
        Ok(())
    }

    /// Hands over the output chunks for external rendering.
    pub fn into_chunks(self) -> (r: Vec<XmlChunk>)
        ensures
            chunks_pieces(r@) == self.pieces(),
    {
        self.chunks
    }

    /// The output as plain XML text bytes: `None` while a floating-point
    /// attribute value is pending, since its rendering belongs to the
    /// front end.
    pub fn output_text(&self) -> (r: Option<Vec<u8>>)
        ensures
            r is Some <==> pieces_all_bytes(self.pieces()),
            r matches Some(v) ==> bytes_pieces(v@) == self.pieces(),
    {
        let mut out: Vec<u8> = Vec::new();
        let mut i: usize = 0;
        while i < self.chunks.len()
            invariant
                0 <= i <= self.chunks@.len(),
                bytes_pieces(out@) == chunks_pieces(self.chunks@.take(i as int)),
            decreases self.chunks@.len() - i,
        {
            let ghost cs = self.chunks@;
            proof {
                lemma_chunks_pieces_split(cs, i as int);
                lemma_chunks_pieces_split(cs.skip(i as int), 1);
                assert(cs.skip(i as int).take(1) =~= seq![cs[i as int]]);
                assert(cs.skip(i as int).skip(1) =~= cs.skip(i + 1));
                reveal_with_fuel(chunks_pieces, 3);
                assert(chunks_pieces(seq![cs[i as int]]) =~= cs[i as int].pieces());
            }
            match &self.chunks[i] {
                XmlChunk::Text(v) => {
                    let ghost before = out@;
                    crate::output::push_all(&mut out, v.as_slice());
                    proof {
                        assert(cs.take(i + 1) =~= cs.take(i as int).push(cs[i as int]));
                        lemma_chunks_pieces_push(cs.take(i as int), cs[i as int]);
                        assert(bytes_pieces(out@) =~= chunks_pieces(cs.take(i + 1)));
                    }
                },
                XmlChunk::FloatValue(_) => {
                    proof {
                        let k: int = chunks_pieces(cs.take(i as int)).len() as int;
                        assert(chunks_pieces(cs) == chunks_pieces(cs.take(i as int)) + (
                        cs[i as int].pieces() + chunks_pieces(cs.skip(i + 1))));
                        assert(self.pieces()[k] == cs[i as int].pieces()[0]);
                        assert(!(self.pieces()[k] is Byte));
                    }
                    return None;
                },
                XmlChunk::DoubleValue(_) => {
                    proof {
                        let k: int = chunks_pieces(cs.take(i as int)).len() as int;
                        assert(chunks_pieces(cs) == chunks_pieces(cs.take(i as int)) + (
                        cs[i as int].pieces() + chunks_pieces(cs.skip(i + 1))));
                        assert(self.pieces()[k] == cs[i as int].pieces()[0]);
                        assert(!(self.pieces()[k] is Byte));
                    }
                    return None;
                },
            }
            i += 1;
        }
        proof {
            assert(self.chunks@.take(self.chunks@.len() as int) =~= self.chunks@);
            assert(pieces_all_bytes(bytes_pieces(out@)));
        }
        Some(out)
    }
}

/// The high-level ABX-to-XML driver.
pub struct AbxToXmlConverter;

impl AbxToXmlConverter {
    /// Converts an ABX byte buffer to an XML string.
    ///
    /// Succeeds exactly when the bytes begin with the magic header, the
    /// token stream is a valid document, no attribute carries a
    /// floating-point value (those are rendered by the front end), and the
    /// resulting text is UTF-8; the string is then the rendering that
    /// [`spec_deserialize`] describes, byte for byte.
    pub fn convert_bytes(abx_data: &[u8]) -> (r: Result<String, ConversionError>)
        ensures
            r is Ok <==> (spec_deserialize(abx_data@) matches Some(p) && pieces_all_bytes(p)
                && valid_utf8(pieces_to_bytes(p))),
            r matches Ok(s) ==> (spec_deserialize(abx_data@) matches Some(p) && pieces_all_bytes(
                p,
            ) && encode_utf8(s@) == pieces_to_bytes(p)),
            abx_data@.len() >= 4 && abx_data@.subrange(0, 4) != crate::spec_magic() ==> (r
                matches Err(e) && e matches ConversionError::InvalidMagicHeader {
                expected,
                actual,
            } && expected@ == crate::spec_magic() && actual@ == abx_data@.subrange(0, 4)),
    {
        let data = vstd::slice::slice_to_vec(abx_data);
        let mut d = match BinaryXmlDeserializer::new(data) {
            Ok(d) => d,
            Err(e) => {
                return Err(e);
            },
        };
        match d.deserialize() {
            Ok(_) => {},
            Err(e) => {
                return Err(e);
            },
        }
        match d.output_text() {
            Some(v) => {
                let ghost vb = v@;
                proof {
                    if let Some(p) = spec_deserialize(abx_data@) {
                        assert(bytes_pieces(vb) == p);
                        assert(pieces_to_bytes(p) =~= vb);
                    }
                }
                match bytes_to_string(v) {
                    Some(s) => Ok(s),
                    None => Err(ConversionError::ParseError("Invalid UTF-8 in output".to_owned())),
                }
            },
            None => Err(
                ConversionError::ParseError(
                    "rendering floating-point attribute values is left to the front end".to_owned(),
                ),
            ),
        }
    }

    /// Converts an owned ABX byte buffer to an XML string.
    pub fn convert_vec(abx_data: Vec<u8>) -> (r: Result<String, ConversionError>)
        ensures
            r is Ok <==> (spec_deserialize(abx_data@) matches Some(p) && pieces_all_bytes(p)
                && valid_utf8(pieces_to_bytes(p))),
            r matches Ok(s) ==> (spec_deserialize(abx_data@) matches Some(p) && pieces_all_bytes(
                p,
            ) && encode_utf8(s@) == pieces_to_bytes(p)),
    {
        Self::convert_bytes(abx_data.as_slice())
    }
}

} // verus!
