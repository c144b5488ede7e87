//! A bidirectional codec between textual XML and Android Binary XML (ABX),
//! the compact token-oriented binary encoding of XML documents used by the
//! Android platform for system configuration and state files.
//!
//! The core of the crate is the binary format engine: a token-level
//! serializer ([`serializer::BinaryXmlSerializer`]) that turns a stream of
//! document-building calls into ABX bytes, a deserializer
//! ([`deserializer::BinaryXmlDeserializer`]) that parses ABX bytes back into
//! XML text, the document-local string-interning table both sides share, and
//! the type-inference policy that maps XML attribute text to typed ABX
//! attribute tokens ([`events::XmlToAbxConverter`]).
//!
//! Every multi-byte integer on the wire is big-endian. Strings are UTF-8
//! with a two-byte length prefix. A token byte carries a command in its low
//! nibble and a value type in its high nibble.

use vstd::prelude::*;
use vstd::string::StringExecFns;

pub mod codecs;
pub mod deserializer;
pub mod events;
pub mod input;
pub mod output;
pub mod render;
pub mod roundtrip;
pub mod serializer;
pub mod type_detection;
pub mod wire;

verus! {

// ============================================================================
// Protocol constants
// ============================================================================

/// Magic header for ABX format version 0: the bytes "ABX\0".
pub const PROTOCOL_MAGIC_VERSION_0: [u8; 4] = [0x41, 0x42, 0x58, 0x00];

// Token commands (lower 4 bits of a token byte)
pub const START_DOCUMENT: u8 = 0;

pub const END_DOCUMENT: u8 = 1;

pub const START_TAG: u8 = 2;

pub const END_TAG: u8 = 3;

pub const TEXT: u8 = 4;

pub const CDSECT: u8 = 5;

pub const ENTITY_REF: u8 = 6;

pub const IGNORABLE_WHITESPACE: u8 = 7;

pub const PROCESSING_INSTRUCTION: u8 = 8;

pub const COMMENT: u8 = 9;

pub const DOCDECL: u8 = 10;

pub const ATTRIBUTE: u8 = 15;

// Value types (upper 4 bits of a token byte)
pub const TYPE_NULL: u8 = 0x10;

pub const TYPE_STRING: u8 = 0x20;

pub const TYPE_STRING_INTERNED: u8 = 0x30;

pub const TYPE_BYTES_HEX: u8 = 0x40;

pub const TYPE_BYTES_BASE64: u8 = 0x50;

pub const TYPE_INT: u8 = 0x60;

pub const TYPE_INT_HEX: u8 = 0x70;

pub const TYPE_LONG: u8 = 0x80;

pub const TYPE_LONG_HEX: u8 = 0x90;

pub const TYPE_FLOAT: u8 = 0xA0;

pub const TYPE_DOUBLE: u8 = 0xB0;

pub const TYPE_BOOLEAN_TRUE: u8 = 0xC0;

pub const TYPE_BOOLEAN_FALSE: u8 = 0xD0;

/// Maximum value for a u16; the length cap for strings and byte arrays.
pub const MAX_UNSIGNED_SHORT: u16 = 65535;

/// Special interned-string reference indicating that a new string follows.
pub const INTERNED_STRING_NEW_MARKER: u16 = 0xFFFF;

/// Capacity bound of the interning table; filling it further is a hard error.
pub const INTERNED_STRING_POOL_CAPACITY: u16 = 65534;

/// The four magic bytes as a sequence, for use in contracts.
pub open spec fn spec_magic() -> Seq<u8> {
    seq![0x41u8, 0x42u8, 0x58u8, 0x00u8]
}

// ============================================================================
// Errors
// ============================================================================

/// Everything that can go wrong while converting between XML and ABX.
///
/// The XML-side failures (`ParseError`, `XmlParsing`) are produced by the
/// event-driven front end; the rest come from the binary engine itself.
#[derive(Debug)]
pub enum ConversionError {
    /// The deserializer opened non-ABX bytes; carries the expected and the
    /// actual 4-byte prefix.
    InvalidMagicHeader { expected: [u8; 4], actual: [u8; 4] },
    /// Short read while decoding the named field.
    ReadError(String),
    /// An interned-string reference pointed at or past the end of the table.
    InvalidInternedStringIndex(u16),
    /// An attribute token carried a type nibble outside the legal set, so
    /// the payload length cannot be determined.
    UnknownAttributeType(u8),
    /// An `end_tag` call did not match the innermost open element, or the
    /// document was ended with elements still open.
    TagMismatch,
    /// A string was longer than the u16 length prefix allows; carries the
    /// actual and the maximum length.
    StringTooLong(usize, usize),
    /// A byte-array attribute was longer than the u16 length prefix allows;
    /// carries the actual and the maximum length.
    BinaryDataTooLong(usize, usize),
    /// Malformed input at the XML event source.
    ParseError(String),
    /// The XML parser itself failed.
    XmlParsing(String),
    /// A hexadecimal string could not be decoded.
    InvalidHex,
    /// A base64 string could not be decoded.
    InvalidBase64,
    /// Non-UTF-8 bytes in an XML text slot.
    Utf8Error,
}

impl ConversionError {
    /// A short human-readable description of the error kind.
    pub fn message(&self) -> String {
        match self {
            ConversionError::InvalidMagicHeader { .. } => {
                "invalid ABX file format - magic header mismatch".to_owned()
            },
            ConversionError::ReadError(what) => {
                let mut m = "failed to read from stream: ".to_owned();
                m.append(what.as_str());
                m
            },
            ConversionError::InvalidInternedStringIndex(_) => {
                "invalid interned string index".to_owned()
            },
            ConversionError::UnknownAttributeType(_) => "unknown attribute type".to_owned(),
            ConversionError::TagMismatch => "mismatched or unbalanced tags".to_owned(),
            ConversionError::StringTooLong(..) => "string too long".to_owned(),
            ConversionError::BinaryDataTooLong(..) => "binary data too long".to_owned(),
            ConversionError::ParseError(msg) => {
                let mut m = "parse error: ".to_owned();
                m.append(msg.as_str());
                m
            },
            ConversionError::XmlParsing(msg) => {
                let mut m = "XML parsing failed: ".to_owned();
                m.append(msg.as_str());
                m
            },
            ConversionError::InvalidHex => "invalid hex string".to_owned(),
            ConversionError::InvalidBase64 => "invalid base64 string".to_owned(),
            ConversionError::Utf8Error => "UTF-8 conversion error".to_owned(),
        }
    }
}

} // verus!
