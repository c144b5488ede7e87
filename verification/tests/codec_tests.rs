//! End-to-end tests of the ABX codec: the serializer's byte output, the
//! deserializer's XML output, interning, inference, escaping, and the
//! failure modes.

use android_xml_converter::codecs::{base64_decode, base64_encode, hex_decode, hex_encode};
use android_xml_converter::deserializer::{AbxToXmlConverter, BinaryXmlDeserializer, XmlChunk};
use android_xml_converter::events::{Options, XmlEvent, XmlToAbxConverter};
use android_xml_converter::serializer::BinaryXmlSerializer;
use android_xml_converter::type_detection::{is_boolean, is_whitespace_only};
use android_xml_converter::render::encode_xml_entities;
use android_xml_converter::ConversionError;

fn start_tag_event(name: &str, attrs: &[(&str, &str)], empty: bool) -> XmlEvent {
    XmlEvent::StartTag {
        name: name.to_string(),
        attrs: attrs.iter().map(|(k, v)| (k.to_string(), v.to_string())).collect(),
        empty,
    }
}

#[test]
fn test_serializer() {
    let mut ser = BinaryXmlSerializer::new().unwrap();
    ser.start_document().unwrap();
    ser.start_tag("root").unwrap();
    ser.attribute("attr", "value").unwrap();
    ser.text("Hello, World!").unwrap();
    ser.end_tag("root").unwrap();
    ser.end_document().unwrap();

    let buffer = ser.get_buffer();
    assert!(!buffer.is_empty());
    assert_eq!(&buffer[0..4], b"ABX\0");
}

#[test]
fn test_base64() {
    let data = b"Hello, World!";
    let encoded = base64_encode(data);
    let decoded = base64_decode(&encoded).unwrap();
    assert_eq!(data, decoded.as_slice());
}

#[test]
fn test_hex() {
    let data = b"Hello";
    let encoded = hex_encode(data);
    let decoded = hex_decode(&encoded).unwrap();
    assert_eq!(data, decoded.as_slice());
}

#[test]
fn test_round_trip() {
    // <root attr="value">Hello</root>
    let events = vec![
        start_tag_event("root", &[("attr", "value")], false),
        XmlEvent::Text { text: "Hello".to_string() },
        XmlEvent::EndTag { name: "root".to_string() },
    ];
    let abx_data = XmlToAbxConverter::convert_events(&events).unwrap();
    let xml_output = AbxToXmlConverter::convert_bytes(&abx_data).unwrap();
    assert!(xml_output.contains("root"));
    assert!(xml_output.contains("attr"));
    assert!(xml_output.contains("value"));
}

#[test]
fn magic_only_stream_yields_bare_declaration() {
    // magic + START_DOCUMENT|NULL + END_DOCUMENT|NULL
    let bytes = [0x41u8, 0x42, 0x58, 0x00, 0x00, 0x01];
    let xml = AbxToXmlConverter::convert_bytes(&bytes).unwrap();
    assert_eq!(xml, "<?xml version=\"1.0\" encoding=\"UTF-8\"?>");
}

#[test]
fn single_element_with_string_attribute_bytes() {
    // <r a="v"/>
    let events = vec![start_tag_event("r", &[("a", "v")], true)];
    let abx = XmlToAbxConverter::convert_events(&events).unwrap();
    let expected: Vec<u8> = vec![
        0x41, 0x42, 0x58, 0x00, // magic
        0x10, // START_DOCUMENT|NULL
        0x32, // START_TAG|STRING_INTERNED
        0xFF, 0xFF, 0x00, 0x01, b'r', // new interned "r" -> index 0
        0x3F, // ATTRIBUTE|STRING_INTERNED ("v" is short, no space)
        0xFF, 0xFF, 0x00, 0x01, b'a', // new interned "a" -> index 1
        0xFF, 0xFF, 0x00, 0x01, b'v', // new interned "v" -> index 2
        0x33, // END_TAG|STRING_INTERNED
        0x00, 0x00, // index of "r"
        0x11, // END_DOCUMENT|NULL
    ];
    assert_eq!(abx, expected);

    let xml = AbxToXmlConverter::convert_bytes(&abx).unwrap();
    assert!(xml.contains("<r a=\"v\">"));
    assert!(xml.contains("</r>"));
}

#[test]
fn boolean_inference_round_trips_exactly() {
    // <x b="true" c="false"/>
    let events = vec![start_tag_event("x", &[("b", "true"), ("c", "false")], true)];
    let abx = XmlToAbxConverter::convert_events(&events).unwrap();
    // BOOLEAN_TRUE and BOOLEAN_FALSE attribute tokens, no value payload.
    assert!(abx.contains(&0xCFu8));
    assert!(abx.contains(&0xDFu8));
    let xml = AbxToXmlConverter::convert_bytes(&abx).unwrap();
    assert!(xml.contains("b=\"true\""));
    assert!(xml.contains("c=\"false\""));
}

#[test]
fn string_interning_reuses_indices() {
    // <a><b/><b/></a>
    let events = vec![
        start_tag_event("a", &[], false),
        start_tag_event("b", &[], true),
        start_tag_event("b", &[], true),
        XmlEvent::EndTag { name: "a".to_string() },
    ];
    let abx = XmlToAbxConverter::convert_events(&events).unwrap();
    // The name "b" is spelled out exactly once (one new-marker entry)...
    let b_count = abx.iter().filter(|&&x| x == b'b').count();
    assert_eq!(b_count, 1);
    // ...and referenced by index afterwards, which is strictly smaller than
    // spelling it out again (an inline entry costs 5 bytes, an index 2).
    let inline_cost = 5 * 3; // three more "b" tag references spelled inline
    let actual_cost: usize = 5 + 2 * 3; // one entry + three index references
    assert!(actual_cost < inline_cost);
    assert!(abx.len() < 4 + 1 + (5 + 5) + 4 * (1 + 5) + (1 + 5) + 1);
    let xml = AbxToXmlConverter::convert_bytes(&abx).unwrap();
    assert!(xml.contains("<a>"));
    assert!(xml.contains("<b>"));
    assert!(xml.contains("</a>"));
}

#[test]
fn hex_integer_rendering() {
    let mut ser = BinaryXmlSerializer::new().unwrap();
    ser.start_document().unwrap();
    ser.start_tag("n").unwrap();
    ser.attribute_int_hex("a", -1).unwrap();
    ser.attribute_int_hex("c", 0x000000FF).unwrap();
    ser.attribute_long_hex("d", 0x1234).unwrap();
    ser.attribute_int("e", -42).unwrap();
    ser.attribute_long("f", 1234567890123).unwrap();
    ser.end_tag("n").unwrap();
    ser.end_document().unwrap();
    let xml = AbxToXmlConverter::convert_bytes(&ser.get_buffer()).unwrap();
    assert!(xml.contains("a=\"-1\""));
    assert!(xml.contains("c=\"ff\""));
    assert!(xml.contains("d=\"1234\""));
    assert!(xml.contains("e=\"-42\""));
    assert!(xml.contains("f=\"1234567890123\""));
}

#[test]
fn entity_escaping_round_trips() {
    // <t>a & b</t>: the ABX stores the raw text, the XML re-emission
    // escapes it.
    let events = vec![
        start_tag_event("t", &[], false),
        XmlEvent::Text { text: "a & b".to_string() },
        XmlEvent::EndTag { name: "t".to_string() },
    ];
    let abx = XmlToAbxConverter::convert_events(&events).unwrap();
    let raw = b"a & b";
    let found = abx.windows(raw.len()).any(|w| w == raw);
    assert!(found);
    let xml = AbxToXmlConverter::convert_bytes(&abx).unwrap();
    assert!(xml.contains("<t>a &amp; b</t>"));
}

#[test]
fn tag_mismatch_fails_and_writes_nothing() {
    let mut ser = BinaryXmlSerializer::new().unwrap();
    ser.start_document().unwrap();
    ser.start_tag("x").unwrap();
    let r = ser.end_tag("y");
    assert!(matches!(r, Err(ConversionError::TagMismatch)));
    // No bytes past the erroneous end_tag: only magic, START_DOCUMENT and
    // the start tag of "x" are in the buffer.
    let buffer = ser.get_buffer();
    assert_eq!(buffer, vec![0x41, 0x42, 0x58, 0x00, 0x10, 0x32, 0xFF, 0xFF, 0x00, 0x01, b'x']);
}

#[test]
fn unbalanced_document_fails_to_end() {
    let mut ser = BinaryXmlSerializer::new().unwrap();
    ser.start_document().unwrap();
    ser.start_tag("x").unwrap();
    let r = ser.end_document();
    assert!(matches!(r, Err(ConversionError::TagMismatch)));
}

#[test]
fn end_tag_without_open_element_fails() {
    let mut ser = BinaryXmlSerializer::new().unwrap();
    ser.start_document().unwrap();
    let r = ser.end_tag("x");
    assert!(matches!(r, Err(ConversionError::TagMismatch)));
}

#[test]
fn invalid_magic_header_is_reported() {
    let bytes = [0xDEu8, 0xAD, 0xBE, 0xEF, 0x00, 0x01];
    let r = AbxToXmlConverter::convert_bytes(&bytes);
    match r {
        Err(ConversionError::InvalidMagicHeader { expected, actual }) => {
            assert_eq!(expected, [0x41, 0x42, 0x58, 0x00]);
            assert_eq!(actual, [0xDE, 0xAD, 0xBE, 0xEF]);
        },
        _ => panic!("expected InvalidMagicHeader"),
    }
}

#[test]
fn string_too_long_is_refused() {
    let mut ser = BinaryXmlSerializer::new().unwrap();
    ser.start_document().unwrap();
    ser.start_tag("t").unwrap();
    let long = "x".repeat(65536);
    let r = ser.text(&long);
    assert!(matches!(r, Err(ConversionError::StringTooLong(65536, 65535))));
    let r2 = ser.attribute("a", &long);
    assert!(matches!(r2, Err(ConversionError::StringTooLong(65536, 65535))));
    // At the cap itself, writing succeeds.
    let exactly = "y".repeat(65535);
    ser.text(&exactly).unwrap();
}

#[test]
fn binary_data_too_long_is_refused() {
    let mut ser = BinaryXmlSerializer::new().unwrap();
    ser.start_document().unwrap();
    ser.start_tag("t").unwrap();
    let data = vec![0u8; 65536];
    let r = ser.attribute_bytes_hex("a", &data);
    assert!(matches!(r, Err(ConversionError::BinaryDataTooLong(65536, 65535))));
    let r2 = ser.attribute_bytes_base64("a", &data);
    assert!(matches!(r2, Err(ConversionError::BinaryDataTooLong(65536, 65535))));
}

#[test]
fn undefined_interned_index_is_refused() {
    // magic + START_DOCUMENT + START_TAG referring to index 5 of an empty table
    let bytes = [0x41u8, 0x42, 0x58, 0x00, 0x10, 0x32, 0x00, 0x05];
    let r = AbxToXmlConverter::convert_bytes(&bytes);
    assert!(matches!(r, Err(ConversionError::InvalidInternedStringIndex(5))));
}

#[test]
fn unknown_attribute_type_is_fatal() {
    // magic + START_DOCUMENT + START_TAG "r" + attribute token with an
    // illegal type nibble (0xE0)
    let bytes = [
        0x41u8, 0x42, 0x58, 0x00, 0x10, 0x32, 0xFF, 0xFF, 0x00, 0x01, b'r', 0xEF, 0xFF, 0xFF,
        0x00, 0x01, b'a',
    ];
    let r = AbxToXmlConverter::convert_bytes(&bytes);
    assert!(matches!(r, Err(ConversionError::UnknownAttributeType(0xE0))));
}

#[test]
fn truncated_stream_is_a_read_error() {
    let bytes = [0x41u8, 0x42, 0x58, 0x00, 0x32, 0xFF, 0xFF, 0x00, 0x10, b'r'];
    let r = AbxToXmlConverter::convert_bytes(&bytes);
    assert!(matches!(r, Err(ConversionError::ReadError(_))));
    let short = [0x41u8, 0x42];
    let r2 = AbxToXmlConverter::convert_bytes(&short);
    assert!(matches!(r2, Err(ConversionError::ReadError(_))));
}

#[test]
fn unknown_command_stops_gracefully() {
    // magic + START_DOCUMENT + an unknown command (11) ends the document
    // without an error; bytes after it are ignored.
    let bytes = [0x41u8, 0x42, 0x58, 0x00, 0x10, 0x1B, 0x55, 0x66];
    let xml = AbxToXmlConverter::convert_bytes(&bytes).unwrap();
    assert_eq!(xml, "<?xml version=\"1.0\" encoding=\"UTF-8\"?>");
}

#[test]
fn bytes_attributes_render_hex_and_base64() {
    let mut ser = BinaryXmlSerializer::new().unwrap();
    ser.start_document().unwrap();
    ser.start_tag("blob").unwrap();
    ser.attribute_bytes_hex("h", b"Hello").unwrap();
    ser.attribute_bytes_base64("b", b"Hello, World!").unwrap();
    ser.end_tag("blob").unwrap();
    ser.end_document().unwrap();
    let xml = AbxToXmlConverter::convert_bytes(&ser.get_buffer()).unwrap();
    assert!(xml.contains("h=\"48656C6C6F\""));
    assert!(xml.contains("b=\"SGVsbG8sIFdvcmxkIQ==\""));
}

#[test]
fn float_attributes_are_handed_to_the_front_end() {
    let mut ser = BinaryXmlSerializer::new().unwrap();
    ser.start_document().unwrap();
    ser.start_tag("f").unwrap();
    ser.attribute_float("x", 3.0f32.to_bits()).unwrap();
    ser.attribute_double("y", 2.5f64.to_bits()).unwrap();
    ser.end_tag("f").unwrap();
    ser.end_document().unwrap();
    let abx = ser.get_buffer();
    // The byte-level engine refuses to render them as text...
    let r = AbxToXmlConverter::convert_bytes(&abx);
    assert!(matches!(r, Err(ConversionError::ParseError(_))));
    // ...but hands the bit patterns out in order for the front end.
    let mut deser = BinaryXmlDeserializer::new(abx).unwrap();
    deser.deserialize().unwrap();
    let chunks = deser.into_chunks();
    let floats: Vec<u32> = chunks
        .iter()
        .filter_map(|c| match c {
            XmlChunk::FloatValue(bits) => Some(*bits),
            _ => None,
        })
        .collect();
    assert_eq!(floats, vec![3.0f32.to_bits()]);
    let doubles: Vec<u64> = chunks
        .iter()
        .filter_map(|c| match c {
            XmlChunk::DoubleValue(bits) => Some(*bits),
            _ => None,
        })
        .collect();
    assert_eq!(doubles, vec![2.5f64.to_bits()]);
}

#[test]
fn comments_cdata_pi_doctype_round_trip() {
    let events = vec![
        XmlEvent::DocType { text: "note SYSTEM \"note.dtd\"".to_string() },
        XmlEvent::Comment { text: " hi ".to_string() },
        start_tag_event("d", &[], false),
        XmlEvent::CData { text: "1 < 2".to_string() },
        XmlEvent::ProcessingInstruction {
            target: "pi".to_string(),
            data: Some("stuff".to_string()),
        },
        XmlEvent::EntityRef { name: "amp".to_string() },
        XmlEvent::EndTag { name: "d".to_string() },
    ];
    let abx = XmlToAbxConverter::convert_events(&events).unwrap();
    let xml = AbxToXmlConverter::convert_bytes(&abx).unwrap();
    assert!(xml.contains("<!DOCTYPE note SYSTEM \"note.dtd\">"));
    assert!(xml.contains("<!-- hi -->"));
    assert!(xml.contains("<![CDATA[1 < 2]]>"));
    assert!(xml.contains("<?pi stuff?>"));
    assert!(xml.contains("&amp;"));
}

#[test]
fn whitespace_policy_follows_options() {
    let events = vec![
        start_tag_event("w", &[], false),
        XmlEvent::Text { text: "  \n\t".to_string() },
        XmlEvent::EndTag { name: "w".to_string() },
    ];
    let kept = XmlToAbxConverter::convert_events_with_options(&events, false).unwrap();
    let dropped = XmlToAbxConverter::convert_events_with_options(&events, true).unwrap();
    assert!(kept.len() > dropped.len());
    let xml_kept = AbxToXmlConverter::convert_bytes(&kept).unwrap();
    let xml_dropped = AbxToXmlConverter::convert_bytes(&dropped).unwrap();
    assert!(xml_kept.contains("<w>  \n\t</w>"));
    assert!(xml_dropped.contains("<w></w>"));

    let opts = Options::new().collapse_whitespaces(true);
    assert!(opts.collapse_whitespaces);
    assert!(!Options::new().collapse_whitespaces);
}

#[test]
fn long_or_spaced_attribute_values_are_not_interned() {
    // A value with a space is stored as a plain string (token 0x2F), a
    // short one without is interned (token 0x3F).
    let events = vec![start_tag_event("s", &[("a", "two words")], true)];
    let abx = XmlToAbxConverter::convert_events(&events).unwrap();
    assert!(abx.contains(&0x2Fu8));

    let events2 = vec![start_tag_event("s", &[("a", "oneword")], true)];
    let abx2 = XmlToAbxConverter::convert_events(&events2).unwrap();
    assert!(abx2.contains(&0x3Fu8));
}

#[test]
fn codec_utilities_match_known_vectors() {
    assert_eq!(hex_encode(b"Hello"), "48656C6C6F");
    assert_eq!(hex_decode("48656c6c6f").unwrap(), b"Hello");
    assert!(matches!(hex_decode("xz"), Err(ConversionError::InvalidHex)));
    assert!(matches!(hex_decode("abc"), Err(ConversionError::InvalidHex)));
    assert_eq!(base64_encode(b"Hello, World!"), "SGVsbG8sIFdvcmxkIQ==");
    assert_eq!(base64_decode("SGVsbG8sIFdvcmxkIQ==").unwrap(), b"Hello, World!");
    assert!(matches!(base64_decode("!!!"), Err(ConversionError::InvalidBase64)));
}

#[test]
fn type_detection_helpers() {
    assert!(is_boolean("true"));
    assert!(is_boolean("false"));
    assert!(!is_boolean("True"));
    assert!(!is_boolean("1"));
    assert!(is_whitespace_only(" \t\r\n"));
    assert!(is_whitespace_only(""));
    assert!(!is_whitespace_only(" x "));
}

#[test]
fn entity_encoder_escapes_all_five() {
    assert_eq!(encode_xml_entities(b"a & b"), b"a &amp; b");
    assert_eq!(encode_xml_entities(b"<>\"'"), b"&lt;&gt;&quot;&apos;");
    assert_eq!(encode_xml_entities(b"plain"), b"plain");
    assert_eq!(encode_xml_entities(b""), b"");
}

#[test]
fn error_messages_are_nonempty() {
    let errors = vec![
        ConversionError::TagMismatch,
        ConversionError::Utf8Error,
        ConversionError::XmlParsing("boom".to_string()),
        ConversionError::ParseError("bad".to_string()),
        ConversionError::InvalidHex,
        ConversionError::InvalidBase64,
        ConversionError::ReadError("short".to_string()),
        ConversionError::InvalidInternedStringIndex(7),
        ConversionError::UnknownAttributeType(0xE0),
        ConversionError::StringTooLong(70000, 65535),
        ConversionError::BinaryDataTooLong(70000, 65535),
        ConversionError::InvalidMagicHeader { expected: [0x41, 0x42, 0x58, 0x00], actual: [0; 4] },
    ];
    for e in errors {
        assert!(!e.message().is_empty());
    }
}

#[test]
fn multibyte_text_round_trips() {
    let events = vec![
        start_tag_event("u", &[("name", "h\u{e9}llo")], false),
        XmlEvent::Text { text: "gr\u{fc}n & bl\u{e5} \u{2713}".to_string() },
        XmlEvent::EndTag { name: "u".to_string() },
    ];
    let abx = XmlToAbxConverter::convert_events(&events).unwrap();
    let xml = AbxToXmlConverter::convert_bytes(&abx).unwrap();
    assert!(xml.contains("name=\"h\u{e9}llo\""));
    assert!(xml.contains("gr\u{fc}n &amp; bl\u{e5} \u{2713}"));
}

#[test]
fn repeated_attribute_values_are_interned_once() {
    let events = vec![
        start_tag_event("p", &[("a", "same"), ("b", "same")], false),
        XmlEvent::EndTag { name: "p".to_string() },
    ];
    let abx = XmlToAbxConverter::convert_events(&events).unwrap();
    // "same" is spelled out once; the second attribute refers to its index.
    let word = b"same";
    let count = abx.windows(word.len()).filter(|w| w == word).count();
    assert_eq!(count, 1);
    let xml = AbxToXmlConverter::convert_bytes(&abx).unwrap();
    assert!(xml.contains("a=\"same\""));
    assert!(xml.contains("b=\"same\""));
}

#[test]
fn nested_elements_round_trip() {
    let events = vec![
        start_tag_event("outer", &[], false),
        start_tag_event("inner", &[("k", "v1")], false),
        XmlEvent::Text { text: "deep".to_string() },
        XmlEvent::EndTag { name: "inner".to_string() },
        start_tag_event("inner", &[("k", "v2")], true),
        XmlEvent::EndTag { name: "outer".to_string() },
    ];
    let abx = XmlToAbxConverter::convert_events(&events).unwrap();
    let xml = AbxToXmlConverter::convert_bytes(&abx).unwrap();
    assert!(xml.contains("<outer><inner k=\"v1\">deep</inner><inner k=\"v2\"></inner></outer>"));
}

#[test]
fn processing_instruction_without_data_keeps_bare_target() {
    let events = vec![
        start_tag_event("p", &[], false),
        XmlEvent::ProcessingInstruction { target: "bare".to_string(), data: None },
        XmlEvent::ProcessingInstruction { target: "also".to_string(), data: Some(String::new()) },
        XmlEvent::EndTag { name: "p".to_string() },
    ];
    let abx = XmlToAbxConverter::convert_events(&events).unwrap();
    let xml = AbxToXmlConverter::convert_bytes(&abx).unwrap();
    assert!(xml.contains("<?bare?>"));
    assert!(xml.contains("<?also?>"));
}

#[test]
fn empty_strings_are_legal() {
    let events = vec![
        start_tag_event("e", &[("a", "")], false),
        XmlEvent::Text { text: String::new() },
        XmlEvent::EndTag { name: "e".to_string() },
    ];
    let abx = XmlToAbxConverter::convert_events(&events).unwrap();
    let xml = AbxToXmlConverter::convert_bytes(&abx).unwrap();
    assert!(xml.contains("<e a=\"\"></e>"));
}

#[test]
fn interning_table_capacity_is_enforced() {
    let mut ser = BinaryXmlSerializer::new().unwrap();
    ser.start_document().unwrap();
    ser.start_tag("t").unwrap();
    // Fill the pool up to its capacity of 65534 entries ("t" is entry 0).
    for i in 0..65533u32 {
        let name = format!("k{}", i);
        ser.attribute_boolean(&name, true).unwrap();
    }
    let r = ser.attribute_boolean("one-too-many", true);
    assert!(matches!(r, Err(ConversionError::ParseError(_))));
    // An already-interned name still works.
    ser.attribute_boolean("k0", false).unwrap();
}
