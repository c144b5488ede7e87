//! The XML-to-ABX façade: drives a stream of XML pull events into the
//! serializer, one serializer call per event, applying the attribute
//! type-inference policy.
//!
//! The XML pull parser itself is an external collaborator: whoever parses
//! the textual XML hands the core a list of [`XmlEvent`]s, plain values the
//! engine can reason about. The `spec_ser_*` functions describe, byte for
//! byte, what the conversion emits for any event list.
//!
//! Inference is deliberately conservative: exactly `true`/`false` become
//! boolean tokens, short space-free values are interned, everything else is
//! a plain string. Callers that know the intended Android types use the
//! serializer's explicit typed methods instead.

use vstd::prelude::*;
use vstd::utf8::encode_utf8;
use crate::serializer::{spec_pi_text, BinaryXmlSerializer};
use crate::type_detection::{is_boolean, spec_is_ws_only};
use crate::wire::{
    spec_iutf_bytes, spec_iutf_ok, spec_iutf_table, spec_utf, InternTable,
};
use crate::{
    ConversionError, ATTRIBUTE, CDSECT, COMMENT, DOCDECL, END_DOCUMENT, END_TAG, ENTITY_REF,
    IGNORABLE_WHITESPACE, PROCESSING_INSTRUCTION, START_DOCUMENT, START_TAG, TEXT,
    TYPE_BOOLEAN_FALSE, TYPE_BOOLEAN_TRUE, TYPE_NULL, TYPE_STRING, TYPE_STRING_INTERNED,
};

verus! {

/// One XML pull event, as plain values. An empty element arrives as a
/// single `StartTag` with `empty` set and expands to start, attributes,
/// end. An XML declaration produces no ABX output (its encoding is only
/// inspected by the front end, which warns about non-UTF-8).
pub enum XmlEvent {
    StartTag { name: String, attrs: Vec<(String, String)>, empty: bool },
    EndTag { name: String },
    Text { text: String },
    CData { text: String },
    Comment { text: String },
    ProcessingInstruction { target: String, data: Option<String> },
    DocType { text: String },
    EntityRef { name: String },
    Declaration { encoding: Option<String> },
}

/// Options for the XML-to-ABX conversion.
#[derive(Debug)]
pub struct Options {
    /// Drop whitespace-only text nodes instead of keeping them as
    /// IGNORABLE_WHITESPACE tokens.
    pub collapse_whitespaces: bool,
}

impl Options {
    /// Default options: whitespace is preserved.
    pub fn new() -> (r: Self)
        ensures
            r.collapse_whitespaces == false,
    {
        Options { collapse_whitespaces: false }
    }

    /// Sets whether whitespace-only text nodes are dropped.
    pub fn collapse_whitespaces(self, value: bool) -> (r: Self)
        ensures
            r.collapse_whitespaces == value,
    {
        Options { collapse_whitespaces: value }
    }
}

// ============================================================================
// The inference policy and its byte-level meaning
// ============================================================================

/// Which typed token the inference policy picks for an attribute value:
/// the first matching rule wins.
pub enum InferredKind {
    BooleanTrue,
    BooleanFalse,
    Interned,
    Plain,
}

/// The type-inference policy on an attribute value's characters: exactly
/// `true` or `false` is a boolean; a short value (under 50 UTF-8 bytes, no
/// space) is an interned string; anything else is a plain string.
pub open spec fn spec_infer(value: Seq<char>) -> InferredKind {
    if value == "true"@ {
        InferredKind::BooleanTrue
    } else if value == "false"@ {
        InferredKind::BooleanFalse
    } else if encode_utf8(value).len() < 50 && !encode_utf8(value).contains(32u8) {
        InferredKind::Interned
    } else {
        InferredKind::Plain
    }
}

/// The bytes one inferred attribute emits, given the writer's table.
pub open spec fn spec_attr_infer_bytes(
    table: InternTable,
    name: Seq<char>,
    value: Seq<char>,
) -> Seq<u8> {
    let nb = encode_utf8(name);
    let vb = encode_utf8(value);
    match spec_infer(value) {
        InferredKind::BooleanTrue => seq![(ATTRIBUTE + TYPE_BOOLEAN_TRUE) as u8]
            + spec_iutf_bytes(table, nb),
        InferredKind::BooleanFalse => seq![(ATTRIBUTE + TYPE_BOOLEAN_FALSE) as u8]
            + spec_iutf_bytes(table, nb),
        InferredKind::Interned => seq![(ATTRIBUTE + TYPE_STRING_INTERNED) as u8]
            + spec_iutf_bytes(table, nb) + spec_iutf_bytes(spec_iutf_table(table, nb), vb),
        InferredKind::Plain => seq![(ATTRIBUTE + TYPE_STRING) as u8] + spec_iutf_bytes(table, nb)
            + spec_utf(vb),
    }
}

/// The writer's table after one inferred attribute.
pub open spec fn spec_attr_infer_table(
    table: InternTable,
    name: Seq<char>,
    value: Seq<char>,
) -> InternTable {
    let nb = encode_utf8(name);
    let vb = encode_utf8(value);
    match spec_infer(value) {
        InferredKind::Interned => spec_iutf_table(spec_iutf_table(table, nb), vb),
        _ => spec_iutf_table(table, nb),
    }
}

/// Whether one inferred attribute can be emitted at all.
pub open spec fn spec_attr_infer_ok(
    table: InternTable,
    name: Seq<char>,
    value: Seq<char>,
) -> bool {
    let nb = encode_utf8(name);
    let vb = encode_utf8(value);
    match spec_infer(value) {
        InferredKind::Interned => spec_iutf_ok(table, nb) && spec_iutf_ok(
            spec_iutf_table(table, nb),
            vb,
        ),
        InferredKind::Plain => spec_iutf_ok(table, nb) && vb.len() <= 65535,
        _ => spec_iutf_ok(table, nb),
    }
}

// ============================================================================
// The byte-level meaning of an event list
// ============================================================================

/// The bytes, table and element stack after a run of inferred attributes.
pub open spec fn spec_ser_attrs(attrs: Seq<(String, String)>, table: InternTable) -> Option<
    (Seq<u8>, InternTable),
>
    decreases attrs.len(),
{
    if attrs.len() == 0 {
        Some((Seq::empty(), table))
    } else {
        let name = attrs[0].0@;
        let value = attrs[0].1@;
        if spec_attr_infer_ok(table, name, value) {
            match spec_ser_attrs(attrs.drop_first(), spec_attr_infer_table(table, name, value)) {
                None => None,
                Some((b2, t2)) => Some((spec_attr_infer_bytes(table, name, value) + b2, t2)),
            }
        } else {
            None
        }
    }
}

/// The bytes, table and element stack after one event.
#[verifier::opaque]
pub open spec fn spec_ser_event(
    e: XmlEvent,
    table: InternTable,
    open: Seq<Seq<char>>,
    preserve: bool,
) -> Option<(Seq<u8>, InternTable, Seq<Seq<char>>)> {
    match e {
        XmlEvent::StartTag { name, attrs, empty } => {
            let nb = encode_utf8(name@);
            if !spec_iutf_ok(table, nb) {
                None
            } else {
                let t1 = spec_iutf_table(table, nb);
                let head = seq![(START_TAG + TYPE_STRING_INTERNED) as u8] + spec_iutf_bytes(
                    table,
                    nb,
                );
                match spec_ser_attrs(attrs@, t1) {
                    None => None,
                    Some((ab, t2)) => if empty {
                        Some(
                            (
                                head + ab + seq![(END_TAG + TYPE_STRING_INTERNED) as u8]
                                    + spec_iutf_bytes(t2, nb),
                                spec_iutf_table(t2, nb),
                                open,
                            ),
                        )
                    } else {
                        Some((head + ab, t2, open.push(name@)))
                    },
                }
            }
        },
        XmlEvent::EndTag { name } => {
            if open.len() > 0 && open.last() == name@ {
                Some(
                    (
                        seq![(END_TAG + TYPE_STRING_INTERNED) as u8] + spec_iutf_bytes(
                            table,
                            encode_utf8(name@),
                        ),
                        spec_iutf_table(table, encode_utf8(name@)),
                        open.drop_last(),
                    ),
                )
            } else {
                None
            }
        },
        XmlEvent::Text { text } => {
            let tb = encode_utf8(text@);
            if spec_is_ws_only(tb) {
                if preserve {
                    if tb.len() <= 65535 {
                        Some(
                            (
                                seq![(IGNORABLE_WHITESPACE + TYPE_STRING) as u8] + spec_utf(tb),
                                table,
                                open,
                            ),
                        )
                    } else {
                        None
                    }
                } else {
                    Some((Seq::empty(), table, open))
                }
            } else {
                if tb.len() <= 65535 {
                    Some(((seq![(TEXT + TYPE_STRING) as u8] + spec_utf(tb)), table, open))
                } else {
                    None
                }
            }
        },
        XmlEvent::CData { text } => {
            let tb = encode_utf8(text@);
            if tb.len() <= 65535 {
                Some(((seq![(CDSECT + TYPE_STRING) as u8] + spec_utf(tb)), table, open))
            } else {
                None
            }
        },
        XmlEvent::Comment { text } => {
            let tb = encode_utf8(text@);
            if tb.len() <= 65535 {
                Some(((seq![(COMMENT + TYPE_STRING) as u8] + spec_utf(tb)), table, open))
            } else {
                None
            }
        },
        XmlEvent::ProcessingInstruction { target, data } => {
            let payload = spec_pi_text(
                target@,
                match data {
                    Some(d) => Some(d@),
                    None => None,
                },
            );
            let tb = encode_utf8(payload);
            if tb.len() <= 65535 {
                Some(
                    (
                        (seq![(PROCESSING_INSTRUCTION + TYPE_STRING) as u8] + spec_utf(tb)),
                        table,
                        open,
                    ),
                )
            } else {
                None
            }
        },
        XmlEvent::DocType { text } => {
            let tb = encode_utf8(text@);
            if tb.len() <= 65535 {
                Some(((seq![(DOCDECL + TYPE_STRING) as u8] + spec_utf(tb)), table, open))
            } else {
                None
            }
        },
        XmlEvent::EntityRef { name } => {
            let tb = encode_utf8(name@);
            if tb.len() <= 65535 {
                Some(((seq![(ENTITY_REF + TYPE_STRING) as u8] + spec_utf(tb)), table, open))
            } else {
                None
            }
        },
        XmlEvent::Declaration { .. } => Some((Seq::empty(), table, open)),
    }
}

/// The bytes, table and element stack after a whole event list.
pub open spec fn spec_ser_events(
    events: Seq<XmlEvent>,
    table: InternTable,
    open: Seq<Seq<char>>,
    preserve: bool,
) -> Option<(Seq<u8>, InternTable, Seq<Seq<char>>)>
    decreases events.len(),
{
    if events.len() == 0 {
        Some((Seq::empty(), table, open))
    } else {
        match spec_ser_event(events[0], table, open, preserve) {
            None => None,
            Some((b1, t1, o1)) => match spec_ser_events(events.drop_first(), t1, o1, preserve) {
                None => None,
                Some((b2, t2, o2)) => Some((b1 + b2, t2, o2)),
            },
        }
    }
}

// ============================================================================
// The executable conversion
// ============================================================================

/// The XML-to-ABX driver.
pub struct XmlToAbxConverter;

impl XmlToAbxConverter {
    /// Writes one attribute, picking the typed token by inference: exactly
    /// `true`/`false` become boolean tokens, short space-free values are
    /// interned, everything else is a plain string.
    pub fn write_attribute(
        serializer: &mut BinaryXmlSerializer,
        name: &str,
        value: &str,
    ) -> (r: Result<(), ConversionError>)
        requires
            old(serializer).wf(),
        ensures
            final(serializer).wf(),
            final(serializer).open_tags() == old(serializer).open_tags(),
            final(serializer).preserve() == old(serializer).preserve(),
            r is Ok <==> spec_attr_infer_ok(old(serializer).table(), name@, value@),
            r is Ok ==> final(serializer).out() == old(serializer).out() + spec_attr_infer_bytes(
                old(serializer).table(),
                name@,
                value@,
            ) && final(serializer).table() == spec_attr_infer_table(
                old(serializer).table(),
                name@,
                value@,
            ),
            r is Err ==> *final(serializer) == *old(serializer),
    {
        if is_boolean(value) {
            let truth = crate::type_detection::bytes_eq(value.as_bytes(), "true".as_bytes());
            proof {
                broadcast use vstd::utf8::group_utf8_lib;

                if encode_utf8(value@) == encode_utf8("true"@) {
                    assert(vstd::utf8::decode_utf8(encode_utf8(value@))
                        == vstd::utf8::decode_utf8(encode_utf8("true"@)));
                }
                if value@ == "true"@ {
                    assert(encode_utf8(value@) == encode_utf8("true"@));
                }
            }
            serializer.attribute_boolean(name, truth)
        } else {
            let vb = value.as_bytes();
            let mut has_space = false;
            let mut i: usize = 0;
            while i < vb.len()
                invariant
                    0 <= i <= vb@.len(),
                    has_space <==> exists|j: int| 0 <= j < i && vb@[j] == 32u8,
                decreases vb@.len() - i,
            {
                if vb[i] == 32 {
                    has_space = true;
                }
                i += 1;
            }
            proof {
                assert(has_space <==> encode_utf8(value@).contains(32u8));
            }
            if vb.len() < 50 && !has_space {
                serializer.attribute_interned(name, value)
            } else {
                serializer.attribute(name, value)
            }
        }
    }

    /// Converts a list of XML pull events to a complete ABX document:
    /// magic header, START_DOCUMENT, one token run per event, END_DOCUMENT.
    /// Fails on mismatched or unbalanced tags (`TagMismatch`), on strings
    /// over the length cap (`StringTooLong`), on byte arrays over the cap,
    /// and on an exhausted interning table.
    #[verifier::loop_isolation(false)]
    #[verifier::rlimit(100)]
    pub fn convert_events_with_options(events: &Vec<XmlEvent>, collapse_whitespace: bool) -> (r:
        Result<Vec<u8>, ConversionError>)
        ensures
            r is Ok <==> (spec_ser_events(
                events@,
                Seq::empty(),
                Seq::empty(),
                !collapse_whitespace,
            ) matches Some((b, t, open)) && open.len() == 0),
            r matches Ok(out) ==> (spec_ser_events(
                events@,
                Seq::empty(),
                Seq::empty(),
                !collapse_whitespace,
            ) matches Some((b, t, open)) && out@ == crate::spec_magic() + seq![(START_DOCUMENT
                + TYPE_NULL) as u8] + b + seq![(END_DOCUMENT + TYPE_NULL) as u8]),
    {
        let preserve = !collapse_whitespace;
        let mut serializer = match BinaryXmlSerializer::with_options(preserve) {
            Ok(s) => s,
            Err(e) => {
                return Err(e);
            },
        };
        let r0 = serializer.start_document();
        proof {
            assert(r0 is Ok);
        }
        let ghost mid = serializer;
        let ghost mut acc: Seq<u8> = Seq::empty();
        proof {
            assert(events@.skip(0) =~= events@);
            if let Some((b2, t2, o2)) = spec_ser_events(
                events@,
                serializer.table(),
                serializer.open_tags(),
                preserve,
            ) {
                assert(acc + b2 =~= b2);
            }
        }
        let mut i: usize = 0;
        while i < events.len()
            invariant
                serializer.wf(),
                serializer.preserve() == preserve,
                0 <= i <= events@.len(),
                serializer.out() == mid.out() + acc,
                (match spec_ser_events(events@.skip(i as int), serializer.table(), serializer.open_tags(), preserve) {
                    Some((b2, t2, o2)) => spec_ser_events(events@, mid.table(), mid.open_tags(), preserve) == Some((acc + b2, t2, o2)),
                    None => spec_ser_events(events@, mid.table(), mid.open_tags(), preserve) is None,
                }),
            decreases events@.len() - i,
        {
            let ghost pre = serializer;
            let ghost acc_pre = acc;
            let ghost evs_rem = events@.skip(i as int);
            proof {
                assert(evs_rem.len() > 0);
                assert(evs_rem[0] == events@[i as int]);
                assert(evs_rem.drop_first() =~= events@.skip(i + 1));
            }
            let event = &events[i];
            let r = Self::convert_one_event(&mut serializer, event);
            match r {
                Ok(_) => {
                    proof {
                        let se = spec_ser_event(events@[i as int], pre.table(), pre.open_tags(), preserve);
                        assert(se is Some);
                        if let Some((b1, t1, o1)) = se {
                            acc = acc + b1;
                            if let Some((b2, t2, o2)) = spec_ser_events(
                                events@.skip(i + 1),
                                serializer.table(),
                                serializer.open_tags(),
                                preserve,
                            ) {
                                assert(spec_ser_events(evs_rem, pre.table(), pre.open_tags(), preserve)
                                    == Some((b1 + b2, t2, o2)));
                                assert(acc_pre + (b1 + b2) =~= acc + b2);
                            } else {
                                assert(spec_ser_events(evs_rem, pre.table(), pre.open_tags(), preserve) is None);
                            }
                        }
                    }
                },
                Err(e) => {
                    proof {
                        assert(spec_ser_event(events@[i as int], pre.table(), pre.open_tags(), preserve) is None);
                        assert(spec_ser_events(evs_rem, pre.table(), pre.open_tags(), preserve) is None);
                    }
                    return Err(e);
                },
            }
            i += 1;
        }
        proof {
            assert(events@.skip(events@.len() as int) =~= Seq::<XmlEvent>::empty());
        }
        let r1 = serializer.end_document();
        match r1 {
            Ok(_) => {
                proof {
                    assert(acc + Seq::<u8>::empty() =~= acc);
                }
                Ok(serializer.get_buffer())
            },
            Err(e) => Err(e),
        }
    }

    /// Converts a list of XML pull events with default options (whitespace
    /// preserved).
    pub fn convert_events(events: &Vec<XmlEvent>) -> (r: Result<Vec<u8>, ConversionError>)
        ensures
            r is Ok <==> (spec_ser_events(events@, Seq::empty(), Seq::empty(), true)
                matches Some((b, t, open)) && open.len() == 0),
            r matches Ok(out) ==> (spec_ser_events(events@, Seq::empty(), Seq::empty(), true)
                matches Some((b, t, open)) && out@ == crate::spec_magic() + seq![(START_DOCUMENT
                + TYPE_NULL) as u8] + b + seq![(END_DOCUMENT + TYPE_NULL) as u8]),
    {
        Self::convert_events_with_options(events, false)
    }

    /// Feeds one event into the serializer.
    #[verifier::loop_isolation(false)]
    #[verifier::rlimit(100)]
    fn convert_one_event(serializer: &mut BinaryXmlSerializer, event: &XmlEvent) -> (r: Result<
        (),
        ConversionError,
    >)
        requires
            old(serializer).wf(),
        ensures
            final(serializer).wf(),
            final(serializer).preserve() == old(serializer).preserve(),
            r is Ok <==> spec_ser_event(
                *event,
                old(serializer).table(),
                old(serializer).open_tags(),
                old(serializer).preserve(),
            ) is Some,
            r is Ok ==> (spec_ser_event(
                *event,
                old(serializer).table(),
                old(serializer).open_tags(),
                old(serializer).preserve(),
            ) matches Some((b, t, o)) && final(serializer).out() == old(serializer).out() + b
                && final(serializer).table() == t && final(serializer).open_tags() == o),
    {
        proof {
            reveal(spec_ser_event);
        }
        match event {
            XmlEvent::StartTag { name, attrs, empty } => {
                let r = serializer.start_tag(name.as_str());
                match r {
                    Ok(_) => {},
                    Err(e) => {
                        return Err(e);
                    },
                }
                let ghost t1 = serializer.table();
                let ghost head_out = serializer.out();
                let ghost mut acc: Seq<u8> = Seq::empty();
                proof {
                    assert(attrs@.skip(0) =~= attrs@);
                    if let Some((b2, t2)) = spec_ser_attrs(attrs@, t1) {
                        assert(acc + b2 =~= b2);
                    }
                }
                let mut j: usize = 0;
                while j < attrs.len()
                    invariant
                        serializer.wf(),
                        serializer.preserve() == old(serializer).preserve(),
                        serializer.open_tags() == old(serializer).open_tags().push(name@),
                        0 <= j <= attrs@.len(),
                        serializer.out() == head_out + acc,
                        (match spec_ser_attrs(attrs@.skip(j as int), serializer.table()) {
                            Some((b2, t2)) => spec_ser_attrs(attrs@, t1) == Some((acc + b2, t2)),
                            None => spec_ser_attrs(attrs@, t1) is None,
                        }),
                    decreases attrs@.len() - j,
                {
                    let ghost pre = serializer;
                    let ghost acc_pre = acc;
                    let ghost ats = attrs@.skip(j as int);
                    proof {
                        assert(ats[0] == attrs@[j as int]);
                        assert(ats.drop_first() =~= attrs@.skip(j + 1));
                    }
                    let pair = &attrs[j];
                    let r2 = Self::write_attribute(serializer, pair.0.as_str(), pair.1.as_str());
                    match r2 {
                        Ok(_) => {
                            proof {
                                let an = attrs@[j as int].0@;
                                let av = attrs@[j as int].1@;
                                acc = acc + spec_attr_infer_bytes(pre.table(), an, av);
                                if let Some((b2, t2)) = spec_ser_attrs(
                                    attrs@.skip(j + 1),
                                    serializer.table(),
                                ) {
                                    assert(spec_ser_attrs(ats, pre.table()) == Some(
                                        (spec_attr_infer_bytes(pre.table(), an, av) + b2, t2),
                                    ));
                                    assert(acc_pre + (spec_attr_infer_bytes(pre.table(), an, av)
                                        + b2) =~= acc + b2);
                                } else {
                                    assert(spec_ser_attrs(ats, pre.table()) is None);
                                }
                            }
                        },
                        Err(e) => {
                            proof {
                                assert(spec_ser_attrs(ats, pre.table()) is None);
                            }
                            return Err(e);
                        },
                    }
                    j += 1;
                }
                proof {
                    assert(attrs@.skip(attrs@.len() as int) =~= Seq::<(String, String)>::empty());
                }
                if *empty {
                    let ghost before_end = serializer;
                    let r3 = serializer.end_tag(name.as_str());
                    proof {
                        assert(before_end.open_tags().last() == name@);
                        assert(r3 is Ok);
                        assert(final(serializer).open_tags() =~= old(serializer).open_tags());
                    }
                    match r3 {
                        Ok(_) => Ok(()),
                        Err(e) => Err(e),
                    }
                } else {
                    Ok(())
                }
            },
            XmlEvent::EndTag { name } => serializer.end_tag(name.as_str()),
            XmlEvent::Text { text } => {
                if crate::type_detection::is_whitespace_only(text.as_str()) {
                    if serializer.preserves_whitespace() {
                        serializer.ignorable_whitespace(text.as_str())
                    } else {
                        Ok(())
                    }
                } else {
                    serializer.text(text.as_str())
                }
            },
            XmlEvent::CData { text } => serializer.cdsect(text.as_str()),
            XmlEvent::Comment { text } => serializer.comment(text.as_str()),
            XmlEvent::ProcessingInstruction { target, data } => {
                match data {
                    Some(d) => serializer.processing_instruction(target.as_str(), Some(d.as_str())),
                    None => serializer.processing_instruction(target.as_str(), None),
                }
            },
            XmlEvent::DocType { text } => serializer.docdecl(text.as_str()),
            XmlEvent::EntityRef { name } => serializer.entity_ref(name.as_str()),
            XmlEvent::Declaration { .. } => Ok(()),
        }
    }
}

} // verus!
