//! The structural round-trip: deserializing what the event-driven
//! serializer produced yields exactly the XML text of the original events.
//!
//! [`spec_xml_of_events`] defines, byte for byte, the XML rendering of an
//! event list: the nesting, the attribute names and textual values (with
//! boolean inference round-tripping to exactly `true`/`false`), and the
//! CDATA/comment/PI/DOCTYPE content. The lemmas then show that feeding
//! [`crate::events::spec_ser_events`]' output through
//! [`crate::deserializer::spec_doc`] reproduces that rendering, with the
//! reader's interning table replaying the writer's entry by entry.

use vstd::prelude::*;
use vstd::utf8::{encode_utf8, valid_utf8};
use crate::deserializer::{
    bytes_pieces, lemma_bytes_pieces_concat, spec_attr, spec_attr_after_token, spec_attr_run,
    spec_attr_value, spec_command, spec_doc, spec_token, spec_type_info, spec_xml_decl,
    spec_deserialize, OutPiece,
};
use crate::events::{
    spec_attr_infer_bytes, spec_attr_infer_ok, spec_attr_infer_table, spec_infer, spec_ser_attrs,
    spec_ser_event, spec_ser_events, InferredKind, XmlEvent,
};
use crate::render::spec_escape;
use crate::serializer::spec_pi_text;
use crate::wire::{
    lemma_take_iutf_of_iutf, lemma_take_utf_of_utf, spec_iutf_bytes, spec_iutf_ok,
    spec_iutf_table, spec_utf, table_index_of, table_wf, InternTable,
};
use crate::{
    ATTRIBUTE, CDSECT, COMMENT, DOCDECL, END_DOCUMENT, END_TAG, ENTITY_REF,
    IGNORABLE_WHITESPACE, PROCESSING_INSTRUCTION, START_DOCUMENT, START_TAG, TEXT,
    TYPE_BOOLEAN_FALSE, TYPE_BOOLEAN_TRUE, TYPE_NULL, TYPE_STRING, TYPE_STRING_INTERNED,
};

verus! {

broadcast use vstd::utf8::group_utf8_lib;

// ============================================================================
// The XML text an event list stands for
// ============================================================================

/// The attribute value text the deserializer will reproduce: booleans come
/// back as exactly `true`/`false`, strings come back entity-escaped.
pub open spec fn spec_xml_of_attr_value(value: Seq<char>) -> Seq<u8> {
    match spec_infer(value) {
        InferredKind::BooleanTrue => encode_utf8("true"@),
        InferredKind::BooleanFalse => encode_utf8("false"@),
        _ => spec_escape(encode_utf8(value)),
    }
}

/// The XML text of one attribute: ` name="value"`.
pub open spec fn spec_xml_of_attr(name: Seq<char>, value: Seq<char>) -> Seq<u8> {
    seq![32u8] + encode_utf8(name) + seq![61u8, 34u8] + spec_xml_of_attr_value(value) + seq![34u8]
}

/// The XML text of an attribute list.
pub open spec fn spec_xml_of_attrs(attrs: Seq<(String, String)>) -> Seq<u8>
    decreases attrs.len(),
{
    if attrs.len() == 0 {
        Seq::empty()
    } else {
        spec_xml_of_attr(attrs[0].0@, attrs[0].1@) + spec_xml_of_attrs(attrs.drop_first())
    }
}

/// The XML text of one event.
pub open spec fn spec_xml_of_event(e: XmlEvent, preserve: bool) -> Seq<u8> {
    match e {
        XmlEvent::StartTag { name, attrs, empty } => {
            let head = seq![60u8] + encode_utf8(name@) + spec_xml_of_attrs(attrs@) + seq![62u8];
            if empty {
                head + seq![60u8, 47u8] + encode_utf8(name@) + seq![62u8]
            } else {
                head
            }
        },
        XmlEvent::EndTag { name } => seq![60u8, 47u8] + encode_utf8(name@) + seq![62u8],
        XmlEvent::Text { text } => {
            let tb = encode_utf8(text@);
            if crate::type_detection::spec_is_ws_only(tb) {
                if preserve {
                    tb
                } else {
                    Seq::empty()
                }
            } else {
                spec_escape(tb)
            }
        },
        XmlEvent::CData { text } => encode_utf8("<![CDATA["@) + encode_utf8(text@) + encode_utf8(
            "]]>"@,
        ),
        XmlEvent::Comment { text } => encode_utf8("<!--"@) + encode_utf8(text@) + encode_utf8(
            "-->"@,
        ),
        XmlEvent::ProcessingInstruction { target, data } => encode_utf8("<?"@) + encode_utf8(
            spec_pi_text(
                target@,
                match data {
                    Some(d) => Some(d@),
                    None => None,
                },
            ),
        ) + encode_utf8("?>"@),
        XmlEvent::DocType { text } => encode_utf8("<!DOCTYPE "@) + encode_utf8(text@)
            + encode_utf8(">"@),
        XmlEvent::EntityRef { name } => encode_utf8("&"@) + encode_utf8(name@) + encode_utf8(";"@),
        XmlEvent::Declaration { .. } => Seq::empty(),
    }
}

/// The XML text of an event list.
pub open spec fn spec_xml_of_events(events: Seq<XmlEvent>, preserve: bool) -> Seq<u8>
    decreases events.len(),
{
    if events.len() == 0 {
        Seq::empty()
    } else {
        spec_xml_of_event(events[0], preserve) + spec_xml_of_events(events.drop_first(), preserve)
    }
}

// ============================================================================
// Interning-table facts carried through the induction
// ============================================================================

/// Every table entry is a UTF-8 encoding (the writer only ever interns the
/// encodings of strings).
pub open spec fn table_utf8(table: InternTable) -> bool {
    forall|i: int| 0 <= i < table.len() ==> valid_utf8(#[trigger] table[i])
}

/// Interning one string keeps the table well-formed and all-UTF-8.
///
/// This is the interning law: indices are issued densely in first-write
/// order, an entry is never rewritten, and the writer's and the reader's
/// table stay bitwise equal when the stream is replayed (the reader side is
/// [`lemma_take_iutf_of_iutf`]).
pub proof fn lemma_iutf_table_wf(table: InternTable, sb: Seq<u8>)
    requires
        table_wf(table),
        table_utf8(table),
        spec_iutf_ok(table, sb),
        valid_utf8(sb),
    ensures
        table_wf(spec_iutf_table(table, sb)),
        table_utf8(spec_iutf_table(table, sb)),
        table.len() <= spec_iutf_table(table, sb).len(),
        forall|i: int| 0 <= i < table.len() ==> spec_iutf_table(table, sb)[i] == table[i],
{
    let t2 = spec_iutf_table(table, sb);
    if table_index_of(table, sb) >= 0 {
    } else {
        assert(!table.contains(sb));
        assert forall|i: int, j: int| 0 <= i < j < t2.len() implies #[trigger] t2[i]
            != #[trigger] t2[j] by {
            if j < table.len() {
                assert(table[i] != table[j]);
            } else {
                assert(t2[j] == sb);
                assert(table[i] != sb);
            }
        }
    }
}

// ============================================================================
// One attribute round-trips
// ============================================================================

/// The shared conclusion of the per-kind attribute lemmas.
pub open spec fn attr_roundtrip_post(
    table: InternTable,
    name: Seq<char>,
    value: Seq<char>,
    rest: Seq<u8>,
) -> bool {
    &&& spec_attr(spec_attr_infer_bytes(table, name, value) + rest, table) == Some(
        (
            bytes_pieces(spec_xml_of_attr(name, value)),
            spec_attr_infer_table(table, name, value),
            spec_attr_infer_bytes(table, name, value).len() as int,
        ),
    )
    &&& table_wf(spec_attr_infer_table(table, name, value))
    &&& table_utf8(spec_attr_infer_table(table, name, value))
    &&& table.len() <= spec_attr_infer_table(table, name, value).len()
    &&& forall|i: int|
        0 <= i < table.len() ==> spec_attr_infer_table(table, name, value)[i] == table[i]
    &&& spec_attr_infer_bytes(table, name, value).len() >= 3
    &&& spec_command(spec_attr_infer_bytes(table, name, value)[0]) == ATTRIBUTE
}

#[verifier::rlimit(100)]
proof fn lemma_attr_roundtrip_boolean(
    table: InternTable,
    name: Seq<char>,
    value: Seq<char>,
    rest: Seq<u8>,
)
    requires
        table_wf(table),
        table_utf8(table),
        spec_attr_infer_ok(table, name, value),
        spec_infer(value) is BooleanTrue || spec_infer(value) is BooleanFalse,
    ensures
        attr_roundtrip_post(table, name, value, rest),
{
    reveal(spec_attr_value);
    let nb = encode_utf8(name);
    let ab = spec_attr_infer_bytes(table, name, value);
    let s = ab + rest;
    let body = s.skip(1);
    let t1 = spec_iutf_table(table, nb);
    lemma_iutf_table_wf(table, nb);
    let tru = spec_infer(value) is BooleanTrue;
    let token: u8 = if tru {
        (ATTRIBUTE + TYPE_BOOLEAN_TRUE) as u8
    } else {
        (ATTRIBUTE + TYPE_BOOLEAN_FALSE) as u8
    };
    assert(s[0] == token);
    assert(spec_command(token) == ATTRIBUTE);
    assert(spec_type_info(token) == (if tru {
        TYPE_BOOLEAN_TRUE
    } else {
        TYPE_BOOLEAN_FALSE
    }));
    assert(body =~= spec_iutf_bytes(table, nb) + rest);
    lemma_take_iutf_of_iutf(table, nb, rest);
    let word = if tru {
        encode_utf8("true"@)
    } else {
        encode_utf8("false"@)
    };
    assert(spec_xml_of_attr(name, value) =~= (seq![32u8] + nb + seq![61u8, 34u8]) + word + seq![
        34u8,
    ]);
    lemma_bytes_pieces_concat(seq![32u8] + nb + seq![61u8, 34u8], word);
    lemma_bytes_pieces_concat((seq![32u8] + nb + seq![61u8, 34u8]) + word, seq![34u8]);
    if let Some((p, t2, n)) = spec_attr_after_token(token, body, table) {
        assert(p =~= bytes_pieces(spec_xml_of_attr(name, value)));
    }
    assert(spec_attr(s, table) == Some(
        (bytes_pieces(spec_xml_of_attr(name, value)), t1, ab.len() as int),
    ));
}

#[verifier::rlimit(100)]
proof fn lemma_attr_roundtrip_interned(
    table: InternTable,
    name: Seq<char>,
    value: Seq<char>,
    rest: Seq<u8>,
)
    requires
        table_wf(table),
        table_utf8(table),
        spec_attr_infer_ok(table, name, value),
        spec_infer(value) is Interned,
    ensures
        attr_roundtrip_post(table, name, value, rest),
{
    reveal(spec_attr_value);
    let nb = encode_utf8(name);
    let vb = encode_utf8(value);
    let ab = spec_attr_infer_bytes(table, name, value);
    let s = ab + rest;
    let body = s.skip(1);
    let t1 = spec_iutf_table(table, nb);
    lemma_iutf_table_wf(table, nb);
    let token = (ATTRIBUTE + TYPE_STRING_INTERNED) as u8;
    assert(s[0] == token);
    assert(spec_command(token) == ATTRIBUTE);
    assert(spec_type_info(token) == TYPE_STRING_INTERNED);
    let ib = spec_iutf_bytes(table, nb);
    let vbb = spec_iutf_bytes(t1, vb);
    assert(body =~= ib + (vbb + rest));
    lemma_take_iutf_of_iutf(table, nb, vbb + rest);
    let after_name = body.skip(ib.len() as int);
    assert(after_name =~= vbb + rest);
    lemma_take_iutf_of_iutf(t1, vb, rest);
    lemma_iutf_table_wf(t1, vb);
    let t2 = spec_iutf_table(t1, vb);
    assert(spec_attr_value(TYPE_STRING_INTERNED, after_name, t1) == Some(
        (bytes_pieces(spec_escape(vb)), t2, vbb.len() as int),
    ));
    assert(spec_xml_of_attr(name, value) =~= (seq![32u8] + nb + seq![61u8, 34u8]) + spec_escape(
        vb,
    ) + seq![34u8]);
    lemma_bytes_pieces_concat(seq![32u8] + nb + seq![61u8, 34u8], spec_escape(vb));
    lemma_bytes_pieces_concat((seq![32u8] + nb + seq![61u8, 34u8]) + spec_escape(vb), seq![34u8]);
    if let Some((p, t3, n)) = spec_attr_after_token(token, body, table) {
        assert(p =~= bytes_pieces(spec_xml_of_attr(name, value)));
        assert(n == ib.len() + vbb.len());
    }
    assert(spec_attr(s, table) == Some(
        (bytes_pieces(spec_xml_of_attr(name, value)), t2, ab.len() as int),
    ));
}

#[verifier::rlimit(100)]
proof fn lemma_attr_roundtrip_plain(
    table: InternTable,
    name: Seq<char>,
    value: Seq<char>,
    rest: Seq<u8>,
)
    requires
        table_wf(table),
        table_utf8(table),
        spec_attr_infer_ok(table, name, value),
        spec_infer(value) is Plain,
    ensures
        attr_roundtrip_post(table, name, value, rest),
{
    reveal(spec_attr_value);
    let nb = encode_utf8(name);
    let vb = encode_utf8(value);
    let ab = spec_attr_infer_bytes(table, name, value);
    let s = ab + rest;
    let body = s.skip(1);
    let t1 = spec_iutf_table(table, nb);
    lemma_iutf_table_wf(table, nb);
    let token = (ATTRIBUTE + TYPE_STRING) as u8;
    assert(s[0] == token);
    assert(spec_command(token) == ATTRIBUTE);
    assert(spec_type_info(token) == TYPE_STRING);
    let ib = spec_iutf_bytes(table, nb);
    let ub = spec_utf(vb);
    assert(body =~= ib + (ub + rest));
    lemma_take_iutf_of_iutf(table, nb, ub + rest);
    let after_name = body.skip(ib.len() as int);
    assert(after_name =~= ub + rest);
    lemma_take_utf_of_utf(vb, rest);
    assert(spec_attr_value(TYPE_STRING, after_name, t1) == Some(
        (bytes_pieces(spec_escape(vb)), t1, ub.len() as int),
    ));
    assert(spec_xml_of_attr(name, value) =~= (seq![32u8] + nb + seq![61u8, 34u8]) + spec_escape(
        vb,
    ) + seq![34u8]);
    lemma_bytes_pieces_concat(seq![32u8] + nb + seq![61u8, 34u8], spec_escape(vb));
    lemma_bytes_pieces_concat((seq![32u8] + nb + seq![61u8, 34u8]) + spec_escape(vb), seq![34u8]);
    if let Some((p, t3, n)) = spec_attr_after_token(token, body, table) {
        assert(p =~= bytes_pieces(spec_xml_of_attr(name, value)));
        assert(n == ib.len() + ub.len());
    }
    assert(spec_attr(s, table) == Some(
        (bytes_pieces(spec_xml_of_attr(name, value)), t1, ab.len() as int),
    ));
}

/// What the writer emits for one inferred attribute reads back as exactly
/// its XML rendering, and the reader's table ends equal to the writer's.
pub proof fn lemma_attr_roundtrip(
    table: InternTable,
    name: Seq<char>,
    value: Seq<char>,
    rest: Seq<u8>,
)
    requires
        table_wf(table),
        table_utf8(table),
        spec_attr_infer_ok(table, name, value),
    ensures
        attr_roundtrip_post(table, name, value, rest),
{
    match spec_infer(value) {
        InferredKind::BooleanTrue => lemma_attr_roundtrip_boolean(table, name, value, rest),
        InferredKind::BooleanFalse => lemma_attr_roundtrip_boolean(table, name, value, rest),
        InferredKind::Interned => lemma_attr_roundtrip_interned(table, name, value, rest),
        InferredKind::Plain => lemma_attr_roundtrip_plain(table, name, value, rest),
    }
}

// ============================================================================
// An attribute run round-trips
// ============================================================================

/// What the writer emits for an attribute list reads back, in one
/// attribute run, as exactly its XML rendering; the run stops at the first
/// following byte because its command nibble is not ATTRIBUTE.
#[verifier::rlimit(100)]
pub proof fn lemma_attrs_roundtrip(
    attrs: Seq<(String, String)>,
    table: InternTable,
    rest: Seq<u8>,
)
    requires
        table_wf(table),
        table_utf8(table),
        spec_ser_attrs(attrs, table) is Some,
        rest.len() > 0,
        spec_command(rest[0]) != ATTRIBUTE,
    ensures
        spec_ser_attrs(attrs, table) matches Some((b, t2)) && spec_attr_run(b + rest, table)
            == Some((bytes_pieces(spec_xml_of_attrs(attrs)), t2, b.len() as int)) && table_wf(t2)
            && table_utf8(t2) && table.len() <= t2.len() && (forall|i: int|
            0 <= i < table.len() ==> t2[i] == table[i]),
    decreases attrs.len(),
{
    if attrs.len() == 0 {
        if let Some((b, t2)) = spec_ser_attrs(attrs, table) {
            assert(b + rest =~= rest);
            assert(bytes_pieces(spec_xml_of_attrs(attrs)) =~= Seq::<OutPiece>::empty());
            assert(spec_attr_run(b + rest, table) == Some(
                (Seq::<OutPiece>::empty(), table, 0int),
            ));
        }
    } else {
        let name = attrs[0].0@;
        let value = attrs[0].1@;
        let ab = spec_attr_infer_bytes(table, name, value);
        let t1 = spec_attr_infer_table(table, name, value);
        lemma_attr_roundtrip(table, name, value, rest);
        if let Some((b2, t2)) = spec_ser_attrs(attrs.drop_first(), t1) {
            lemma_attrs_roundtrip(attrs.drop_first(), t1, rest);
            let s = (ab + b2) + rest;
            assert(s =~= ab + (b2 + rest));
            lemma_attr_roundtrip(table, name, value, b2 + rest);
            assert(spec_attr(ab + (b2 + rest), table) == Some(
                (bytes_pieces(spec_xml_of_attr(name, value)), t1, ab.len() as int),
            ));
            assert(s.len() > 0 && spec_command(s[0]) == ATTRIBUTE);
            assert(s.skip(ab.len() as int) =~= b2 + rest);
            assert(spec_attr_run(b2 + rest, t1) == Some(
                (bytes_pieces(spec_xml_of_attrs(attrs.drop_first())), t2, b2.len() as int),
            ));
            lemma_bytes_pieces_concat(
                spec_xml_of_attr(name, value),
                spec_xml_of_attrs(attrs.drop_first()),
            );
            assert(spec_attr_run(s, table) == Some(
                (
                    bytes_pieces(spec_xml_of_attr(name, value)) + bytes_pieces(
                        spec_xml_of_attrs(attrs.drop_first()),
                    ),
                    t2,
                    (ab.len() + b2.len()) as int,
                ),
            ));
            assert(spec_xml_of_attrs(attrs) == spec_xml_of_attr(name, value) + spec_xml_of_attrs(
                attrs.drop_first(),
            ));
        }
    }
}

/// Whatever an event list serializes to never begins with an ATTRIBUTE
/// token, so an attribute run never leaks into the next event.
pub proof fn lemma_ser_events_first_byte(
    events: Seq<XmlEvent>,
    table: InternTable,
    open: Seq<Seq<char>>,
    preserve: bool,
)
    requires
        spec_ser_events(events, table, open, preserve) is Some,
    ensures
        spec_ser_events(events, table, open, preserve) matches Some((b, _, _)) && (b.len() == 0
            || spec_command(b[0]) != ATTRIBUTE),
    decreases events.len(),
{
    reveal(spec_ser_event);
    if events.len() == 0 {
    } else {
        if let Some((b1, t1, o1)) = spec_ser_event(events[0], table, open, preserve) {
            lemma_ser_events_first_byte(events.drop_first(), t1, o1, preserve);
            if let Some((b, t2, o2)) = spec_ser_events(events, table, open, preserve) {
                if b.len() > 0 {
                    if b1.len() > 0 {
                        assert(b[0] == b1[0]);
                    } else {
                        if let Some((b2, _, _)) = spec_ser_events(
                            events.drop_first(),
                            t1,
                            o1,
                            preserve,
                        ) {
                            assert(b =~= b2);
                        }
                    }
                }
            }
        }
    }
}

// ============================================================================
// One event round-trips
// ============================================================================

/// Every open element's name has been interned.
pub open spec fn open_in_table(open: Seq<Seq<char>>, table: InternTable) -> bool {
    forall|i: int|
        0 <= i < open.len() ==> table.contains(encode_utf8(#[trigger] open[i]))
}

/// The shared conclusion of the per-event lemmas: the event's bytes,
/// followed by any well-formed continuation, deserialize to the event's
/// XML text followed by the continuation's.
pub open spec fn event_roundtrip_post(
    e: XmlEvent,
    table: InternTable,
    open: Seq<Seq<char>>,
    preserve: bool,
    rest: Seq<u8>,
) -> bool {
    spec_ser_event(e, table, open, preserve) matches Some((b, t2, open2)) && table_wf(t2)
        && table_utf8(t2) && open_in_table(open2, t2) && table.len() <= t2.len() && (forall|i: int|
        0 <= i < table.len() ==> t2[i] == table[i]) && (spec_doc(rest, t2) matches Some((p, n))
        ==> spec_doc(b + rest, table) == Some(
        (bytes_pieces(spec_xml_of_event(e, preserve)) + p, b.len() + n),
    ))
}

/// A non-empty START_TAG event round-trips: its start token consumes the
/// attribute run and pushes the name on the element stack.
#[verifier::rlimit(100)]
proof fn lemma_event_roundtrip_starttag_open(
    e: XmlEvent,
    table: InternTable,
    open: Seq<Seq<char>>,
    preserve: bool,
    rest: Seq<u8>,
)
    requires
        table_wf(table),
        table_utf8(table),
        open_in_table(open, table),
        e matches XmlEvent::StartTag { empty, .. } && !empty,
        spec_ser_event(e, table, open, preserve) is Some,
        rest.len() > 0,
        spec_command(rest[0]) != ATTRIBUTE,
    ensures
        event_roundtrip_post(e, table, open, preserve, rest),
{
    reveal(spec_ser_event);
    if let XmlEvent::StartTag { name, attrs, empty } = e {
        let nb = encode_utf8(name@);
        let t1 = spec_iutf_table(table, nb);
        lemma_iutf_table_wf(table, nb);
        let head = seq![(START_TAG + TYPE_STRING_INTERNED) as u8] + spec_iutf_bytes(table, nb);
        if let Some((ab, t2)) = spec_ser_attrs(attrs@, t1) {
            let b = head + ab;
            let s = b + rest;
            assert(s[0] == (START_TAG + TYPE_STRING_INTERNED) as u8);
            assert(spec_command(s[0]) == START_TAG);
            let body = s.skip(1);
            assert(body =~= spec_iutf_bytes(table, nb) + (ab + rest));
            lemma_take_iutf_of_iutf(table, nb, ab + rest);
            assert(body.skip(spec_iutf_bytes(table, nb).len() as int) =~= ab + rest);
            lemma_attrs_roundtrip(attrs@, t1, rest);
            if let Some((p, n)) = spec_doc(rest, t2) {
                assert(spec_token(s, table) == Some(
                    (
                        bytes_pieces(seq![60u8] + nb) + bytes_pieces(spec_xml_of_attrs(attrs@))
                            + bytes_pieces(seq![62u8]),
                        t2,
                        b.len() as int,
                        false,
                    ),
                )) by {
                    reveal(spec_token);
                }
                crate::deserializer::lemma_token_bounds(s, table);
                assert(s.skip(b.len() as int) =~= rest);
                assert(spec_doc(s, table) == Some(
                    (
                        (bytes_pieces(seq![60u8] + nb) + bytes_pieces(spec_xml_of_attrs(attrs@))
                            + bytes_pieces(seq![62u8])) + p,
                        b.len() + n,
                    ),
                ));
                lemma_bytes_pieces_concat(seq![60u8] + nb, spec_xml_of_attrs(attrs@));
                lemma_bytes_pieces_concat(
                    (seq![60u8] + nb) + spec_xml_of_attrs(attrs@),
                    seq![62u8],
                );
                assert(spec_xml_of_event(e, preserve) =~= ((seq![60u8] + nb) + spec_xml_of_attrs(
                    attrs@,
                )) + seq![62u8]);
                assert(bytes_pieces(spec_xml_of_event(e, preserve)) + p =~= (bytes_pieces(
                    seq![60u8] + nb,
                ) + bytes_pieces(spec_xml_of_attrs(attrs@)) + bytes_pieces(seq![62u8])) + p);
            }
            assert forall|i: int| 0 <= i < open.push(name@).len() implies t2.contains(
                encode_utf8(#[trigger] open.push(name@)[i]),
            ) by {
                if i < open.len() {
                    crate::wire::lemma_table_grows(table, t2, encode_utf8(open[i]));
                } else {
                    assert(open.push(name@)[i] == name@);
                    assert(t1.contains(nb)) by {
                        if table_index_of(table, nb) >= 0 {
                            assert(table.contains(nb));
                        } else {
                            assert(t1[t1.len() - 1] == nb);
                        }
                    }
                    crate::wire::lemma_table_grows(t1, t2, nb);
                }
            }
        }
    }
}

/// An empty-element START_TAG event round-trips: the start token with its
/// attribute run, then the closing token for the same name.
#[verifier::rlimit(100)]
proof fn lemma_event_roundtrip_starttag_empty(
    e: XmlEvent,
    table: InternTable,
    open: Seq<Seq<char>>,
    preserve: bool,
    rest: Seq<u8>,
)
    requires
        table_wf(table),
        table_utf8(table),
        open_in_table(open, table),
        e matches XmlEvent::StartTag { empty, .. } && empty,
        spec_ser_event(e, table, open, preserve) is Some,
        rest.len() > 0,
        spec_command(rest[0]) != ATTRIBUTE,
    ensures
        event_roundtrip_post(e, table, open, preserve, rest),
{
    reveal(spec_ser_event);
    if let XmlEvent::StartTag { name, attrs, empty } = e {
        let nb = encode_utf8(name@);
        let t1 = spec_iutf_table(table, nb);
        lemma_iutf_table_wf(table, nb);
        let head = seq![(START_TAG + TYPE_STRING_INTERNED) as u8] + spec_iutf_bytes(table, nb);
        if let Some((ab, t2)) = spec_ser_attrs(attrs@, t1) {
            let endb = seq![(END_TAG + TYPE_STRING_INTERNED) as u8] + spec_iutf_bytes(t2, nb);
            let b = head + ab + endb;
            let s = b + rest;
            if let Some((bb, tt, oo)) = spec_ser_event(e, table, open, preserve) {
                assert(bb =~= b);
            }
            assert(t1.contains(nb)) by {
                if table_index_of(table, nb) >= 0 {
                    assert(table.contains(nb));
                } else {
                    assert(t1[t1.len() - 1] == nb);
                }
            }
            lemma_attrs_roundtrip(attrs@, t1, endb + rest);
            crate::wire::lemma_table_grows(t1, t2, nb);
            assert(spec_iutf_ok(t2, nb));
            lemma_iutf_table_wf(t2, nb);
            let t3 = spec_iutf_table(t2, nb);
            assert(t3 == t2);
            assert(s[0] == (START_TAG + TYPE_STRING_INTERNED) as u8);
            assert(spec_command(s[0]) == START_TAG);
            let body = s.skip(1);
            assert(body =~= spec_iutf_bytes(table, nb) + (ab + (endb + rest)));
            lemma_take_iutf_of_iutf(table, nb, ab + (endb + rest));
            assert(body.skip(spec_iutf_bytes(table, nb).len() as int) =~= ab + (endb + rest));
            assert(endb.len() > 0 && spec_command(endb[0]) == END_TAG);
            if let Some((p, n)) = spec_doc(rest, t2) {
                // The end token parses against t2 and continues into rest.
                let s2 = endb + rest;
                assert(spec_command(s2[0]) == END_TAG);
                let body2 = s2.skip(1);
                assert(body2 =~= spec_iutf_bytes(t2, nb) + rest);
                lemma_take_iutf_of_iutf(t2, nb, rest);
                assert(spec_token(s2, t2) == Some(
                    (
                        bytes_pieces(seq![60u8, 47u8] + nb + seq![62u8]),
                        t2,
                        endb.len() as int,
                        false,
                    ),
                )) by {
                    reveal(spec_token);
                }
                crate::deserializer::lemma_token_bounds(s2, t2);
                assert(s2.skip(endb.len() as int) =~= rest);
                assert(spec_doc(s2, t2) == Some(
                    (bytes_pieces(seq![60u8, 47u8] + nb + seq![62u8]) + p, endb.len() + n),
                ));
                // The start token consumes head + ab and continues into s2.
                assert(spec_token(s, table) == Some(
                    (
                        bytes_pieces(seq![60u8] + nb) + bytes_pieces(spec_xml_of_attrs(attrs@))
                            + bytes_pieces(seq![62u8]),
                        t2,
                        (head.len() + ab.len()) as int,
                        false,
                    ),
                )) by {
                    reveal(spec_token);
                }
                crate::deserializer::lemma_token_bounds(s, table);
                assert(s.skip((head.len() + ab.len()) as int) =~= s2);
                assert(spec_doc(s, table) == Some(
                    (
                        (bytes_pieces(seq![60u8] + nb) + bytes_pieces(spec_xml_of_attrs(attrs@))
                            + bytes_pieces(seq![62u8])) + (bytes_pieces(
                            seq![60u8, 47u8] + nb + seq![62u8],
                        ) + p),
                        (head.len() + ab.len()) + (endb.len() + n),
                    ),
                ));
                lemma_bytes_pieces_concat(seq![60u8] + nb, spec_xml_of_attrs(attrs@));
                lemma_bytes_pieces_concat(
                    (seq![60u8] + nb) + spec_xml_of_attrs(attrs@),
                    seq![62u8],
                );
                let headxml = (seq![60u8] + nb + spec_xml_of_attrs(attrs@) + seq![62u8]);
                lemma_bytes_pieces_concat(headxml, seq![60u8, 47u8] + nb + seq![62u8]);
                assert(spec_xml_of_event(e, preserve) =~= headxml + (seq![60u8, 47u8] + nb + seq![
                    62u8,
                ]));
                assert(bytes_pieces(spec_xml_of_event(e, preserve)) + p =~= (bytes_pieces(
                    seq![60u8] + nb,
                ) + bytes_pieces(spec_xml_of_attrs(attrs@)) + bytes_pieces(seq![62u8])) + (
                bytes_pieces(seq![60u8, 47u8] + nb + seq![62u8]) + p));
                assert(b.len() == (head.len() + ab.len()) + endb.len());
            }
            assert forall|i: int| 0 <= i < open.len() implies t2.contains(
                encode_utf8(#[trigger] open[i]),
            ) by {
                crate::wire::lemma_table_grows(table, t2, encode_utf8(open[i]));
            }
        }
    }
}

/// Every event other than START_TAG round-trips in one token (or none).
#[verifier::rlimit(100)]
proof fn lemma_event_roundtrip_other(
    e: XmlEvent,
    table: InternTable,
    open: Seq<Seq<char>>,
    preserve: bool,
    rest: Seq<u8>,
)
    requires
        table_wf(table),
        table_utf8(table),
        open_in_table(open, table),
        !(e is StartTag),
        spec_ser_event(e, table, open, preserve) is Some,
        rest.len() > 0,
        spec_command(rest[0]) != ATTRIBUTE,
    ensures
        event_roundtrip_post(e, table, open, preserve, rest),
{
    reveal(spec_ser_event);
    reveal(spec_token);
    if let Some((b, t2, open2)) = spec_ser_event(e, table, open, preserve) {
        match e {
            XmlEvent::StartTag { .. } => {},
            XmlEvent::EndTag { name } => {
                let nb = encode_utf8(name@);
                assert(table.contains(nb));
                assert(spec_iutf_ok(table, nb));
                lemma_iutf_table_wf(table, nb);
                if let Some((p, n)) = spec_doc(rest, t2) {
                    let s = b + rest;
                    assert(s[0] == (END_TAG + TYPE_STRING_INTERNED) as u8);
                    assert(spec_command(s[0]) == END_TAG);
                    let body = s.skip(1);
                    assert(body =~= spec_iutf_bytes(table, nb) + rest);
                    lemma_take_iutf_of_iutf(table, nb, rest);
                    assert(spec_token(s, table) == Some(
                        (
                            bytes_pieces(seq![60u8, 47u8] + nb + seq![62u8]),
                            t2,
                            b.len() as int,
                            false,
                        ),
                    ));
                    crate::deserializer::lemma_token_bounds(s, table);
                    assert(s.skip(b.len() as int) =~= rest);
                }
            },
            XmlEvent::Text { text } => {
                let tb = encode_utf8(text@);
                if crate::type_detection::spec_is_ws_only(tb) && !preserve {
                    if let Some((p, n)) = spec_doc(rest, t2) {
                        assert(b + rest =~= rest);
                        assert(bytes_pieces(spec_xml_of_event(e, preserve)) + p =~= p);
                    }
                } else {
                    let cmd: u8 = if crate::type_detection::spec_is_ws_only(tb) {
                        IGNORABLE_WHITESPACE
                    } else {
                        TEXT
                    };
                    lemma_single_text_token(cmd, tb, table, rest, t2);
                    if let Some((p, n)) = spec_doc(rest, t2) {
                        let s = b + rest;
                        assert(s =~= (seq![(cmd + TYPE_STRING) as u8] + spec_utf(tb)) + rest);
                    }
                }
            },
            XmlEvent::CData { text } => {
                lemma_single_text_token(CDSECT, encode_utf8(text@), table, rest, t2);
            },
            XmlEvent::Comment { text } => {
                lemma_single_text_token(COMMENT, encode_utf8(text@), table, rest, t2);
            },
            XmlEvent::ProcessingInstruction { target, data } => {
                let payload = spec_pi_text(
                    target@,
                    match data {
                        Some(d) => Some(d@),
                        None => None,
                    },
                );
                lemma_single_text_token(
                    PROCESSING_INSTRUCTION,
                    encode_utf8(payload),
                    table,
                    rest,
                    t2,
                );
            },
            XmlEvent::DocType { text } => {
                lemma_single_text_token(DOCDECL, encode_utf8(text@), table, rest, t2);
            },
            XmlEvent::EntityRef { name } => {
                lemma_single_text_token(ENTITY_REF, encode_utf8(name@), table, rest, t2);
            },
            XmlEvent::Declaration { .. } => {
                if let Some((p, n)) = spec_doc(rest, t2) {
                    assert(b + rest =~= rest);
                    assert(bytes_pieces(spec_xml_of_event(e, preserve)) + p =~= p);
                }
            },
        }
    }
}

/// A token with a TYPE_STRING text payload parses in one step and renders
/// its command's XML wrapper around the payload.
#[verifier::rlimit(100)]
proof fn lemma_single_text_token(
    cmd: u8,
    tb: Seq<u8>,
    table: InternTable,
    rest: Seq<u8>,
    t2: InternTable,
)
    requires
        cmd == TEXT || cmd == CDSECT || cmd == COMMENT || cmd == PROCESSING_INSTRUCTION || cmd
            == DOCDECL || cmd == ENTITY_REF || cmd == IGNORABLE_WHITESPACE,
        tb.len() <= 65535,
        valid_utf8(tb),
        t2 == table,
    ensures
        spec_doc(rest, t2) matches Some((p, n)) ==> spec_doc(
            (seq![(cmd + TYPE_STRING) as u8] + spec_utf(tb)) + rest,
            table,
        ) == Some(
            (
                bytes_pieces(spec_text_token_xml(cmd, tb)) + p,
                (seq![(cmd + TYPE_STRING) as u8] + spec_utf(tb)).len() + n,
            ),
        ),
{
    if let Some((p, n)) = spec_doc(rest, t2) {
        let b = seq![(cmd + TYPE_STRING) as u8] + spec_utf(tb);
        let s = b + rest;
        assert(s[0] == (cmd + TYPE_STRING) as u8);
        assert(spec_command(s[0]) == cmd);
        assert(spec_type_info(s[0]) == TYPE_STRING);
        let body = s.skip(1);
        assert(body =~= spec_utf(tb) + rest);
        lemma_take_utf_of_utf(tb, rest);
        let expected = Some(
            (bytes_pieces(spec_text_token_xml(cmd, tb)), table, b.len() as int, false),
        );
        if cmd == TEXT {
            assert(spec_token(s, table) == expected) by {
                reveal(spec_token);
            }
        } else if cmd == CDSECT {
            assert(spec_token(s, table) == expected) by {
                reveal(spec_token);
            }
        } else if cmd == COMMENT {
            assert(spec_token(s, table) == expected) by {
                reveal(spec_token);
            }
        } else if cmd == PROCESSING_INSTRUCTION {
            assert(spec_token(s, table) == expected) by {
                reveal(spec_token);
            }
        } else if cmd == DOCDECL {
            assert(spec_token(s, table) == expected) by {
                reveal(spec_token);
            }
        } else if cmd == ENTITY_REF {
            assert(spec_token(s, table) == expected) by {
                reveal(spec_token);
            }
        } else {
            assert(spec_token(s, table) == expected) by {
                reveal(spec_token);
            }
        }
        crate::deserializer::lemma_token_bounds(s, table);
        assert(s.skip(b.len() as int) =~= rest);
    }
}

/// The XML wrapper each text-carrying command renders around its payload.
pub open spec fn spec_text_token_xml(cmd: u8, tb: Seq<u8>) -> Seq<u8> {
    if cmd == TEXT {
        spec_escape(tb)
    } else if cmd == CDSECT {
        encode_utf8("<![CDATA["@) + tb + encode_utf8("]]>"@)
    } else if cmd == COMMENT {
        encode_utf8("<!--"@) + tb + encode_utf8("-->"@)
    } else if cmd == PROCESSING_INSTRUCTION {
        encode_utf8("<?"@) + tb + encode_utf8("?>"@)
    } else if cmd == DOCDECL {
        encode_utf8("<!DOCTYPE "@) + tb + encode_utf8(">"@)
    } else if cmd == ENTITY_REF {
        encode_utf8("&"@) + tb + encode_utf8(";"@)
    } else {
        tb
    }
}

/// One event round-trips.
pub proof fn lemma_event_roundtrip(
    e: XmlEvent,
    table: InternTable,
    open: Seq<Seq<char>>,
    preserve: bool,
    rest: Seq<u8>,
)
    requires
        table_wf(table),
        table_utf8(table),
        open_in_table(open, table),
        spec_ser_event(e, table, open, preserve) is Some,
        rest.len() > 0,
        spec_command(rest[0]) != ATTRIBUTE,
    ensures
        event_roundtrip_post(e, table, open, preserve, rest),
{
    if let XmlEvent::StartTag { empty, .. } = e {
        if empty {
            lemma_event_roundtrip_starttag_empty(e, table, open, preserve, rest);
        } else {
            lemma_event_roundtrip_starttag_open(e, table, open, preserve, rest);
        }
    } else {
        lemma_event_roundtrip_other(e, table, open, preserve, rest);
    }
}

// ============================================================================
// A whole event list round-trips
// ============================================================================

/// What the writer emits for an event list, followed by any well-formed
/// continuation, deserializes to the list's XML text followed by the
/// continuation's; the reader's table tracks the writer's throughout.
#[verifier::rlimit(100)]
pub proof fn lemma_events_roundtrip(
    events: Seq<XmlEvent>,
    table: InternTable,
    open: Seq<Seq<char>>,
    preserve: bool,
    rest: Seq<u8>,
)
    requires
        table_wf(table),
        table_utf8(table),
        open_in_table(open, table),
        spec_ser_events(events, table, open, preserve) is Some,
        rest.len() > 0,
        spec_command(rest[0]) != ATTRIBUTE,
    ensures
        spec_ser_events(events, table, open, preserve) matches Some((b, t2, open2)) && table_wf(
            t2,
        ) && table_utf8(t2) && open_in_table(open2, t2) && (spec_doc(rest, t2) matches Some(
            (p, n),
        ) ==> spec_doc(b + rest, table) == Some(
            (bytes_pieces(spec_xml_of_events(events, preserve)) + p, b.len() + n),
        )),
    decreases events.len(),
{
    if events.len() == 0 {
        if let Some((b, t2, open2)) = spec_ser_events(events, table, open, preserve) {
            if let Some((p, n)) = spec_doc(rest, t2) {
                assert(b + rest =~= rest);
                assert(bytes_pieces(spec_xml_of_events(events, preserve)) + p =~= p);
            }
        }
    } else {
        let e0 = events[0];
        if let Some((b1, t1, o1)) = spec_ser_event(e0, table, open, preserve) {
            // First pass for the table facts alone.
            lemma_event_roundtrip(e0, table, open, preserve, rest);
            lemma_events_roundtrip(events.drop_first(), t1, o1, preserve, rest);
            if let Some((b2, t2, o2)) = spec_ser_events(events.drop_first(), t1, o1, preserve) {
                lemma_ser_events_first_byte(events.drop_first(), t1, o1, preserve);
                let cont = b2 + rest;
                assert(cont.len() > 0 && spec_command(cont[0]) != ATTRIBUTE) by {
                    if b2.len() > 0 {
                        assert(cont[0] == b2[0]);
                    } else {
                        assert(cont =~= rest);
                    }
                }
                lemma_event_roundtrip(e0, table, open, preserve, cont);
                if let Some((b, tf, of)) = spec_ser_events(events, table, open, preserve) {
                    assert(b =~= b1 + b2);
                    if let Some((p, n)) = spec_doc(rest, tf) {
                        // Compose: the tail events, then the head event.
                        assert(spec_doc(b2 + rest, t1) == Some(
                            (
                                bytes_pieces(spec_xml_of_events(events.drop_first(), preserve))
                                    + p,
                                b2.len() + n,
                            ),
                        ));
                        assert(spec_doc(b1 + cont, table) == Some(
                            (
                                bytes_pieces(spec_xml_of_event(e0, preserve)) + (bytes_pieces(
                                    spec_xml_of_events(events.drop_first(), preserve),
                                ) + p),
                                b1.len() + (b2.len() + n),
                            ),
                        ));
                        assert(b + rest =~= b1 + cont);
                        lemma_bytes_pieces_concat(
                            spec_xml_of_event(e0, preserve),
                            spec_xml_of_events(events.drop_first(), preserve),
                        );
                        assert(bytes_pieces(spec_xml_of_events(events, preserve)) + p
                            =~= bytes_pieces(spec_xml_of_event(e0, preserve)) + (bytes_pieces(
                            spec_xml_of_events(events.drop_first(), preserve),
                        ) + p));
                        assert(b.len() + n == b1.len() + (b2.len() + n));
                    }
                }
            }
        }
    }
}

/// THE STRUCTURAL ROUND-TRIP. Serializing any event list that the
/// XML-to-ABX conversion accepts (well-nested, within the format's bounds)
/// and deserializing the resulting bytes yields exactly the XML
/// declaration followed by the XML text of those events: the same element
/// nesting, the same attribute names and textual values, the same
/// CDATA/comment/PI/DOCTYPE content. In particular the k-th distinct
/// string the writer interned is read back from the reader's table at
/// index k, since the tables stay equal throughout.
pub proof fn lemma_serialize_deserialize_roundtrip(events: Seq<XmlEvent>, preserve: bool)
    requires
        spec_ser_events(events, Seq::empty(), Seq::empty(), preserve) matches Some(
            (b, t, open),
        ) && open.len() == 0,
    ensures
        spec_ser_events(events, Seq::empty(), Seq::empty(), preserve) matches Some((b, t, open))
            && spec_deserialize(
            crate::spec_magic() + seq![(START_DOCUMENT + TYPE_NULL) as u8] + b + seq![(END_DOCUMENT
                + TYPE_NULL) as u8],
        ) == Some(
            bytes_pieces(spec_xml_decl() + spec_xml_of_events(events, preserve)),
        ),
{
    reveal(spec_token);
    if let Some((b, t, open)) = spec_ser_events(events, Seq::empty(), Seq::empty(), preserve) {
        let sdoc = seq![(START_DOCUMENT + TYPE_NULL) as u8];
        let edoc = seq![(END_DOCUMENT + TYPE_NULL) as u8];
        let stream = crate::spec_magic() + sdoc + b + edoc;
        assert(stream.subrange(0, 4) =~= crate::spec_magic());
        assert(stream.len() >= 4);
        let toks = stream.skip(4);
        assert(toks =~= sdoc + (b + edoc));
        // END_DOCUMENT terminates.
        assert(spec_command(edoc[0]) == END_DOCUMENT);
        assert(spec_token(edoc, t) == Some((Seq::<OutPiece>::empty(), t, 1int, true)));
        assert(spec_doc(edoc, t) == Some((Seq::<OutPiece>::empty(), 1int)));
        // The serialized events compose with that terminator.
        lemma_events_roundtrip(events, Seq::empty(), Seq::empty(), preserve, edoc);
        assert(spec_doc(b + edoc, Seq::empty()) == Some(
            (
                bytes_pieces(spec_xml_of_events(events, preserve)) + Seq::<OutPiece>::empty(),
                (b.len() + 1) as int,
            ),
        ));
        // START_DOCUMENT opens.
        assert(toks[0] == (START_DOCUMENT + TYPE_NULL) as u8);
        assert(spec_command(toks[0]) == START_DOCUMENT);
        assert(spec_token(toks, Seq::empty()) == Some(
            (Seq::<OutPiece>::empty(), Seq::<Seq<u8>>::empty(), 1int, false),
        ));
        assert(toks.skip(1) =~= b + edoc);
        assert(spec_doc(toks, Seq::empty()) == Some(
            (
                Seq::<OutPiece>::empty() + (bytes_pieces(spec_xml_of_events(events, preserve))
                    + Seq::<OutPiece>::empty()),
                (1 + (b.len() + 1)) as int,
            ),
        ));
        lemma_bytes_pieces_concat(spec_xml_decl(), spec_xml_of_events(events, preserve));
        assert(bytes_pieces(spec_xml_decl()) + (Seq::<OutPiece>::empty() + (bytes_pieces(
            spec_xml_of_events(events, preserve),
        ) + Seq::<OutPiece>::empty())) =~= bytes_pieces(
            spec_xml_decl() + spec_xml_of_events(events, preserve),
        ));
    }
}

// ============================================================================
// The XML text of any event list is well-formed UTF-8
// ============================================================================

/// One attribute's XML text is valid UTF-8.
proof fn lemma_xml_of_attr_valid(name: Seq<char>, value: Seq<char>)
    ensures
        valid_utf8(spec_xml_of_attr(name, value)),
{
    crate::render::lemma_ascii_seq_valid_utf8(seq![32u8]);
    crate::render::lemma_ascii_seq_valid_utf8(seq![61u8, 34u8]);
    crate::render::lemma_ascii_seq_valid_utf8(seq![34u8]);
    match spec_infer(value) {
        InferredKind::BooleanTrue => {},
        InferredKind::BooleanFalse => {},
        _ => {
            crate::render::lemma_escape_valid_utf8(encode_utf8(value));
        },
    }
    assert(valid_utf8(seq![32u8] + encode_utf8(name)));
    assert(valid_utf8(seq![32u8] + encode_utf8(name) + seq![61u8, 34u8]));
    assert(valid_utf8(
        seq![32u8] + encode_utf8(name) + seq![61u8, 34u8] + spec_xml_of_attr_value(value),
    ));
    assert(valid_utf8(spec_xml_of_attr(name, value)));
}

/// An attribute list's XML text is valid UTF-8.
proof fn lemma_xml_of_attrs_valid(attrs: Seq<(String, String)>)
    ensures
        valid_utf8(spec_xml_of_attrs(attrs)),
    decreases attrs.len(),
{
    if attrs.len() == 0 {
        crate::render::lemma_ascii_seq_valid_utf8(Seq::<u8>::empty());
        assert(spec_xml_of_attrs(attrs) =~= Seq::<u8>::empty());
    } else {
        lemma_xml_of_attr_valid(attrs[0].0@, attrs[0].1@);
        lemma_xml_of_attrs_valid(attrs.drop_first());
    }
}

/// One event's XML text is valid UTF-8.
#[verifier::rlimit(100)]
proof fn lemma_xml_of_event_valid(e: XmlEvent, preserve: bool)
    ensures
        valid_utf8(spec_xml_of_event(e, preserve)),
{
    crate::render::lemma_ascii_seq_valid_utf8(Seq::<u8>::empty());
    crate::render::lemma_ascii_seq_valid_utf8(seq![60u8]);
    crate::render::lemma_ascii_seq_valid_utf8(seq![62u8]);
    crate::render::lemma_ascii_seq_valid_utf8(seq![60u8, 47u8]);
    match e {
        XmlEvent::StartTag { name, attrs, empty } => {
            lemma_xml_of_attrs_valid(attrs@);
            assert(valid_utf8(seq![60u8] + encode_utf8(name@)));
            assert(valid_utf8(seq![60u8] + encode_utf8(name@) + spec_xml_of_attrs(attrs@)));
            let head = seq![60u8] + encode_utf8(name@) + spec_xml_of_attrs(attrs@) + seq![62u8];
            assert(valid_utf8(head));
            if empty {
                assert(valid_utf8(head + seq![60u8, 47u8]));
                assert(valid_utf8(head + seq![60u8, 47u8] + encode_utf8(name@)));
                assert(valid_utf8(head + seq![60u8, 47u8] + encode_utf8(name@) + seq![62u8]));
            }
        },
        XmlEvent::EndTag { name } => {
            assert(valid_utf8(seq![60u8, 47u8] + encode_utf8(name@)));
            assert(valid_utf8(seq![60u8, 47u8] + encode_utf8(name@) + seq![62u8]));
        },
        XmlEvent::Text { text } => {
            crate::render::lemma_escape_valid_utf8(encode_utf8(text@));
        },
        XmlEvent::CData { text } => {
            assert(valid_utf8(encode_utf8("<![CDATA["@) + encode_utf8(text@)));
            assert(valid_utf8(
                encode_utf8("<![CDATA["@) + encode_utf8(text@) + encode_utf8("]]>"@),
            ));
        },
        XmlEvent::Comment { text } => {
            assert(valid_utf8(encode_utf8("<!--"@) + encode_utf8(text@)));
            assert(valid_utf8(encode_utf8("<!--"@) + encode_utf8(text@) + encode_utf8("-->"@)));
        },
        XmlEvent::ProcessingInstruction { target, data } => {
            let payload = spec_pi_text(
                target@,
                match data {
                    Some(d) => Some(d@),
                    None => None,
                },
            );
            assert(valid_utf8(encode_utf8("<?"@) + encode_utf8(payload)));
            assert(valid_utf8(encode_utf8("<?"@) + encode_utf8(payload) + encode_utf8("?>"@)));
        },
        XmlEvent::DocType { text } => {
            assert(valid_utf8(encode_utf8("<!DOCTYPE "@) + encode_utf8(text@)));
            assert(valid_utf8(
                encode_utf8("<!DOCTYPE "@) + encode_utf8(text@) + encode_utf8(">"@),
            ));
        },
        XmlEvent::EntityRef { name } => {
            assert(valid_utf8(encode_utf8("&"@) + encode_utf8(name@)));
            assert(valid_utf8(encode_utf8("&"@) + encode_utf8(name@) + encode_utf8(";"@)));
        },
        XmlEvent::Declaration { .. } => {},
    }
}

/// An event list's XML text is valid UTF-8.
pub proof fn lemma_xml_of_events_valid(events: Seq<XmlEvent>, preserve: bool)
    ensures
        valid_utf8(spec_xml_of_events(events, preserve)),
    decreases events.len(),
{
    if events.len() == 0 {
        crate::render::lemma_ascii_seq_valid_utf8(Seq::<u8>::empty());
        assert(spec_xml_of_events(events, preserve) =~= Seq::<u8>::empty());
    } else {
        lemma_xml_of_event_valid(events[0], preserve);
        lemma_xml_of_events_valid(events.drop_first(), preserve);
    }
}

/// Every serialized document decodes. For any event list the conversion
/// accepts, the produced bytes deserialize to completion, the output is
/// all text (the event path never emits floating-point attributes), that
/// text is well-formed UTF-8, and it is exactly the XML declaration
/// followed by the XML text of the events. Together with the executable
/// contracts this says that `convert_events` followed by `convert_bytes`
/// always succeeds and returns that text.
pub proof fn lemma_serialized_documents_decode(events: Seq<XmlEvent>, preserve: bool)
    requires
        spec_ser_events(events, Seq::empty(), Seq::empty(), preserve) matches Some(
            (b, t, open),
        ) && open.len() == 0,
    ensures
        spec_ser_events(events, Seq::empty(), Seq::empty(), preserve) matches Some((b, t, open))
            && (spec_deserialize(
            crate::spec_magic() + seq![(START_DOCUMENT + TYPE_NULL) as u8] + b + seq![(END_DOCUMENT
                + TYPE_NULL) as u8],
        ) matches Some(p) && crate::deserializer::pieces_all_bytes(p)
            && crate::deserializer::pieces_to_bytes(p) == spec_xml_decl() + spec_xml_of_events(
            events,
            preserve,
        ) && valid_utf8(crate::deserializer::pieces_to_bytes(p))),
{
    lemma_serialize_deserialize_roundtrip(events, preserve);
    let text = spec_xml_decl() + spec_xml_of_events(events, preserve);
    let p = bytes_pieces(text);
    assert(crate::deserializer::pieces_all_bytes(p)) by {
        assert(forall|i: int| 0 <= i < p.len() ==> (#[trigger] p[i]) is Byte);
    }
    assert(crate::deserializer::pieces_to_bytes(p) =~= text);
    lemma_xml_of_events_valid(events, preserve);
    assert(valid_utf8(text));
}

} // verus!
