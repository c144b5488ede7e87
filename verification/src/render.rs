//! Textual rendering of attribute payloads, and XML entity escaping.
//!
//! The deserializer turns typed attribute payloads back into XML attribute
//! text: decimal for INT and LONG, bare lowercase hex for INT_HEX and
//! LONG_HEX, uppercase hex for BYTES_HEX, standard padded base64 for
//! BYTES_BASE64. The functions here define those renderings over sequences
//! of ASCII bytes and implement the integer ones; hex and base64 byte-array
//! encodings are computed by outside crates whose wrappers promise exactly
//! these sequences (see [`crate::codecs`]).

use vstd::prelude::*;
use crate::wire::{spec_i32_as_u32, spec_i64_as_u64};

verus! {

// ============================================================================
// Decimal rendering
// ============================================================================

/// The ASCII decimal digits of `n`, most significant first.
pub open spec fn spec_dec_nat(n: nat) -> Seq<u8>
    decreases n,
{
    if n < 10 {
        seq![(48 + n) as u8]
    } else {
        spec_dec_nat(n / 10) + seq![(48 + n % 10) as u8]
    }
}

/// The ASCII decimal rendering of a signed integer: a minus sign for
/// negative values, then the digits of the magnitude.
pub open spec fn spec_render_int(v: int) -> Seq<u8> {
    if v < 0 {
        seq![45u8] + spec_dec_nat((-v) as nat)
    } else {
        spec_dec_nat(v as nat)
    }
}

/// The ASCII decimal digits of `n`.
pub fn render_dec_u64(n: u64) -> (r: Vec<u8>)
    ensures
        r@ == spec_dec_nat(n as nat),
    decreases n,
{
    if n < 10 {
        let mut r: Vec<u8> = Vec::new();
        r.push(48 + n as u8);
        proof {
            assert(r@ =~= spec_dec_nat(n as nat));
        }
        r
    } else {
        let mut r = render_dec_u64(n / 10);
        r.push(48 + (n % 10) as u8);
        proof {
            assert(r@ =~= spec_dec_nat(n as nat));
        }
        r
    }
}

/// The decimal rendering of an `i32`, sign preserved.
pub fn render_i32(v: i32) -> (r: Vec<u8>)
    ensures
        r@ == spec_render_int(v as int),
{
    if v < 0 {
        let mag: u64 = (-(v as i64)) as u64;
        let mut r: Vec<u8> = Vec::new();
        r.push(45);
        let mut digits = render_dec_u64(mag);
        r.append(&mut digits);
        proof {
            assert(r@ =~= spec_render_int(v as int));
        }
        r
    } else {
        render_dec_u64(v as u64)
    }
}

/// The decimal rendering of an `i64`, sign preserved.
pub fn render_i64(v: i64) -> (r: Vec<u8>)
    ensures
        r@ == spec_render_int(v as int),
{
    if v < 0 {
        let mag: u64 = (-(v as i128)) as u64;
        let mut r: Vec<u8> = Vec::new();
        r.push(45);
        let mut digits = render_dec_u64(mag);
        r.append(&mut digits);
        proof {
            assert(r@ =~= spec_render_int(v as int));
        }
        r
    } else {
        render_dec_u64(v as u64)
    }
}

// ============================================================================
// Hexadecimal rendering of integers (lowercase, no prefix, no leading zeros)
// ============================================================================

/// The ASCII byte of one lowercase hexadecimal digit.
pub open spec fn spec_hex_digit(d: nat) -> u8
    recommends
        d < 16,
{
    if d < 10 {
        (48 + d) as u8
    } else {
        (87 + d) as u8
    }
}

/// The lowercase hexadecimal digits of `n`, most significant first.
pub open spec fn spec_hex_nat(n: nat) -> Seq<u8>
    decreases n,
{
    if n < 16 {
        seq![spec_hex_digit(n)]
    } else {
        spec_hex_nat(n / 16) + seq![spec_hex_digit(n % 16)]
    }
}

/// How an INT_HEX payload renders: `-1` stays literal (resolving the
/// ambiguity with 0xFFFFFFFF in favor of the signed reading), anything else
/// is the lowercase hex of the unsigned reinterpretation.
pub open spec fn spec_render_int_hex(v: i32) -> Seq<u8> {
    if v == -1 {
        seq![45u8, 49u8]
    } else {
        spec_hex_nat(spec_i32_as_u32(v) as nat)
    }
}

/// How a LONG_HEX payload renders; the same policy on 64 bits.
pub open spec fn spec_render_long_hex(v: i64) -> Seq<u8> {
    if v == -1 {
        seq![45u8, 49u8]
    } else {
        spec_hex_nat(spec_i64_as_u64(v) as nat)
    }
}

/// The lowercase hexadecimal digits of `n`.
pub fn render_hex_u64(n: u64) -> (r: Vec<u8>)
    ensures
        r@ == spec_hex_nat(n as nat),
    decreases n,
{
    if n < 16 {
        let mut r: Vec<u8> = Vec::new();
        let d: u8 = n as u8;
        if d < 10 {
            r.push(48 + d);
        } else {
            r.push(87 + d);
        }
        proof {
            assert(r@ =~= spec_hex_nat(n as nat));
        }
        r
    } else {
        let mut r = render_hex_u64(n / 16);
        let d: u8 = (n % 16) as u8;
        if d < 10 {
            r.push(48 + d);
        } else {
            r.push(87 + d);
        }
        proof {
            assert(r@ =~= spec_hex_nat(n as nat));
        }
        r
    }
}

// ============================================================================
// Hex and base64 renderings of byte arrays (computed by outside crates)
// ============================================================================

/// The ASCII byte of one uppercase hexadecimal digit.
pub open spec fn spec_hex_digit_upper(d: nat) -> u8
    recommends
        d < 16,
{
    if d < 10 {
        (48 + d) as u8
    } else {
        (55 + d) as u8
    }
}

/// Uppercase hex encoding of a byte array: two digits per byte, leading
/// zeroes kept, no separator and no prefix.
pub open spec fn spec_hex_upper(b: Seq<u8>) -> Seq<u8>
    decreases b.len(),
{
    if b.len() == 0 {
        Seq::empty()
    } else {
        seq![
            spec_hex_digit_upper(b[0] as nat / 16),
            spec_hex_digit_upper(b[0] as nat % 16),
        ] + spec_hex_upper(b.drop_first())
    }
}

/// The ASCII byte of one standard-alphabet base64 digit.
pub open spec fn spec_b64_digit(d: nat) -> u8
    recommends
        d < 64,
{
    if d < 26 {
        (65 + d) as u8  // 'A'..='Z'
    } else if d < 52 {
        (71 + d) as u8  // 'a'..='z'
    } else if d < 62 {
        (d - 4) as u8  // '0'..='9'
    } else if d == 62 {
        43u8  // '+'
    } else {
        47u8  // '/'
    }
}

/// Standard base64 encoding with padding, three input bytes at a time.
pub open spec fn spec_base64(b: Seq<u8>) -> Seq<u8>
    decreases b.len(),
{
    if b.len() == 0 {
        Seq::empty()
    } else if b.len() == 1 {
        let n = b[0] as nat * 0x10000;
        seq![spec_b64_digit(n / 0x40000), spec_b64_digit(n / 0x1000 % 64), 61u8, 61u8]
    } else if b.len() == 2 {
        let n = b[0] as nat * 0x10000 + b[1] as nat * 0x100;
        seq![
            spec_b64_digit(n / 0x40000),
            spec_b64_digit(n / 0x1000 % 64),
            spec_b64_digit(n / 0x40 % 64),
            61u8,
        ]
    } else {
        let n = b[0] as nat * 0x10000 + b[1] as nat * 0x100 + b[2] as nat;
        seq![
            spec_b64_digit(n / 0x40000),
            spec_b64_digit(n / 0x1000 % 64),
            spec_b64_digit(n / 0x40 % 64),
            spec_b64_digit(n % 64),
        ] + spec_base64(b.skip(3))
    }
}

// ============================================================================
// XML entity escaping
// ============================================================================

/// What one byte of text becomes in XML output: `&`, `<`, `>`, `"` and `'`
/// become entities, everything else (including UTF-8 continuation bytes,
/// which never collide with ASCII) passes through.
pub open spec fn spec_escape_byte(b: u8) -> Seq<u8> {
    if b == 38 {  // '&'
        seq![38u8, 97u8, 109u8, 112u8, 59u8]  // "&amp;"
    } else if b == 60 {  // '<'
        seq![38u8, 108u8, 116u8, 59u8]  // "&lt;"
    } else if b == 62 {  // '>'
        seq![38u8, 103u8, 116u8, 59u8]  // "&gt;"
    } else if b == 34 {  // '"'
        seq![38u8, 113u8, 117u8, 111u8, 116u8, 59u8]  // "&quot;"
    } else if b == 39 {  // '\''
        seq![38u8, 97u8, 112u8, 111u8, 115u8, 59u8]  // "&apos;"
    } else {
        seq![b]
    }
}

/// Whether a byte triggers escaping at all.
pub open spec fn spec_needs_escape(b: u8) -> bool {
    b == 38 || b == 60 || b == 62 || b == 34 || b == 39
}

/// The XML-escaped form of a byte string.
pub open spec fn spec_escape(s: Seq<u8>) -> Seq<u8>
    decreases s.len(),
{
    if s.len() == 0 {
        Seq::empty()
    } else {
        spec_escape_byte(s[0]) + spec_escape(s.drop_first())
    }
}

/// Escaping distributes over concatenation.
pub proof fn lemma_escape_concat(a: Seq<u8>, b: Seq<u8>)
    ensures
        spec_escape(a + b) == spec_escape(a) + spec_escape(b),
    decreases a.len(),
{
    if a.len() == 0 {
        assert(a + b =~= b);
        assert(spec_escape(a) + spec_escape(b) =~= spec_escape(b));
    } else {
        assert((a + b).drop_first() =~= a.drop_first() + b);
        lemma_escape_concat(a.drop_first(), b);
        assert(spec_escape(a + b) =~= spec_escape(a) + spec_escape(b));
    }
}

/// A string without escape-triggering bytes escapes to itself.
pub proof fn lemma_escape_id(s: Seq<u8>)
    requires
        forall|i: int| 0 <= i < s.len() ==> !spec_needs_escape(#[trigger] s[i]),
    ensures
        spec_escape(s) == s,
    decreases s.len(),
{
    if s.len() == 0 {
        assert(spec_escape(s) =~= s);
    } else {
        lemma_escape_id(s.drop_first());
        assert(spec_escape(s) =~= s);
    }
}

/// A sequence of ASCII bytes is valid UTF-8.
pub proof fn lemma_ascii_seq_valid_utf8(s: Seq<u8>)
    requires
        forall|i: int| 0 <= i < s.len() ==> #[trigger] s[i] < 0x80,
    ensures
        vstd::utf8::valid_utf8(s),
    decreases s.len(),
{
    if s.len() == 0 {
    } else {
        let b = s[0];
        assert(b & 0x7F == b && b & 0x7F < 0x80) by (bit_vector)
            requires
                b < 0x80,
        ;
        assert(vstd::utf8::valid_first_scalar(s));
        assert(vstd::utf8::length_of_first_scalar(s) == 1);
        assert(vstd::utf8::pop_first_scalar(s) =~= s.skip(1));
        lemma_ascii_seq_valid_utf8(s.skip(1));
    }
}

/// The escaped form of valid UTF-8 is valid UTF-8: escaping replaces ASCII
/// bytes by ASCII entities and leaves multi-byte encodings untouched.
#[verifier::rlimit(100)]
pub proof fn lemma_escape_valid_utf8(s: Seq<u8>)
    requires
        vstd::utf8::valid_utf8(s),
    ensures
        vstd::utf8::valid_utf8(spec_escape(s)),
    decreases s.len(),
{
    broadcast use vstd::utf8::group_utf8_lib;

    if s.len() == 0 {
    } else {
        let k = vstd::utf8::length_of_first_scalar(s);
        let head = vstd::utf8::take_first_scalar(s);
        let tail = vstd::utf8::pop_first_scalar(s);
        assert(1 <= k <= s.len());
        assert(s =~= head + tail);
        lemma_escape_concat(head, tail);
        lemma_escape_valid_utf8(tail);
        if k == 1 {
            assert(head =~= seq![s[0]]);
            reveal_with_fuel(spec_escape, 3);
            assert(head.drop_first() =~= Seq::<u8>::empty());
            assert(spec_escape(head) =~= spec_escape_byte(s[0]));
            assert(vstd::utf8::is_leading_byte_width_1(s[0]));
            assert forall|i: int|
                0 <= i < spec_escape_byte(s[0]).len() implies #[trigger] spec_escape_byte(
                s[0],
            )[i] < 0x80 by {}
            lemma_ascii_seq_valid_utf8(spec_escape(head));
        } else {
            // A multi-byte encoding holds no byte below 0x80, so escaping
            // leaves it untouched, and it is valid on its own.
            assert(head.len() == k);
            assert(vstd::utf8::valid_first_scalar(head)) by {
                assert(forall|i: int| 0 <= i < k ==> head[i] == s[i]);
            }
            assert(vstd::utf8::length_of_first_scalar(head) == k);
            assert(vstd::utf8::pop_first_scalar(head) =~= Seq::<u8>::empty());
            assert(vstd::utf8::valid_utf8(head)) by {
                reveal_with_fuel(vstd::utf8::valid_utf8, 3);
            }
            assert forall|i: int| 0 <= i < head.len() implies !spec_needs_escape(
                #[trigger] head[i],
            ) by {
                if i == 0 {
                    assert(head[0] == s[0] && s[0] >= 0xC0);
                } else {
                    assert(vstd::utf8::is_continuation_byte(head[i]));
                }
            }
            lemma_escape_id(head);
        }
        assert(vstd::utf8::valid_utf8(spec_escape(head) + spec_escape(tail)));
    }
}

/// Replaces `& < > " '` by their XML entities, byte by byte. When nothing in
/// the input needs escaping, the input is copied through unchanged.
#[verifier::rlimit(50)]
pub fn encode_xml_entities(text: &[u8]) -> (r: Vec<u8>)
    ensures
        r@ == spec_escape(text@),
{
    // Fast path: check whether escaping is needed at all.
    let mut needs: bool = false;
    let mut i: usize = 0;
    while i < text.len()
        invariant
            0 <= i <= text@.len(),
            needs <==> exists|j: int| 0 <= j < i && spec_needs_escape(#[trigger] text@[j]),
        decreases text@.len() - i,
    {
        let b = text[i];
        if b == 38 || b == 60 || b == 62 || b == 34 || b == 39 {
            needs = true;
        }
        i += 1;
    }
    if !needs {
        let r = vstd::slice::slice_to_vec(text);
        proof {
            lemma_escape_id(text@);
        }
        return r;
    }
    let mut r: Vec<u8> = Vec::new();
    let mut i: usize = 0;
    while i < text.len()
        invariant
            0 <= i <= text@.len(),
            r@ == spec_escape(text@.take(i as int)),
        decreases text@.len() - i,
    {
        let b = text[i];
        if b == 38 {
            r.push(38);
            r.push(97);
            r.push(109);
            r.push(112);
            r.push(59);
        } else if b == 60 {
            r.push(38);
            r.push(108);
            r.push(116);
            r.push(59);
        } else if b == 62 {
            r.push(38);
            r.push(103);
            r.push(116);
            r.push(59);
        } else if b == 34 {
            r.push(38);
            r.push(113);
            r.push(117);
            r.push(111);
            r.push(116);
            r.push(59);
        } else if b == 39 {
            r.push(38);
            r.push(97);
            r.push(112);
            r.push(111);
            r.push(115);
            r.push(59);
        } else {
            r.push(b);
        }
        proof {
            reveal_with_fuel(spec_escape, 3);
            assert(text@.take(i + 1) =~= text@.take(i as int) + seq![text@[i as int]]);
            lemma_escape_concat(text@.take(i as int), seq![text@[i as int]]);
            assert(seq![text@[i as int]].drop_first() =~= Seq::<u8>::empty());
            assert(spec_escape(seq![text@[i as int]]) =~= spec_escape_byte(text@[i as int]));
            assert(r@ =~= spec_escape(text@.take(i as int)) + spec_escape_byte(text@[i as int]));
        }
        i += 1;
    }
    proof {
        assert(text@.take(text@.len() as int) =~= text@);
    }
    r
}

} // verus!
