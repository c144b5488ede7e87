//! Small text tests that drive the attribute type-inference policy.

use vstd::prelude::*;
use vstd::utf8::{decode_utf8, encode_utf8};

verus! {

broadcast use vstd::utf8::group_utf8_lib;

/// Byte-for-byte equality of two slices.
pub(crate) fn bytes_eq(a: &[u8], b: &[u8]) -> (r: bool)
    ensures
        r <==> a@ == b@,
{
    if a.len() != b.len() {
        proof {
            assert(a@.len() != b@.len());
        }
        return false;
    }
    let mut i: usize = 0;
    while i < a.len()
        invariant
            0 <= i <= a@.len(),
            a@.len() == b@.len(),
            forall|j: int| 0 <= j < i ==> a@[j] == b@[j],
        decreases a@.len() - i,
    {
        if a[i] != b[i] {
            return false;
        }
        i += 1;
    }
    proof {
        assert(a@ =~= b@);
    }
    true
}

/// Checks whether a string is exactly `"true"` or `"false"`.
pub fn is_boolean(s: &str) -> (r: bool)
    ensures
        r <==> (s@ == "true"@ || s@ == "false"@),
{
    let r = bytes_eq(s.as_bytes(), "true".as_bytes()) || bytes_eq(s.as_bytes(), "false".as_bytes());
    proof {
        if encode_utf8(s@) == encode_utf8("true"@) {
            assert(decode_utf8(encode_utf8(s@)) == decode_utf8(encode_utf8("true"@)));
        }
        if encode_utf8(s@) == encode_utf8("false"@) {
            assert(decode_utf8(encode_utf8(s@)) == decode_utf8(encode_utf8("false"@)));
        }
    }
    r
}

/// A byte of XML whitespace: space, tab, line feed or carriage return.
pub open spec fn spec_is_ws_byte(b: u8) -> bool {
    b == 32 || b == 9 || b == 10 || b == 13
}

/// Whether a byte string consists of whitespace only.
pub open spec fn spec_is_ws_only(s: Seq<u8>) -> bool {
    forall|i: int| 0 <= i < s.len() ==> spec_is_ws_byte(#[trigger] s[i])
}

/// Checks whether a string contains only whitespace bytes.
pub fn is_whitespace_only(s: &str) -> (r: bool)
    ensures
        r <==> spec_is_ws_only(encode_utf8(s@)),
{
    let bytes = s.as_bytes();
    let mut i: usize = 0;
    while i < bytes.len()
        invariant
            0 <= i <= bytes@.len(),
            bytes@ == encode_utf8(s@),
            forall|j: int| 0 <= j < i ==> spec_is_ws_byte(#[trigger] bytes@[j]),
        decreases bytes@.len() - i,
    {
        let b = bytes[i];
        if !(b == 32 || b == 9 || b == 10 || b == 13) {
            return false;
        }
        i += 1;
    }
    true
}

} // verus!
