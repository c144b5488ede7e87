//! Byte-level model of the ABX wire format.
//!
//! Everything the codec writes or reads is described here as functions on
//! `Seq<u8>`: big-endian fixed-width integers, length-prefixed UTF-8 strings
//! ("utf"), and interned-string references ("iutf") together with the
//! document-local table they thread through the stream. The executable
//! writers and readers are verified against these functions.

use vstd::prelude::*;

verus! {

// ============================================================================
// Big-endian fixed-width integers
// ============================================================================

/// The two big-endian bytes of a `u16`.
pub open spec fn spec_be16(v: u16) -> Seq<u8> {
    seq![(v >> 8) as u8, v as u8]
}

/// The four big-endian bytes of a `u32`.
pub open spec fn spec_be32(v: u32) -> Seq<u8> {
    seq![(v >> 24) as u8, (v >> 16) as u8, (v >> 8) as u8, v as u8]
}

/// The eight big-endian bytes of a `u64`.
pub open spec fn spec_be64(v: u64) -> Seq<u8> {
    seq![
        (v >> 56) as u8,
        (v >> 48) as u8,
        (v >> 40) as u8,
        (v >> 32) as u8,
        (v >> 24) as u8,
        (v >> 16) as u8,
        (v >> 8) as u8,
        v as u8,
    ]
}

/// The `u16` read big-endian from two bytes.
pub open spec fn spec_val16(b0: u8, b1: u8) -> u16 {
    ((b0 as u16) << 8) | (b1 as u16)
}

/// The `u32` read big-endian from four bytes.
pub open spec fn spec_val32(b0: u8, b1: u8, b2: u8, b3: u8) -> u32 {
    ((b0 as u32) << 24) | ((b1 as u32) << 16) | ((b2 as u32) << 8) | (b3 as u32)
}

/// The `u64` read big-endian from eight bytes.
pub open spec fn spec_val64(
    b0: u8,
    b1: u8,
    b2: u8,
    b3: u8,
    b4: u8,
    b5: u8,
    b6: u8,
    b7: u8,
) -> u64 {
    ((b0 as u64) << 56) | ((b1 as u64) << 48) | ((b2 as u64) << 40) | ((b3 as u64) << 32) | ((
    b4 as u64) << 24) | ((b5 as u64) << 16) | ((b6 as u64) << 8) | (b7 as u64)
}

/// Reading back the two bytes of a `u16` yields the value again.
pub broadcast proof fn lemma_be16_roundtrip(v: u16)
    ensures
        #[trigger] spec_val16(spec_be16(v)[0], spec_be16(v)[1]) == v,
{
    let b0 = (v >> 8) as u8;
    let b1 = v as u8;
    assert(((b0 as u16) << 8) | (b1 as u16) == v) by (bit_vector)
        requires
            b0 == (v >> 8) as u8 && b1 == v as u8,
    ;
}

/// Reading back the four bytes of a `u32` yields the value again.
pub broadcast proof fn lemma_be32_roundtrip(v: u32)
    ensures
        #[trigger] spec_val32(spec_be32(v)[0], spec_be32(v)[1], spec_be32(v)[2], spec_be32(v)[3])
            == v,
{
    let b0 = (v >> 24) as u8;
    let b1 = (v >> 16) as u8;
    let b2 = (v >> 8) as u8;
    let b3 = v as u8;
    assert(((b0 as u32) << 24) | ((b1 as u32) << 16) | ((b2 as u32) << 8) | (b3 as u32) == v)
        by (bit_vector)
        requires
            b0 == (v >> 24) as u8 && b1 == (v >> 16) as u8 && b2 == (v >> 8) as u8 && b3 == v as u8,
    ;
}

/// Reading back the eight bytes of a `u64` yields the value again.
pub broadcast proof fn lemma_be64_roundtrip(v: u64)
    ensures
        #[trigger] spec_val64(
            spec_be64(v)[0],
            spec_be64(v)[1],
            spec_be64(v)[2],
            spec_be64(v)[3],
            spec_be64(v)[4],
            spec_be64(v)[5],
            spec_be64(v)[6],
            spec_be64(v)[7],
        ) == v,
{
    let b0 = (v >> 56) as u8;
    let b1 = (v >> 48) as u8;
    let b2 = (v >> 40) as u8;
    let b3 = (v >> 32) as u8;
    let b4 = (v >> 24) as u8;
    let b5 = (v >> 16) as u8;
    let b6 = (v >> 8) as u8;
    let b7 = v as u8;
    assert(((b0 as u64) << 56) | ((b1 as u64) << 48) | ((b2 as u64) << 40) | ((b3 as u64) << 32)
        | ((b4 as u64) << 24) | ((b5 as u64) << 16) | ((b6 as u64) << 8) | (b7 as u64) == v)
        by (bit_vector)
        requires
            b0 == (v >> 56) as u8 && b1 == (v >> 48) as u8 && b2 == (v >> 40) as u8 && b3 == (v
                >> 32) as u8 && b4 == (v >> 24) as u8 && b5 == (v >> 16) as u8 && b6 == (v
                >> 8) as u8 && b7 == v as u8,
    ;
}

// ============================================================================
// Two's-complement reinterpretations
// ============================================================================

/// The unsigned reinterpretation of an `i32`, written out arithmetically.
pub open spec fn spec_i32_as_u32(v: i32) -> u32 {
    if v >= 0 {
        v as u32
    } else {
        (v + 0x1_0000_0000) as u32
    }
}

/// The signed reinterpretation of a `u32`, written out arithmetically.
pub open spec fn spec_u32_as_i32(v: u32) -> i32 {
    if v < 0x8000_0000 {
        v as i32
    } else {
        (v - 0x1_0000_0000) as i32
    }
}

/// The unsigned reinterpretation of an `i64`.
pub open spec fn spec_i64_as_u64(v: i64) -> u64 {
    if v >= 0 {
        v as u64
    } else {
        (v + 0x1_0000_0000_0000_0000) as u64
    }
}

/// The signed reinterpretation of a `u64`.
pub open spec fn spec_u64_as_i64(v: u64) -> i64 {
    if v < 0x8000_0000_0000_0000 {
        v as i64
    } else {
        (v - 0x1_0000_0000_0000_0000) as i64
    }
}

// ============================================================================
// Length-prefixed strings ("utf") and interned references ("iutf")
// ============================================================================

/// The wire form of a length-prefixed string whose UTF-8 bytes are `sb`:
/// two big-endian length bytes followed by the bytes themselves.
pub open spec fn spec_utf(sb: Seq<u8>) -> Seq<u8>
    recommends
        sb.len() <= 65535,
{
    spec_be16(sb.len() as u16) + sb
}

/// The interning table as both sides of the codec model it: the UTF-8 byte
/// strings interned so far, in order of first occurrence.
pub type InternTable = Seq<Seq<u8>>;

/// The index of `sb` in the table, or -1 when it has not been interned yet.
pub open spec fn table_index_of(table: InternTable, sb: Seq<u8>) -> int {
    if table.contains(sb) {
        table.index_of(sb)
    } else {
        -1
    }
}

/// A well-formed interning table: within the capacity bound, every entry
/// short enough for a length prefix, and no entry repeated (a string is only
/// ever interned once, so an index determines a string and vice versa).
pub open spec fn table_wf(table: InternTable) -> bool {
    &&& table.len() <= 65534
    &&& forall|i: int| 0 <= i < table.len() ==> (#[trigger] table[i]).len() <= 65535
    &&& forall|i: int, j: int|
        0 <= i < j < table.len() ==> #[trigger] table[i] != #[trigger] table[j]
}

/// The bytes that the writer emits for an interned-string reference to `sb`:
/// the existing index, or the new-string marker followed by the string.
pub open spec fn spec_iutf_bytes(table: InternTable, sb: Seq<u8>) -> Seq<u8>
    recommends
        sb.len() <= 65535,
{
    let idx = table_index_of(table, sb);
    if idx >= 0 {
        spec_be16(idx as u16)
    } else {
        spec_be16(0xFFFF) + spec_utf(sb)
    }
}

/// The interning table after the writer has emitted a reference to `sb`.
pub open spec fn spec_iutf_table(table: InternTable, sb: Seq<u8>) -> InternTable {
    if table_index_of(table, sb) >= 0 {
        table
    } else {
        table.push(sb)
    }
}

/// Whether the writer can emit a reference to `sb` at all: either the string
/// is already interned, or it fits a length prefix and the table has room.
pub open spec fn spec_iutf_ok(table: InternTable, sb: Seq<u8>) -> bool {
    table_index_of(table, sb) >= 0 || (sb.len() <= 65535 && table.len() < 65534)
}

/// A table that extends another keeps everything the smaller one holds.
pub proof fn lemma_table_grows(t1: InternTable, t2: InternTable, x: Seq<u8>)
    requires
        t1.contains(x),
        t1.len() <= t2.len(),
        forall|i: int| 0 <= i < t1.len() ==> t2[i] == t1[i],
    ensures
        t2.contains(x),
{
    let j = choose|j: int| 0 <= j < t1.len() && t1[j] == x;
    assert(t2[j] == x);
}

// ============================================================================
// Reading the wire ("take" functions consume a prefix of the remaining bytes)
// ============================================================================

/// Reads a big-endian `u16` from the front of `rem`: the value and the
/// number of bytes consumed.
pub open spec fn spec_take16(rem: Seq<u8>) -> Option<(u16, int)> {
    if rem.len() < 2 {
        None
    } else {
        Some((spec_val16(rem[0], rem[1]), 2))
    }
}

/// Reads a big-endian `u32` from the front of `rem`.
pub open spec fn spec_take32(rem: Seq<u8>) -> Option<(u32, int)> {
    if rem.len() < 4 {
        None
    } else {
        Some((spec_val32(rem[0], rem[1], rem[2], rem[3]), 4))
    }
}

/// Reads a big-endian `u64` from the front of `rem`.
pub open spec fn spec_take64(rem: Seq<u8>) -> Option<(u64, int)> {
    if rem.len() < 8 {
        None
    } else {
        Some((spec_val64(rem[0], rem[1], rem[2], rem[3], rem[4], rem[5], rem[6], rem[7]), 8))
    }
}

/// Reads a length-prefixed string from the front of `rem`: its raw bytes and
/// the number of bytes consumed. `None` on a short read.
pub open spec fn spec_take_utf(rem: Seq<u8>) -> Option<(Seq<u8>, int)> {
    match spec_take16(rem) {
        None => None,
        Some((len, _)) => {
            if rem.len() < 2 + len {
                None
            } else {
                Some((rem.subrange(2, 2 + len as int), 2 + len as int))
            }
        },
    }
}

/// Reads an interned-string reference from the front of `rem`: the string's
/// bytes, the reader's table afterwards, and the number of bytes consumed.
/// `None` on a short read or an index at or past the end of the table.
pub open spec fn spec_take_iutf(rem: Seq<u8>, table: InternTable) -> Option<
    (Seq<u8>, InternTable, int),
> {
    match spec_take16(rem) {
        None => None,
        Some((idx, _)) => {
            if idx == 0xFFFF {
                match spec_take_utf(rem.skip(2)) {
                    None => None,
                    Some((sb, n)) => Some((sb, table.push(sb), 2 + n)),
                }
            } else if (idx as int) < table.len() {
                Some((table[idx as int], table, 2))
            } else {
                None
            }
        },
    }
}

// ============================================================================
// Round-trip lemmas: reading back what the writer emitted
// ============================================================================

/// Reading a `u16` from its own encoding followed by anything returns it.
pub proof fn lemma_take16_of_be16(v: u16, rest: Seq<u8>)
    ensures
        spec_take16(spec_be16(v) + rest) == Some((v, 2int)),
{
    let s = spec_be16(v) + rest;
    lemma_be16_roundtrip(v);
    assert(s[0] == spec_be16(v)[0] && s[1] == spec_be16(v)[1]);
}

/// Reading a length-prefixed string from its own encoding returns its bytes.
pub proof fn lemma_take_utf_of_utf(sb: Seq<u8>, rest: Seq<u8>)
    requires
        sb.len() <= 65535,
    ensures
        spec_take_utf(spec_utf(sb) + rest) == Some((sb, 2 + sb.len() as int)),
{
    let s = spec_utf(sb) + rest;
    assert(spec_be16(sb.len() as u16) + (sb + rest) =~= s);
    lemma_take16_of_be16(sb.len() as u16, sb + rest);
    assert(s.subrange(2, 2 + sb.len() as int) =~= sb);
}

/// Reading an interned reference from what the writer emitted for `sb`
/// returns `sb` and leaves the reader's table equal to the writer's.
pub proof fn lemma_take_iutf_of_iutf(table: InternTable, sb: Seq<u8>, rest: Seq<u8>)
    requires
        table_wf(table),
        spec_iutf_ok(table, sb),
    ensures
        spec_take_iutf(spec_iutf_bytes(table, sb) + rest, table) == Some(
            (sb, spec_iutf_table(table, sb), spec_iutf_bytes(table, sb).len() as int),
        ),
{
    let idx = table_index_of(table, sb);
    if idx >= 0 {
        assert(table.contains(sb));
        assert(idx < table.len() && table[idx] == sb);
        assert(idx < 65534);
        lemma_take16_of_be16(idx as u16, rest);
        assert(spec_be16(idx as u16) + rest =~= spec_iutf_bytes(table, sb) + rest);
        assert(idx as u16 != 0xFFFF);
        assert((idx as u16) as int == idx);
    } else {
        let s = spec_iutf_bytes(table, sb) + rest;
        assert(spec_be16(0xFFFF) + (spec_utf(sb) + rest) =~= s);
        lemma_take16_of_be16(0xFFFF, spec_utf(sb) + rest);
        assert(s.skip(2) =~= spec_utf(sb) + rest);
        lemma_take_utf_of_utf(sb, rest);
    }
}

} // verus!
