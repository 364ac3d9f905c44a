//! Byte-level model of the wire format, and the executable readers and
//! writers proved against it.
//!
//! All multi-byte integers on the wire are little-endian; text fields are
//! NUL-terminated byte strings. A reader takes the input buffer together
//! with a cursor position and, on success, returns the decoded value and
//! the position of the first byte it did not consume.

use vstd::bytes::*;
use vstd::prelude::*;
use vstd::slice::{slice_subrange, slice_to_vec};
use vstd::utf8::is_ascii_chars;

verus! {

/// A NUL-terminated string on the wire: one byte per character, then a
/// single zero byte. Characters above 0x7f are not representable this way
/// (the writers require ASCII), but the spec is total.
pub open spec fn spec_cstr_bytes(s: Seq<char>) -> Seq<u8> {
    s.map(|_i: int, c: char| c as u8) + seq![0u8]
}

/// A text field the wire format can carry faithfully: ASCII with no
/// embedded NUL byte.
pub open spec fn wire_text(s: Seq<char>) -> bool {
    is_ascii_chars(s) && forall|i: int| 0 <= i < s.len() ==> s[i] != '\0'
}

/// Reading a scalar or a fixed-size field fails (`None`) exactly when the
/// buffer holds fewer bytes than the field needs.
pub open spec fn spec_read_u16(b: Seq<u8>, pos: int) -> Option<(u16, int)> {
    if 0 <= pos && pos + 2 <= b.len() {
        Some((spec_u16_from_le_bytes(b.subrange(pos, pos + 2)), pos + 2))
    } else {
        None
    }
}

pub open spec fn spec_read_u64(b: Seq<u8>, pos: int) -> Option<(u64, int)> {
    if 0 <= pos && pos + 8 <= b.len() {
        Some((spec_u64_from_le_bytes(b.subrange(pos, pos + 8)), pos + 8))
    } else {
        None
    }
}

pub open spec fn spec_read_bytes(b: Seq<u8>, pos: int, n: int) -> Option<(Seq<u8>, int)> {
    if 0 <= pos && 0 <= n && pos + n <= b.len() {
        Some((b.subrange(pos, pos + n), pos + n))
    } else {
        None
    }
}

/// Reading a NUL-terminated string never fails: it takes bytes until the
/// first zero byte (consuming it) or until the end of the buffer.
pub open spec fn spec_read_cstr(b: Seq<u8>, pos: int) -> (Seq<char>, int)
    recommends
        0 <= pos <= b.len(),
    decreases b.len() - pos,
{
    if pos < 0 || pos >= b.len() {
        (Seq::empty(), b.len() as int)
    } else if b[pos] == 0 {
        (Seq::empty(), pos + 1)
    } else {
        let rest = spec_read_cstr(b, pos + 1);
        (seq![b[pos] as char] + rest.0, rest.1)
    }
}

/// A string read over a buffer whose tail holds no terminator consumes
/// the buffer to its end.
pub proof fn lemma_read_cstr_no_nul(b: Seq<u8>, pos: int)
    requires
        0 <= pos <= b.len(),
        forall|j: int| pos <= j < b.len() ==> b[j] != 0,
    ensures
        spec_read_cstr(b, pos).1 == b.len(),
    decreases b.len() - pos,
{
    if pos < b.len() {
        lemma_read_cstr_no_nul(b, pos + 1);
    }
}

/// A u16 read recovers what the little-endian encoding of `v` laid down.
pub proof fn lemma_read_u16_of_encoding(b: Seq<u8>, pos: int, v: u16)
    requires
        0 <= pos,
        pos + 2 <= b.len(),
        b.subrange(pos, pos + 2) == spec_u16_to_le_bytes(v),
    ensures
        spec_read_u16(b, pos) == Some((v, pos + 2)),
{
    lemma_auto_spec_u16_to_from_le_bytes();
    assert(spec_u16_to_le_bytes(v).len() == 2);
    assert(spec_u16_from_le_bytes(spec_u16_to_le_bytes(v)) == v);
    assert(spec_u16_from_le_bytes(b.subrange(pos, pos + 2)) == v);
}

/// A u64 read recovers what the little-endian encoding of `v` laid down.
pub proof fn lemma_read_u64_of_encoding(b: Seq<u8>, pos: int, v: u64)
    requires
        0 <= pos,
        pos + 8 <= b.len(),
        b.subrange(pos, pos + 8) == spec_u64_to_le_bytes(v),
    ensures
        spec_read_u64(b, pos) == Some((v, pos + 8)),
{
    lemma_auto_spec_u64_to_from_le_bytes();
    assert(spec_u64_to_le_bytes(v).len() == 8);
    assert(spec_u64_from_le_bytes(spec_u64_to_le_bytes(v)) == v);
    assert(spec_u64_from_le_bytes(b.subrange(pos, pos + 8)) == v);
}

/// A string read recovers what [`spec_cstr_bytes`] laid down, provided
/// the text fits the wire format (ASCII without NUL).
pub proof fn lemma_read_cstr_of_encoding(b: Seq<u8>, pos: int, s: Seq<char>)
    requires
        wire_text(s),
        0 <= pos,
        pos + s.len() + 1 <= b.len(),
        b.subrange(pos, pos + s.len() + 1) == spec_cstr_bytes(s),
    ensures
        spec_read_cstr(b, pos) == (s, pos + s.len() + 1),
    decreases s.len(),
{
    assert(b[pos] == spec_cstr_bytes(s)[0]);
    if s.len() == 0 {
        assert(spec_cstr_bytes(s)[0] == 0);
    } else {
        assert(spec_cstr_bytes(s)[0] == s[0] as u8);
        assert('\0' <= s[0] <= '\u{7f}' && s[0] != '\0');
        assert(s[0] as u8 != 0);
        assert forall|j: int| 0 <= j < s.len() implies b.subrange(
            pos + 1,
            pos + s.len() as int + 1,
        )[j] == spec_cstr_bytes(s.drop_first())[j] by {
            assert(b[pos + 1 + j] == b.subrange(pos, pos + s.len() + 1)[j + 1]);
            if j < s.len() - 1 {
                assert(spec_cstr_bytes(s)[j + 1] == s[j + 1] as u8);
                assert(spec_cstr_bytes(s.drop_first())[j] == s.drop_first()[j] as u8);
            } else {
                assert(spec_cstr_bytes(s)[j + 1] == 0);
                assert(spec_cstr_bytes(s.drop_first())[j] == 0);
            }
        }
        assert(b.subrange(pos + 1, pos + 1 + (s.len() - 1) + 1) =~= spec_cstr_bytes(
            s.drop_first(),
        ));
        assert(wire_text(s.drop_first()));
        lemma_read_cstr_of_encoding(b, pos + 1, s.drop_first());
        assert(b[pos] as char == s[0]);
        assert(seq![b[pos] as char] + s.drop_first() =~= s);
    }
}

pub(crate) fn read_u16_at(b: &Vec<u8>, pos: usize) -> (r: Option<(u16, usize)>)
    requires
        pos <= b@.len(),
    ensures
        match r {
            Some(t) => spec_read_u16(b@, pos as int) == Some((t.0, t.1 as int)) && t.1
                <= b@.len(),
            None => spec_read_u16(b@, pos as int) is None,
        },
{
    if b.len() - pos >= 2 {
        let s = slice_subrange(b.as_slice(), pos, pos + 2);
        Some((u16_from_le_bytes(s), pos + 2))
    } else {
        None
    }
}

pub(crate) fn read_u64_at(b: &Vec<u8>, pos: usize) -> (r: Option<(u64, usize)>)
    requires
        pos <= b@.len(),
    ensures
        match r {
            Some(t) => spec_read_u64(b@, pos as int) == Some((t.0, t.1 as int)) && t.1
                <= b@.len(),
            None => spec_read_u64(b@, pos as int) is None,
        },
{
    if b.len() - pos >= 8 {
        let s = slice_subrange(b.as_slice(), pos, pos + 8);
        Some((u64_from_le_bytes(s), pos + 8))
    } else {
        None
    }
}

pub(crate) fn read_bytes_at(b: &Vec<u8>, pos: usize, n: usize) -> (r: Option<(Vec<u8>, usize)>)
    requires
        pos <= b@.len(),
    ensures
        match r {
            Some(t) => spec_read_bytes(b@, pos as int, n as int) == Some((t.0@, t.1 as int))
                && t.1 <= b@.len(),
            None => spec_read_bytes(b@, pos as int, n as int) is None,
        },
{
    if b.len() - pos >= n {
        let s = slice_subrange(b.as_slice(), pos, pos + n);
        Some((slice_to_vec(s), pos + n))
    } else {
        None
    }
}

pub(crate) fn write_u16(out: &mut Vec<u8>, v: u16)
    ensures
        final(out)@ == old(out)@ + spec_u16_to_le_bytes(v),
{
    let mut enc = u16_to_le_bytes(v);
    out.append(&mut enc);
}

pub(crate) fn write_u64(out: &mut Vec<u8>, v: u64)
    ensures
        final(out)@ == old(out)@ + spec_u64_to_le_bytes(v),
{
    let mut enc = u64_to_le_bytes(v);
    out.append(&mut enc);
}

pub(crate) fn write_bytes(out: &mut Vec<u8>, data: &Vec<u8>)
    ensures
        final(out)@ == old(out)@ + data@,
{
    out.extend_from_slice(data.as_slice());
}

pub(crate) fn write_cstr(out: &mut Vec<u8>, s: &String)
    requires
        is_ascii_chars(s@),
    ensures
        final(out)@ == old(out)@ + spec_cstr_bytes(s@),
{
    broadcast use vstd::string::is_ascii_spec_bytes;

    let st = s.as_str();
    proof {
        assert(vstd::string::is_ascii(st));
    }
    let mut enc = st.as_bytes_vec();
    proof {
        assert(enc@ =~= s@.map(|_i: int, c: char| c as u8));
    }
    out.append(&mut enc);
    out.push(0);
    proof {
        assert(out@ =~= old(out)@ + spec_cstr_bytes(s@));
    }
}

} // verus!

