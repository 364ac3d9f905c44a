//! Small helpers shared by the codec and its callers: buffer comparison,
//! a readable rendering of a byte buffer, and the NUL-terminated string
//! reader.

use crate::wire::spec_read_cstr;
use vstd::prelude::*;

verus! {

/// Whether two byte buffers hold the same bytes.
pub fn compare_buffers(a: &Vec<u8>, b: &Vec<u8>) -> (r: bool)
    ensures
        r == (a@ == b@),
{
    if a.len() != b.len() {
        proof {
            assert(a@.len() != b@.len());
        }
        return false;
    }
    let mut i: usize = 0;
    while i < a.len()
        invariant
            i <= a@.len(),
            a@.len() == b@.len(),
            forall|j: int| 0 <= j < i ==> a@[j] == b@[j],
        decreases a@.len() - i,
    {
        if a[i] != b[i] {
            return false;
        }
        i = i + 1;
    }
    proof {
        assert(a@ =~= b@);
    }
    true
}

/// The decimal digits of one byte value, most significant first, without
/// leading zeros.
pub open spec fn spec_u8_decimal(b: u8) -> Seq<char> {
    if b < 10 {
        seq![(0x30 + b) as char]
    } else if b < 100 {
        seq![(0x30 + b / 10) as char, (0x30 + b % 10) as char]
    } else {
        seq![(0x30 + b / 100) as char, (0x30 + (b / 10) % 10) as char, (0x30 + b % 10) as char]
    }
}

/// The byte values of a buffer written in decimal, separated by single
/// spaces.
pub open spec fn spec_buffer_string(s: Seq<u8>) -> Seq<char>
    decreases s.len(),
{
    if s.len() == 0 {
        Seq::empty()
    } else if s.len() == 1 {
        spec_u8_decimal(s[0])
    } else {
        spec_u8_decimal(s[0]) + seq![' '] + spec_buffer_string(s.drop_first())
    }
}

/// Splitting off the last element of a non-singleton buffer splits its
/// rendering at a space.
proof fn lemma_buffer_string_snoc(s: Seq<u8>, b: u8)
    requires
        s.len() >= 1,
    ensures
        spec_buffer_string(s.push(b)) == spec_buffer_string(s) + seq![' '] + spec_u8_decimal(b),
    decreases s.len(),
{
    if s.len() == 1 {
        assert(s.push(b).drop_first() =~= seq![b]);
        assert(spec_buffer_string(seq![b]) == spec_u8_decimal(b));
        assert(spec_buffer_string(s.push(b)) == spec_u8_decimal(s[0]) + seq![' ']
            + spec_u8_decimal(b));
        assert(spec_buffer_string(s) == spec_u8_decimal(s[0]));
    } else {
        lemma_buffer_string_snoc(s.drop_first(), b);
        assert(s.push(b).drop_first() =~= s.drop_first().push(b));
        assert(spec_buffer_string(s.push(b)) == spec_u8_decimal(s[0]) + seq![' ']
            + spec_buffer_string(s.drop_first().push(b)));
        assert(spec_u8_decimal(s[0]) + seq![' '] + (spec_buffer_string(s.drop_first()) + seq![' ']
            + spec_u8_decimal(b)) =~= spec_buffer_string(s) + seq![' '] + spec_u8_decimal(b));
    }
}

/// Relies on `String::push`: appends exactly the given character.
#[verifier::external_body]
fn push_char(s: &mut String, c: char)
    ensures
        final(s)@ == old(s)@.push(c),
{
    s.push(c)
}

/// Relies on `char::from` for `u8`: yields the character whose code point
/// is the byte's value.
#[verifier::external_body]
fn char_of_byte(b: u8) -> (c: char)
    ensures
        c == b as char,
{
    char::from(b)
}

/// Appends the decimal rendering of one byte value.
fn push_decimal(s: &mut String, b: u8)
    ensures
        final(s)@ == old(s)@ + spec_u8_decimal(b),
{
    if b >= 100 {
        push_char(s, char_of_byte(0x30 + b / 100));
        push_char(s, char_of_byte(0x30 + (b / 10) % 10));
        push_char(s, char_of_byte(0x30 + b % 10));
    } else if b >= 10 {
        push_char(s, char_of_byte(0x30 + b / 10));
        push_char(s, char_of_byte(0x30 + b % 10));
    } else {
        push_char(s, char_of_byte(0x30 + b));
    }
    proof {
        assert(s@ =~= old(s)@ + spec_u8_decimal(b));
    }
}

/// Renders a buffer as its byte values in decimal, separated by spaces.
pub fn buffer_to_string(buf: &Vec<u8>) -> (r: String)
    ensures
        r@ == spec_buffer_string(buf@),
{
    let mut s = String::new();
    if buf.len() == 0 {
        return s;
    }
    push_decimal(&mut s, buf[0]);
    let mut i: usize = 1;
    while i < buf.len()
        invariant
            1 <= i <= buf@.len(),
            s@ == spec_buffer_string(buf@.take(i as int)),
        decreases buf@.len() - i,
    {
        proof {
            lemma_buffer_string_snoc(buf@.take(i as int), buf@[i as int]);
            assert(buf@.take(i as int).push(buf@[i as int]) =~= buf@.take(i as int + 1));
        }
        push_char(&mut s, ' ');
        push_decimal(&mut s, buf[i]);
        i = i + 1;
    }
    proof {
        assert(buf@.take(buf@.len() as int) =~= buf@);
    }
    s
}

/// Reads a NUL-terminated string from `bytes` starting at `pos`: bytes up
/// to the first zero byte become the string's characters, and the cursor
/// moves past the terminator. Without a terminator the rest of the buffer
/// becomes the string, a quirk kept from the format's fail-late reading
/// of text fields.
pub fn read_null_string(bytes: &Vec<u8>, pos: usize) -> (r: (String, usize))
    requires
        pos <= bytes@.len(),
    ensures
        r.0@ == spec_read_cstr(bytes@, pos as int).0,
        r.1 as int == spec_read_cstr(bytes@, pos as int).1,
        pos <= r.1 <= bytes@.len(),
{
    let ghost whole = spec_read_cstr(bytes@, pos as int);
    let mut s = String::new();
    let mut i: usize = pos;
    loop
        invariant
            pos <= i <= bytes@.len(),
            whole == spec_read_cstr(bytes@, pos as int),
            s@ + spec_read_cstr(bytes@, i as int).0 == whole.0,
            spec_read_cstr(bytes@, i as int).1 == whole.1,
        decreases bytes@.len() - i,
    {
        if i >= bytes.len() {
            proof {
                assert(s@ =~= whole.0);
            }
            return (s, bytes.len());
        }
        let byte = bytes[i];
        if byte == 0 {
            proof {
                assert(s@ =~= whole.0);
            }
            return (s, i + 1);
        }
        proof {
            assert(s@.push(byte as char) + spec_read_cstr(bytes@, i as int + 1).0 =~= s@ + (seq![
                byte as char,
            ] + spec_read_cstr(bytes@, i as int + 1).0));
        }
        push_char(&mut s, char_of_byte(byte));
        i = i + 1;
    }
}

} // verus!
