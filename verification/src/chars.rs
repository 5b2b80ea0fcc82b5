//! Character-level groundwork for the scanner: character classes, UTF-8 byte
//! widths of characters, and the identifier classes taken from `unicode_xid`.

use vstd::prelude::*;

verus! {

/// An ASCII decimal digit.
pub open spec fn is_digit_char(c: char) -> bool {
    0x30 <= c as u32 <= 0x39
}

/// Numeric value of an ASCII decimal digit.
pub open spec fn digit_val(c: char) -> int
    recommends
        is_digit_char(c),
{
    c as u32 - 0x30
}

/// A character with the Unicode `White_Space` property, written out:
/// the ASCII whitespace characters, next line, no-break space, ogham space
/// mark, the general punctuation spaces, the two separators, narrow no-break
/// space, medium mathematical space and ideographic space.
pub open spec fn ws_char(c: char) -> bool {
    let u = c as u32;
    ||| 0x09 <= u <= 0x0D
    ||| u == 0x20
    ||| u == 0x85
    ||| u == 0xA0
    ||| u == 0x1680
    ||| 0x2000 <= u <= 0x200A
    ||| u == 0x2028
    ||| u == 0x2029
    ||| u == 0x202F
    ||| u == 0x205F
    ||| u == 0x3000
}

/// A character in the Unicode `Cc` (control) category.
pub open spec fn control_char(c: char) -> bool {
    let u = c as u32;
    u < 0x20 || (0x7F <= u <= 0x9F)
}

/// An ASCII hexadecimal digit.
pub open spec fn is_hex_char(c: char) -> bool {
    let u = c as u32;
    (0x30 <= u <= 0x39) || (0x41 <= u <= 0x46) || (0x61 <= u <= 0x66)
}

/// Numeric value of an ASCII hexadecimal digit.
pub open spec fn hex_val(c: char) -> int
    recommends
        is_hex_char(c),
{
    let u = c as u32;
    if 0x30 <= u <= 0x39 {
        u - 0x30
    } else if 0x41 <= u <= 0x46 {
        u - 0x41 + 10
    } else {
        u - 0x61 + 10
    }
}

/// Byte width of a character when encoded in UTF-8.
pub open spec fn char_len(c: char) -> int {
    if (c as u32) < 0x80 {
        1
    } else if (c as u32) < 0x800 {
        2
    } else if (c as u32) < 0x10000 {
        3
    } else {
        4
    }
}

/// Total UTF-8 byte length of a character sequence.
pub open spec fn byte_len(s: Seq<char>) -> int
    decreases s.len(),
{
    if s.len() == 0 {
        0
    } else {
        byte_len(s.drop_last()) + char_len(s.last())
    }
}

pub proof fn lemma_byte_len_take_step(s: Seq<char>, i: int)
    requires
        0 <= i < s.len(),
    ensures
        byte_len(s.take(i + 1)) == byte_len(s.take(i)) + char_len(s[i]),
{
    assert(s.take(i + 1).drop_last() =~= s.take(i));
    assert(s.take(i + 1).last() == s[i]);
}

/// A longer prefix has a byte length larger by at least one and at most four
/// bytes per extra character.
pub proof fn lemma_byte_len_mono(s: Seq<char>, i: int, j: int)
    requires
        0 <= i <= j <= s.len(),
    ensures
        byte_len(s.take(i)) + (j - i) <= byte_len(s.take(j)),
        byte_len(s.take(j)) <= byte_len(s.take(i)) + 4 * (j - i),
    decreases j - i,
{
    if i < j {
        lemma_byte_len_mono(s, i, j - 1);
        lemma_byte_len_take_step(s, j - 1);
    }
}

pub proof fn lemma_byte_len_take_all(s: Seq<char>)
    ensures
        byte_len(s.take(s.len() as int)) == byte_len(s),
{
    assert(s.take(s.len() as int) =~= s);
}

/// Whether a character satisfies the Unicode `XID_Start` property, as decided
/// by the `unicode_xid` crate.
pub uninterp spec fn xid_start(c: char) -> bool;

/// Whether a character satisfies the Unicode `XID_Continue` property, as
/// decided by the `unicode_xid` crate.
pub uninterp spec fn xid_continue(c: char) -> bool;

/// Relies on `unicode_xid::UnicodeXID::is_xid_start`: a table lookup deciding
/// the `XID_Start` property from the character alone; its ASCII fast path
/// returns true exactly for the ASCII letters.
#[verifier::external_body]
pub fn is_id_start(c: char) -> (r: bool)
    ensures
        r == xid_start(c),
        (c as u32) < 0x80 ==> r == (0x41 <= c as u32 <= 0x5A || 0x61 <= c as u32 <= 0x7A),
{
    unicode_xid::UnicodeXID::is_xid_start(c)
}

/// Relies on `unicode_xid::UnicodeXID::is_xid_continue`: a table lookup
/// deciding the `XID_Continue` property from the character alone; its ASCII
/// fast path returns true exactly for ASCII letters, digits and underscore.
#[verifier::external_body]
pub fn is_id_continue(c: char) -> (r: bool)
    ensures
        r == xid_continue(c),
        (c as u32) < 0x80 ==> r == (0x41 <= c as u32 <= 0x5A || 0x61 <= c as u32 <= 0x7A
            || 0x30 <= c as u32 <= 0x39 || c as u32 == 0x5F),
{
    unicode_xid::UnicodeXID::is_xid_continue(c)
}

/// Whitespace test, written out from the Unicode `White_Space` table.
pub fn is_whitespace_char(c: char) -> (r: bool)
    ensures
        r == ws_char(c),
{
    let u = c as u32;
    (0x09 <= u && u <= 0x0D) || u == 0x20 || u == 0x85 || u == 0xA0 || u == 0x1680 || (0x2000 <= u
        && u <= 0x200A) || u == 0x2028 || u == 0x2029 || u == 0x202F || u == 0x205F || u == 0x3000
}

/// Control-character test, written out from the Unicode `Cc` range.
pub fn is_control_char(c: char) -> (r: bool)
    ensures
        r == control_char(c),
{
    let u = c as u32;
    u < 0x20 || (0x7F <= u && u <= 0x9F)
}

pub fn digit_char(c: char) -> (r: bool)
    ensures
        r == is_digit_char(c),
{
    let u = c as u32;
    0x30 <= u && u <= 0x39
}

/// Value of a hexadecimal digit, or none for any other character.
pub fn hex_digit_val(c: char) -> (r: Option<u32>)
    ensures
        r matches Some(v) ==> is_hex_char(c) && v == hex_val(c),
        r is None ==> !is_hex_char(c),
{
    let u = c as u32;
    if 0x30 <= u && u <= 0x39 {
        Some(u - 0x30)
    } else if 0x41 <= u && u <= 0x46 {
        Some(u - 0x41 + 10)
    } else if 0x61 <= u && u <= 0x66 {
        Some(u - 0x61 + 10)
    } else {
        None
    }
}

pub fn char_utf8_len(c: char) -> (n: usize)
    ensures
        n == char_len(c),
{
    let u = c as u32;
    if u < 0x80 {
        1
    } else if u < 0x800 {
        2
    } else if u < 0x10000 {
        3
    } else {
        4
    }
}

/// Relies on `str::chars`: yields exactly the string's characters in order.
/// Their UTF-8 widths sum to the string's byte length, which fits in `usize`.
#[verifier::external_body]
pub fn str_to_chars(s: &str) -> (v: Vec<char>)
    ensures
        v@ == s@,
        byte_len(v@) <= usize::MAX,
{
    s.chars().collect()
}

/// Relies on `String`'s `FromIterator`: builds the string holding exactly the
/// characters `v[from..to]`.
#[verifier::external_body]
pub fn chars_to_string(v: &Vec<char>, from: usize, to: usize) -> (s: String)
    requires
        from <= to <= v@.len(),
    ensures
        s@ == v@.subrange(from as int, to as int),
{
    v[from..to].iter().collect()
}

/// Relies on `char::from_u32`: for a value below the surrogate range or
/// between it and the maximum scalar, it returns the character with that
/// scalar value.
#[verifier::external_body]
pub fn char_of_scalar(v: u32) -> (c: char)
    requires
        v < 0xD800 || (0xE000 <= v <= 0x10FFFF),
    ensures
        c as u32 == v,
{
    char::from_u32(v).unwrap()
}

} // verus!
