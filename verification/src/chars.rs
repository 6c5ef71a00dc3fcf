//! Character-level helpers: UTF-8 widths, byte offsets into a character
//! sequence, and the character classes the tokenizer sorts by.

use vstd::prelude::*;

verus! {

/// Number of bytes of the UTF-8 encoding of `c`.
pub open spec fn char_len(c: char) -> int {
    if (c as u32) < 0x80 {
        1
    } else if (c as u32) < 0x800 {
        2
    } else if (c as u32) < 0x10000 {
        3
    } else {
        4
    }
}

/// Byte offset of the character at index `n` in `s`: the sum of the UTF-8
/// widths of the characters before it.
pub open spec fn byte_offset(s: Seq<char>, n: int) -> int
    decreases n,
{
    if n <= 0 {
        0
    } else {
        byte_offset(s, n - 1) + char_len(s[n - 1])
    }
}

/// Total UTF-8 byte length of `s`.
pub open spec fn byte_len(s: Seq<char>) -> int {
    byte_offset(s, s.len() as int)
}

/// Byte offsets grow by at least one and at most four bytes per character.
pub proof fn lemma_byte_offset_bounds(s: Seq<char>, m: int, n: int)
    requires
        0 <= m <= n,
    ensures
        byte_offset(s, n) - byte_offset(s, m) >= n - m,
        byte_offset(s, n) - byte_offset(s, m) <= 4 * (n - m),
    decreases n - m,
{
    if m < n {
        lemma_byte_offset_bounds(s, m, n - 1);
    }
}

/// `byte_offset` agrees with the length of the UTF-8 encoding of the prefix.
pub proof fn lemma_byte_offset_is_encoded_len(s: Seq<char>, n: int)
    requires
        0 <= n <= s.len(),
    ensures
        byte_offset(s, n) == vstd::utf8::encode_utf8(s.take(n)).len(),
    decreases n,
{
    if n == 0 {
        assert(s.take(0) =~= Seq::<char>::empty());
    } else {
        lemma_byte_offset_is_encoded_len(s, n - 1);
        lemma_encode_utf8_push(s.take(n - 1), s[n - 1]);
        lemma_char_len_encode(s[n - 1]);
        assert(s.take(n - 1).push(s[n - 1]) =~= s.take(n));
        assert(vstd::utf8::encode_utf8(s.take(n)).len() == vstd::utf8::encode_utf8(
            s.take(n - 1),
        ).len() + char_len(s[n - 1]));
    }
}

proof fn lemma_encode_utf8_push(s: Seq<char>, c: char)
    ensures
        vstd::utf8::encode_utf8(s.push(c)) == vstd::utf8::encode_utf8(s)
            + vstd::utf8::encode_scalar(c as u32),
    decreases s.len(),
{
    let t = s.push(c);
    assert(t.len() == s.len() + 1);
    assert(vstd::utf8::encode_utf8(t) == vstd::utf8::encode_scalar(t[0] as u32)
        + vstd::utf8::encode_utf8(t.drop_first()));
    if s.len() == 0 {
        assert(t[0] == c);
        assert(t.drop_first() =~= Seq::<char>::empty());
        assert(vstd::utf8::encode_utf8(t.drop_first()) =~= Seq::<u8>::empty());
        assert(vstd::utf8::encode_utf8(s) =~= Seq::<u8>::empty());
        assert(vstd::utf8::encode_utf8(t) =~= vstd::utf8::encode_utf8(s)
            + vstd::utf8::encode_scalar(c as u32));
    } else {
        lemma_encode_utf8_push(s.drop_first(), c);
        assert(t[0] == s[0]);
        assert(t.drop_first() =~= s.drop_first().push(c));
        assert(vstd::utf8::encode_utf8(s) == vstd::utf8::encode_scalar(s[0] as u32)
            + vstd::utf8::encode_utf8(s.drop_first()));
        assert(vstd::utf8::encode_utf8(t) =~= vstd::utf8::encode_utf8(s)
            + vstd::utf8::encode_scalar(c as u32));
    }
}

/// Each scalar encodes to as many bytes as `char_len` says.
pub proof fn lemma_char_len_encode(c: char)
    ensures
        char_len(c) == vstd::utf8::encode_scalar(c as u32).len(),
{
}

/// Executable UTF-8 width of a character.
pub fn utf8_len(c: char) -> (r: usize)
    ensures
        r == char_len(c),
{
    let u = c as u32;
    if u < 0x80 {
        1
    } else if u < 0x800 {
        2
    } else if u < 0x10000 {
        3
    } else {
        4
    }
}

/// Whether `c` is in the ASCII range.
pub open spec fn ascii_char(c: char) -> bool {
    (c as u32) < 0x80
}

/// The ASCII characters with the Unicode `White_Space` property: the five
/// controls TAB through CR, and the space.
pub open spec fn ascii_whitespace(c: char) -> bool {
    9 <= (c as u32) <= 13 || (c as u32) == 32
}

/// The ASCII characters with the Unicode `XID_Continue` property: letters,
/// digits, and the underscore.
pub open spec fn ascii_xid_continue(c: char) -> bool {
    ||| 97 <= (c as u32) <= 122
    ||| 65 <= (c as u32) <= 90
    ||| 48 <= (c as u32) <= 57
    ||| (c as u32) == 95
}

/// Whether `c` has the Unicode whitespace property.
pub uninterp spec fn whitespace_char(c: char) -> bool;

/// Relies on `char::is_whitespace` of std: whether `c` has the Unicode
/// `White_Space` property, a function of the character alone; on the ASCII
/// range that property holds exactly of TAB through CR and the space.
#[verifier::external_body]
pub fn is_whitespace(c: char) -> (r: bool)
    ensures
        r == whitespace_char(c),
        ascii_char(c) ==> r == ascii_whitespace(c),
{
    c.is_whitespace()
}

/// Whether `c` has the Unicode `XID_Continue` property.
pub uninterp spec fn xid_continue_char(c: char) -> bool;

/// Relies on `unicode_xid::UnicodeXID::is_xid_continue`: whether `c` has the
/// Unicode `XID_Continue` property, a table lookup on the character alone;
/// its ASCII fast path answers exactly for letters, digits and underscore.
#[verifier::external_body]
pub fn is_xid_continue(c: char) -> (r: bool)
    ensures
        r == xid_continue_char(c),
        ascii_char(c) ==> r == ascii_xid_continue(c),
{
    unicode_xid::UnicodeXID::is_xid_continue(c)
}

/// Whether `c` is an ASCII decimal digit.
pub open spec fn digit_char(c: char) -> bool {
    48 <= (c as u32) <= 57
}

/// Numeric value of an ASCII digit.
pub open spec fn digit_val(c: char) -> int {
    (c as u32) - 48
}

/// Executable test for an ASCII decimal digit.
pub fn is_ascii_digit(c: char) -> (r: bool)
    ensures
        r == digit_char(c),
{
    let u = c as u32;
    48 <= u && u <= 57
}

} // verus!
