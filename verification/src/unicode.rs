use vstd::prelude::*;

verus! {

/// Whether `c` has the Unicode `Alphabetic` property, as std's `char::is_alphabetic`
/// reports it.
pub uninterp spec fn alphabetic(c: char) -> bool;

/// Whether `c` is alphabetic or numeric in Unicode, as std's `char::is_alphanumeric`
/// reports it.
pub uninterp spec fn alphanumeric(c: char) -> bool;

/// The lowercase form of a text, as std's `str::to_lowercase` gives it.
pub uninterp spec fn lowercase(s: Seq<char>) -> Seq<char>;

/// std's `str::to_lowercase`. Trusted: the result is named `lowercase` of the text, and
/// a text of ASCII characters only has each character lowercased as ASCII; the Unicode
/// case mapping beyond ASCII is not stated here.
#[verifier::external_body]
pub(crate) fn to_lowercase_str(s: &str) -> (r: String)
    ensures
        r@ == lowercase(s@),
        (forall|i: int| 0 <= i < s@.len() ==> (#[trigger] s@[i] as u32) < 128) ==> r@
            == s@.map_values(|c: char| ascii_lower(c)),
{
    s.to_lowercase()
}

/// std's `char::is_alphabetic`. Trusted: the result is the `Alphabetic` property of
/// `c`, named `alphabetic`; among ASCII characters exactly the letters have it. Which
/// other characters have it is not stated here.
#[verifier::external_body]
pub(crate) fn is_alphabetic(c: char) -> (b: bool)
    ensures
        b == alphabetic(c),
        (c as u32) < 128 ==> (b <==> (ascii_lower_letter(c) || ascii_upper_letter(c))),
{
    c.is_alphabetic()
}

/// std's `char::is_alphanumeric`. Trusted: the result is named `alphanumeric`; among
/// ASCII characters exactly the letters and digits are alphanumeric. Which other
/// characters are is not stated here.
#[verifier::external_body]
pub(crate) fn is_alphanumeric(c: char) -> (b: bool)
    ensures
        b == alphanumeric(c),
        (c as u32) < 128 ==> (b <==> (ascii_lower_letter(c) || ascii_upper_letter(c) || ('0' <= c
            <= '9'))),
{
    c.is_alphanumeric()
}

/// std's `char::is_whitespace`: the characters with the Unicode `White_Space` property.
pub open spec fn whitespace(c: char) -> bool {
    let u = c as u32;
    (0x09 <= u <= 0x0d) || u == 0x20 || u == 0x85 || u == 0xa0 || u == 0x1680 || (0x2000 <= u
        <= 0x200a) || u == 0x2028 || u == 0x2029 || u == 0x202f || u == 0x205f || u == 0x3000
}

/// Whether `c` is a whitespace character.
pub fn is_whitespace(c: char) -> (b: bool)
    ensures
        b == whitespace(c),
{
    let u = c as u32;
    (0x09 <= u && u <= 0x0d) || u == 0x20 || u == 0x85 || u == 0xa0 || u == 0x1680 || (0x2000 <= u
        && u <= 0x200a) || u == 0x2028 || u == 0x2029 || u == 0x202f || u == 0x205f || u == 0x3000
}

/// `c` is an ASCII lowercase letter.
pub open spec fn ascii_lower_letter(c: char) -> bool {
    'a' <= c <= 'z'
}

/// `c` is an ASCII uppercase letter.
pub open spec fn ascii_upper_letter(c: char) -> bool {
    'A' <= c <= 'Z'
}

/// std's `char::to_ascii_uppercase`: ASCII lowercase letters become uppercase, every other
/// character stays.
pub open spec fn ascii_upper(c: char) -> char {
    if ascii_lower_letter(c) {
        ((c as u32) - 32) as char
    } else {
        c
    }
}

/// std's `char::to_ascii_lowercase`.
pub open spec fn ascii_lower(c: char) -> char {
    if ascii_upper_letter(c) {
        ((c as u32) + 32) as char
    } else {
        c
    }
}

/// The character with an ASCII code.
pub fn ascii_char(b: u8) -> (c: char)
    requires
        b < 128,
    ensures
        c as u32 == b as u32,
{
    b as char
}

/// The uppercase form of an ASCII letter; other characters unchanged.
pub fn to_ascii_upper(c: char) -> (r: char)
    ensures
        r == ascii_upper(c),
{
    if 'a' <= c && c <= 'z' {
        ascii_char((c as u32 - 32) as u8)
    } else {
        c
    }
}

/// The lowercase form of an ASCII letter; other characters unchanged.
pub fn to_ascii_lower(c: char) -> (r: char)
    ensures
        r == ascii_lower(c),
{
    if 'A' <= c && c <= 'Z' {
        ascii_char((c as u32 + 32) as u8)
    } else {
        c
    }
}

} // verus!
