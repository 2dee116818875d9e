use vstd::prelude::*;
use crate::unicode::{
    alphabetic, ascii_lower, ascii_lower_letter, ascii_upper, ascii_upper_letter, is_alphabetic,
    to_ascii_lower, to_ascii_upper,
};

verus! {

/// Why a character was turned away.
#[derive(Debug, PartialEq, Eq, Structural)]
pub enum CharError {
    NotALetter,
    NotAPrintableChar,
    NotASCIIDigit,
    NotHexDigit,
}

/// The uppercase form of a letter (ASCII letters change, other letters stay); an error
/// for anything that is not alphabetic. Among ASCII characters the letters are the
/// alphabetic ones.
pub fn to_uppercase(c: char) -> (r: Result<char, CharError>)
    ensures
        alphabetic(c) ==> r == Ok::<char, CharError>(ascii_upper(c)),
        !alphabetic(c) ==> r == Err::<char, CharError>(CharError::NotALetter),
        (c as u32) < 128 ==> (alphabetic(c) <==> (ascii_lower_letter(c) || ascii_upper_letter(c))),
{
    if is_alphabetic(c) {
        Ok(to_ascii_upper(c))
    } else {
        Err(CharError::NotALetter)
    }
}

/// The lowercase form of a letter (ASCII letters change, other letters stay); an error
/// for anything that is not alphabetic. Among ASCII characters the letters are the
/// alphabetic ones.
pub fn to_lowercase(c: char) -> (r: Result<char, CharError>)
    ensures
        alphabetic(c) ==> r == Ok::<char, CharError>(ascii_lower(c)),
        !alphabetic(c) ==> r == Err::<char, CharError>(CharError::NotALetter),
        (c as u32) < 128 ==> (alphabetic(c) <==> (ascii_lower_letter(c) || ascii_upper_letter(c))),
{
    if is_alphabetic(c) {
        Ok(to_ascii_lower(c))
    } else {
        Err(CharError::NotALetter)
    }
}

/// std's `char::is_ascii_graphic`: `'!'` through `'~'`.
pub open spec fn ascii_graphic(c: char) -> bool {
    '!' <= c <= '~'
}

/// The character itself when it is printable ASCII (`'!'` through `'~'`), else an error.
pub fn check_printable(c: char) -> (r: Result<char, CharError>)
    ensures
        ascii_graphic(c) ==> r == Ok::<char, CharError>(c),
        !ascii_graphic(c) ==> r == Err::<char, CharError>(CharError::NotAPrintableChar),
{
    if '!' <= c && c <= '~' {
        Ok(c)
    } else {
        Err(CharError::NotAPrintableChar)
    }
}

/// The value of a decimal digit character.
pub open spec fn decimal_value(c: char) -> Option<u32> {
    if '0' <= c <= '9' {
        Some((c as u32 - '0' as u32) as u32)
    } else {
        None
    }
}

/// The value of a hexadecimal digit character (either case).
pub open spec fn hex_value(c: char) -> Option<u32> {
    if '0' <= c <= '9' {
        Some((c as u32 - '0' as u32) as u32)
    } else if 'a' <= c <= 'f' {
        Some((c as u32 - 'a' as u32 + 10) as u32)
    } else if 'A' <= c <= 'F' {
        Some((c as u32 - 'A' as u32 + 10) as u32)
    } else {
        None
    }
}

/// The value of an ASCII decimal digit, else an error.
pub fn char_to_number(c: char) -> (r: Result<u32, CharError>)
    ensures
        match decimal_value(c) {
            Some(v) => r == Ok::<u32, CharError>(v),
            None => r == Err::<u32, CharError>(CharError::NotASCIIDigit),
        },
{
    if '0' <= c && c <= '9' {
        Ok(c as u32 - '0' as u32)
    } else {
        Err(CharError::NotASCIIDigit)
    }
}

/// The value of an ASCII hexadecimal digit (either case), else an error.
pub fn char_to_number_hex(c: char) -> (r: Result<u32, CharError>)
    ensures
        match hex_value(c) {
            Some(v) => r == Ok::<u32, CharError>(v),
            None => r == Err::<u32, CharError>(CharError::NotHexDigit),
        },
{
    if '0' <= c && c <= '9' {
        Ok(c as u32 - '0' as u32)
    } else if 'a' <= c && c <= 'f' {
        Ok(c as u32 - 'a' as u32 + 10)
    } else if 'A' <= c && c <= 'F' {
        Ok(c as u32 - 'A' as u32 + 10)
    } else {
        Err(CharError::NotHexDigit)
    }
}

/// The message that reports an error.
pub fn error_message(error: &CharError) -> (m: &'static str)
    ensures
        *error == CharError::NotALetter ==> m@ == "Error: Character is not a letter."@,
        *error == CharError::NotAPrintableChar ==> m@ == "Error: Character is no printable."@,
        *error == CharError::NotASCIIDigit ==> m@ == "Error: Character is not an ASCII digit."@,
        *error == CharError::NotHexDigit ==> m@ == "Error: Character is not a hexadecimal-digit."@,
{
    match error {
        CharError::NotALetter => "Error: Character is not a letter.",
        CharError::NotAPrintableChar => "Error: Character is no printable.",
        CharError::NotASCIIDigit => "Error: Character is not an ASCII digit.",
        CharError::NotHexDigit => "Error: Character is not a hexadecimal-digit.",
    }
}

} // verus!
