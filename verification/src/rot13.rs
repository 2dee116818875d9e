use vstd::prelude::*;
use crate::text::{chars_of, push_char, string_from};
use crate::unicode::ascii_char;

verus! {

/// The ROT13 image of one character: ASCII letters move 13 places round their alphabet,
/// space, newline, tab and carriage return stay, and everything else is refused.
pub open spec fn rot13_char(c: char) -> Option<char> {
    if 'a' <= c <= 'z' {
        Some(((((c as u32) - ('a' as u32) + 13) % 26) + ('a' as u32)) as char)
    } else if 'A' <= c <= 'Z' {
        Some(((((c as u32) - ('A' as u32) + 13) % 26) + ('A' as u32)) as char)
    } else if c == ' ' || c == '\n' || c == '\t' || c == '\r' {
        Some(c)
    } else {
        None
    }
}

/// The first position at or after `i` holding a character ROT13 refuses, or the length
/// of `s` when there is none.
pub open spec fn first_refused(s: Seq<char>, i: int) -> int
    decreases s.len() - i,
{
    if i >= s.len() {
        s.len() as int
    } else if rot13_char(s[i]) is None {
        i
    } else {
        first_refused(s, i + 1)
    }
}

/// The ROT13 image of a text, when it holds only characters that ROT13 accepts.
pub open spec fn rot13_text(s: Seq<char>) -> Option<Seq<char>> {
    if forall|i: int| 0 <= i < s.len() ==> #[trigger] rot13_char(s[i]) is Some {
        Some(Seq::new(s.len(), |i: int| rot13_char(s[i])->0))
    } else {
        None
    }
}

/// The message that names a refused character.
pub open spec fn refusal_message(c: char) -> Seq<char> {
    "Error: Non-ASCII character is encountered: '"@.push(c).push('\'')
}

fn rot13_one(c: char) -> (r: Option<char>)
    ensures
        r == rot13_char(c),
{
    if 'a' <= c && c <= 'z' {
        Some(ascii_char((((c as u32) - ('a' as u32) + 13) % 26 + ('a' as u32)) as u8))
    } else if 'A' <= c && c <= 'Z' {
        Some(ascii_char((((c as u32) - ('A' as u32) + 13) % 26 + ('A' as u32)) as u8))
    } else if c == ' ' || c == '\n' || c == '\t' || c == '\r' {
        Some(c)
    } else {
        None
    }
}

/// The ROT13 image of `text`; an error naming the first character that is neither an
/// ASCII letter nor a space, newline, tab or carriage return.
pub fn rot13(text: &str) -> (r: Result<String, String>)
    ensures
        match rot13_text(text@) {
            Some(t) => r matches Ok(s) && s@ == t,
            None => r matches Err(e) && e@ == refusal_message(
                text@[first_refused(text@, 0)],
            ),
        },
{
    let cs = chars_of(text);
    let mut result = String::new();
    let mut i: usize = 0;
    while i < cs.len()
        invariant
            cs@ == text@,
            i <= cs@.len(),
            forall|j: int| 0 <= j < i ==> #[trigger] rot13_char(cs@[j]) is Some,
            first_refused(cs@, 0) == first_refused(cs@, i as int),
            result@ =~= Seq::new(i as nat, |j: int| rot13_char(cs@[j])->0),
        decreases cs@.len() - i,
    {
        let c = cs[i];
        match rot13_one(c) {
            Some(shifted) => push_char(&mut result, shifted),
            None => {
                let mut e = string_from("Error: Non-ASCII character is encountered: '");
                push_char(&mut e, c);
                push_char(&mut e, '\'');
                return Err(e);
            },
        }
        i = i + 1;
    }
    Ok(result)
}

/// ROT13 undoes itself: the image of an accepted text is accepted, and its image is the
/// text again.
pub proof fn lemma_rot13_involution(s: Seq<char>)
    requires
        rot13_text(s) is Some,
    ensures
        rot13_text(rot13_text(s)->0) == Some(s),
{
    let t = rot13_text(s)->0;
    assert forall|i: int| 0 <= i < t.len() implies #[trigger] rot13_char(t[i]) is Some
        && rot13_char(t[i])->0 == s[i] by {
        assert(rot13_char(s[i]) is Some);
    }
    assert(Seq::new(t.len(), |i: int| rot13_char(t[i])->0) =~= s);
}

} // verus!
