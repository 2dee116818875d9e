use vstd::prelude::*;
use crate::text::{chars_of, push_chars, same_chars, split_words, views, words};

verus! {

/// The full form of `w` from the first pair from position `j` on whose abbreviation is
/// `w`; `w` itself when no pair matches.
pub open spec fn expand_from(w: Seq<char>, abbreviations: Seq<(&str, &str)>, j: int) -> Seq<char>
    decreases abbreviations.len() - j,
{
    if j >= abbreviations.len() {
        w
    } else if abbreviations[j].0@ == w {
        abbreviations[j].1@
    } else {
        expand_from(w, abbreviations, j + 1)
    }
}

/// Each piece followed by one space, all concatenated.
pub open spec fn spaced(pieces: Seq<Seq<char>>) -> Seq<char>
    decreases pieces.len(),
{
    if pieces.len() == 0 {
        Seq::empty()
    } else {
        spaced(pieces.drop_last()) + pieces.last().push(' ')
    }
}

/// The pieces joined by single spaces.
pub open spec fn join_spaces(pieces: Seq<Seq<char>>) -> Seq<char> {
    if pieces.len() == 0 {
        Seq::empty()
    } else {
        spaced(pieces).drop_last()
    }
}

/// The text after replacement: each word of `input` expanded, joined by single spaces.
pub open spec fn replaced(input: Seq<char>, abbreviations: Seq<(&str, &str)>) -> Seq<char> {
    join_spaces(words(input).map_values(|w: Seq<char>| expand_from(w, abbreviations, 0)))
}

fn expand(word: &[char], abbreviations: &[(&str, &str)]) -> (r: Vec<char>)
    ensures
        r@ == expand_from(word@, abbreviations@, 0),
{
    let mut j: usize = 0;
    while j < abbreviations.len()
        invariant
            j <= abbreviations@.len(),
            expand_from(word@, abbreviations@, 0) == expand_from(word@, abbreviations@, j as int),
        decreases abbreviations@.len() - j,
    {
        let (abbrev, full) = abbreviations[j];
        let a = chars_of(abbrev);
        if same_chars(word, &a) {
            return chars_of(full);
        }
        j = j + 1;
    }
    let mut r: Vec<char> = Vec::new();
    let mut k: usize = 0;
    while k < word.len()
        invariant
            k <= word@.len(),
            r@ =~= word@.take(k as int),
        decreases word@.len() - k,
    {
        r.push(word[k]);
        k = k + 1;
    }
    assert(word@.take(word@.len() as int) =~= word@);
    r
}

/// `input` with each whitespace-separated word that equals an abbreviation replaced by
/// its full form (the first matching pair wins), the words joined by single spaces.
pub fn replace(input: &str, abbreviations: &[(&str, &str)]) -> (r: String)
    ensures
        r@ == replaced(input@, abbreviations@),
{
    let cs = chars_of(input);
    let ws = split_words(&cs);
    let ghost ex = views(ws@).map_values(|w: Seq<char>| expand_from(w, abbreviations@, 0));
    let mut result = String::new();
    let mut i: usize = 0;
    while i < ws.len()
        invariant
            i <= ws@.len(),
            ex == views(ws@).map_values(|w: Seq<char>| expand_from(w, abbreviations@, 0)),
            result@ == spaced(ex.take(i as int)),
        decreases ws@.len() - i,
    {
        let full = expand(&ws[i], abbreviations);
        push_chars(&mut result, &full);
        result.append(" ");
        proof {
            reveal_strlit(" ");
            assert(ex.take(i + 1).drop_last() =~= ex.take(i as int));
        }
        assert(result@ =~= spaced(ex.take(i + 1)));
        i = i + 1;
    }
    assert(ex.take(ws@.len() as int) =~= ex);
    if i > 0 {
        crate::text::pop_char(&mut result);
    }
    result
}

} // verus!
