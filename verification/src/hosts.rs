use vstd::prelude::*;
use crate::text::{chars_of, lines, push_chars, split_words, starts_with, views, lines_of, starts_with_seq, words};

verus! {

/// The entries one line contributes, over its first `k` words: each word at an odd
/// position, then `" => "`, then the word just before it, then a newline.
pub open spec fn pair_entries(ws: Seq<Seq<char>>, k: int) -> Seq<char>
    decreases k,
{
    if k <= 0 {
        Seq::empty()
    } else if (k - 1) % 2 == 1 {
        pair_entries(ws, k - 1) + ws[k - 1] + " => "@ + ws[k - 2] + seq!['\n']
    } else {
        pair_entries(ws, k - 1)
    }
}

/// What a line of a hosts file contributes: nothing for a comment line (one that starts
/// with `#`), else its pair entries.
pub open spec fn line_entries(line: Seq<char>) -> Seq<char> {
    if starts_with_seq(line, "#"@) {
        Seq::empty()
    } else {
        pair_entries(words(line), words(line).len() as int)
    }
}

/// The entries of the first `n` lines.
pub open spec fn entries_upto(ls: Seq<Seq<char>>, n: int) -> Seq<char>
    decreases n,
{
    if n <= 0 {
        Seq::empty()
    } else {
        entries_upto(ls, n - 1) + line_entries(ls[n - 1])
    }
}

/// The mapping listed by a hosts file: for each line that is not a comment, every
/// second word followed by `" => "` and the word before it, one entry per line of output.
pub open spec fn host_entries(text: Seq<char>) -> Seq<char> {
    entries_upto(lines_of(text), lines_of(text).len() as int)
}

/// The name-to-address entries of a hosts file's text.
pub fn host_mappings(text: &str) -> (r: String)
    ensures
        r@ == host_entries(text@),
{
    let cs = chars_of(text);
    let ls = lines(&cs);
    let ghost lv = views(ls@);
    let hash = chars_of("#");
    let arrow = chars_of(" => ");
    proof {
        reveal_strlit("#");
        reveal_strlit(" => ");
    }
    let mut result = String::new();
    let mut previous_word: Vec<char> = chars_of("sd");
    let mut li: usize = 0;
    while li < ls.len()
        invariant
            li <= ls@.len(),
            lv == views(ls@),
            lv == lines_of(text@),
            hash@ == "#"@,
            arrow@ == " => "@,
            result@ == entries_upto(lv, li as int),
        decreases ls@.len() - li,
    {
        let line = &ls[li];
        if !starts_with(line, &hash) {
            let ws = split_words(line);
            let ghost wv = views(ws@);
            let mut k: usize = 0;
            while k < ws.len()
                invariant
                    k <= ws@.len(),
                    wv == views(ws@),
                    wv == words(lv[li as int]),
                    arrow@ == " => "@,
                    k % 2 == 1 ==> previous_word@ == wv[k - 1],
                    result@ == entries_upto(lv, li as int) + pair_entries(wv, k as int),
                decreases ws@.len() - k,
            {
                if k % 2 == 1 {
                    push_chars(&mut result, &ws[k]);
                    push_chars(&mut result, &arrow);
                    push_chars(&mut result, &previous_word);
                    crate::text::push_char(&mut result, '\n');
                    assert(result@ =~= entries_upto(lv, li as int) + pair_entries(wv, k + 1));
                } else {
                    previous_word = ws[k].clone();
                }
                k = k + 1;
            }
        }
        assert(result@ =~= entries_upto(lv, li + 1));
        li = li + 1;
    }
    result
}

} // verus!
