use vstd::prelude::*;
use crate::text::{chars_of, lines, lines_of, string_of, views};
use crate::unicode::{alphanumeric, is_alphanumeric};

verus! {

/// `c` is an ASCII letter or digit.
pub open spec fn ascii_alnum(c: char) -> bool {
    ('a' <= c <= 'z') || ('A' <= c <= 'Z') || ('0' <= c <= '9')
}

/// The size charged for one character: 2 for a non-ASCII alphanumeric character, 1 for
/// an ASCII letter or digit, 4 for anything that is not alphanumeric.
pub open spec fn char_weight(c: char) -> int {
    if alphanumeric(c) && (c as u32) >= 128 {
        2
    } else if ascii_alnum(c) {
        1
    } else if !alphanumeric(c) {
        4
    } else {
        0
    }
}

/// The summed size of the first `n` characters of a line.
pub open spec fn weight_upto(l: Seq<char>, n: int) -> int
    decreases n,
{
    if n <= 0 {
        0
    } else {
        weight_upto(l, n - 1) + char_weight(l[n - 1])
    }
}

/// The summed size of a line.
pub open spec fn line_weight(l: Seq<char>) -> int {
    weight_upto(l, l.len() as int)
}

/// Over the first `n` lines: the largest score seen (0 to start) and the first line that
/// reached it (empty to start); a later line replaces it only with a strictly larger
/// score.
pub open spec fn first_max(
    ls: Seq<Seq<char>>,
    n: int,
    score: spec_fn(Seq<char>) -> int,
) -> (int, Seq<char>)
    decreases n,
{
    if n <= 0 {
        (0, Seq::empty())
    } else {
        let prev = first_max(ls, n - 1, score);
        if prev.0 < score(ls[n - 1]) {
            (score(ls[n - 1]), ls[n - 1])
        } else {
            prev
        }
    }
}

/// The line with the largest size and the line with the most characters (the first
/// one in each case; empty when every line scores 0).
pub open spec fn longest(text: Seq<char>) -> (Seq<char>, Seq<char>) {
    let ls = lines_of(text);
    (
        first_max(ls, ls.len() as int, |l: Seq<char>| line_weight(l)).1,
        first_max(ls, ls.len() as int, |l: Seq<char>| l.len() as int).1,
    )
}

/// No line of the text is so big that the `i32` counters overflow.
pub open spec fn counters_fit(text: Seq<char>) -> bool {
    forall|i: int|
        0 <= i < lines_of(text).len() ==> line_weight(#[trigger] lines_of(text)[i]) <= i32::MAX
            && lines_of(text)[i].len() <= i32::MAX
}

proof fn lemma_weight_nonneg(l: Seq<char>, n: int)
    ensures
        weight_upto(l, n) >= 0,
    decreases n,
{
    if n > 0 {
        lemma_weight_nonneg(l, n - 1);
    }
}

proof fn lemma_weight_monotone(l: Seq<char>, a: int, b: int)
    requires
        0 <= a <= b <= l.len(),
    ensures
        weight_upto(l, a) <= weight_upto(l, b),
    decreases b - a,
{
    if a < b {
        lemma_weight_monotone(l, a, b - 1);
        lemma_weight_nonneg(l, b - 1);
    }
}

fn weight(c: char) -> (w: i32)
    ensures
        w == char_weight(c),
{
    let alnum = is_alphanumeric(c);
    if alnum && !((c as u32) < 128) {
        2
    } else if ('a' <= c && c <= 'z') || ('A' <= c && c <= 'Z') || ('0' <= c && c <= '9') {
        1
    } else if !alnum {
        4
    } else {
        0
    }
}

/// The longest line of `text` by size (non-ASCII alphanumerics count 2, ASCII letters
/// and digits 1, everything else 4) and the longest by number of characters.
pub fn longest_lines(text: &str) -> (r: (String, String))
    requires
        counters_fit(text@),
    ensures
        (r.0@, r.1@) == longest(text@),
{
    let cs = chars_of(text);
    let ls = lines(&cs);
    let ghost lv = views(ls@);
    let ghost wscore = |l: Seq<char>| line_weight(l);
    let ghost cscore = |l: Seq<char>| l.len() as int;
    let mut n1: i32 = 0;
    let mut n2: i32 = 0;
    let mut str1: Vec<char> = Vec::new();
    let mut str2: Vec<char> = Vec::new();
    let mut li: usize = 0;
    while li < ls.len()
        invariant
            li <= ls@.len(),
            lv == views(ls@),
            lv == lines_of(text@),
            counters_fit(text@),
            wscore == (|l: Seq<char>| line_weight(l)),
            cscore == (|l: Seq<char>| l.len() as int),
            first_max(lv, li as int, wscore) == (n1 as int, str1@),
            first_max(lv, li as int, cscore) == (n2 as int, str2@),
        decreases ls@.len() - li,
    {
        let line = &ls[li];
        let ghost l = lv[li as int];
        assert(line_weight(l) <= i32::MAX && l.len() <= i32::MAX);
        let mut nrch: i32 = 0;
        let mut nrbytes: i32 = 0;
        let mut k: usize = 0;
        while k < line.len()
            invariant
                k <= line@.len(),
                line@ == l,
                line_weight(l) <= i32::MAX,
                l.len() <= i32::MAX,
                nrch == k,
                nrbytes == weight_upto(l, k as int),
            decreases line@.len() - k,
        {
            proof {
                lemma_weight_monotone(l, k + 1, l.len() as int);
            }
            nrch = nrch + 1;
            nrbytes = nrbytes + weight(line[k]);
            k = k + 1;
        }
        assert(wscore(l) == nrbytes as int);
        assert(cscore(l) == nrch as int);
        if n1 < nrbytes {
            n1 = nrbytes;
            str1 = line.clone();
        }
        if n2 < nrch {
            n2 = nrch;
            str2 = line.clone();
        }
        li = li + 1;
    }
    (string_of(&str1), string_of(&str2))
}

/// The two longest lines of `text`, or `None` when some line is so big that a counter
/// would overflow.
pub fn longest_lines_checked(text: &str) -> (r: Option<(String, String)>)
    ensures
        r is None <==> !counters_fit(text@),
        r matches Some(p) ==> (p.0@, p.1@) == longest(text@),
{
    let cs = chars_of(text);
    let ls = lines(&cs);
    let ghost lv = views(ls@);
    let mut i: usize = 0;
    while i < ls.len()
        invariant
            i <= ls@.len(),
            lv == views(ls@),
            lv == lines_of(text@),
            forall|j: int| 0 <= j < i ==> line_weight(#[trigger] lv[j]) <= i32::MAX && lv[j].len()
                <= i32::MAX,
        decreases ls@.len() - i,
    {
        let line = &ls[i];
        let ghost l = lv[i as int];
        if line.len() > 2147483647 {
            assert(lines_of(text@)[i as int].len() > i32::MAX);
            return None;
        }
        let mut total: i64 = 0;
        let mut k: usize = 0;
        while k < line.len()
            invariant
                k <= line@.len(),
                line@ == l,
                i < lv.len(),
                lv == lines_of(text@),
                l == lv[i as int],
                total == weight_upto(l, k as int),
                total <= i32::MAX,
            decreases line@.len() - k,
        {
            proof {
                lemma_weight_nonneg(l, k as int);
            }
            total = total + weight(line[k]) as i64;
            if total > 2147483647 {
                proof {
                    lemma_weight_monotone(l, k + 1, l.len() as int);
                    assert(line_weight(lines_of(text@)[i as int]) > i32::MAX);
                }
                return None;
            }
            k = k + 1;
        }
        i = i + 1;
    }
    Some(longest_lines(text))
}
} // verus!
