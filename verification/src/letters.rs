use vstd::prelude::*;
use crate::text::push_char;

verus! {

/// `n - 1` copies of `ch` (none when `n <= 1`).
pub open spec fn repeat_after_first(ch: char, n: int) -> Seq<char> {
    Seq::new(if n > 1 { (n - 1) as nat } else { 0 }, |_i: int| ch)
}

/// `s` followed by `n - 1` copies of `ch` (nothing is added when `n <= 1`).
pub fn add_chars_n(s: String, ch: char, n: i32) -> (r: String)
    ensures
        r@ == s@ + repeat_after_first(ch, n as int),
{
    let mut s = s;
    let ghost s0 = s@;
    let mut i: i32 = 1;
    while i < n
        invariant
            1 <= i,
            i <= n || i == 1,
            s@ =~= s0 + Seq::new((i - 1) as nat, |_k: int| ch),
        decreases n - i,
    {
        i = i + 1;
        push_char(&mut s, ch);
    }
    s
}

} // verus!
