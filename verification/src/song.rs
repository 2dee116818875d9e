use vstd::prelude::*;
use crate::text::{decimal, push_decimal};

verus! {

/// The verse sung with `n` bottles on the wall, ending with the blank lines between
/// verses.
pub open spec fn verse(n: nat) -> Seq<char> {
    decimal(n) + " bottles of beer on the wall,\n"@ + decimal(n) + " bottles of beer.\n"@
        + "Take one down, pass it around,\n"@ + decimal((n - 1) as nat)
        + " bottles of beer on the wall.\n"@ + "\n\n"@
}

/// The verses for `top` bottles down to `n + 1` bottles.
pub open spec fn verses_down(top: nat, n: nat) -> Seq<char>
    decreases top - n,
{
    if n >= top {
        Seq::empty()
    } else {
        verses_down(top, n + 1) + verse(n + 1)
    }
}

/// The last verse and the closing lines.
pub open spec fn ending() -> Seq<char> {
    "1 bottle of beer on the wall,\n"@ + "1 bottle of beer.\n"@
        + "Take one down, pass it around,\n"@ + "No bottles of beer on the wall.\n"@ + "\n\n"@
        + "No bottles of beer on the wall,\n"@ + "No bottles of beer.\n"@
        + "Go to the store, buy some more,\n"@ + "99 bottles of beer on the wall.\n"@
}

/// The whole song, as printed: ninety-nine bottles down to one, then the closing lines.
pub fn singing() -> (s: String)
    ensures
        s@ == verses_down(99, 1) + ending(),
{
    let mut s = String::new();
    let mut nrbeers: u64 = 99;
    while nrbeers > 1
        invariant
            1 <= nrbeers <= 99,
            s@ == verses_down(99, nrbeers as nat),
        decreases nrbeers,
    {
        let ghost before = s@;
        push_decimal(&mut s, nrbeers);
        s.append(" bottles of beer on the wall,\n");
        push_decimal(&mut s, nrbeers);
        s.append(" bottles of beer.\n");
        s.append("Take one down, pass it around,\n");
        nrbeers = nrbeers - 1;
        push_decimal(&mut s, nrbeers);
        s.append(" bottles of beer on the wall.\n");
        s.append("\n\n");
        assert(s@ =~= before + verse((nrbeers + 1) as nat));
    }
    s.append("1 bottle of beer on the wall,\n");
    s.append("1 bottle of beer.\n");
    s.append("Take one down, pass it around,\n");
    s.append("No bottles of beer on the wall.\n");
    s.append("\n\n");
    s.append("No bottles of beer on the wall,\n");
    s.append("No bottles of beer.\n");
    s.append("Go to the store, buy some more,\n");
    s.append("99 bottles of beer on the wall.\n");
    assert(s@ =~= verses_down(99, 1) + ending());
    s
}

} // verus!
