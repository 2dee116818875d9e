use vstd::prelude::*;
use crate::text::push_char;

verus! {

/// `n` spaces (none when `n <= 0`).
pub open spec fn spaces(n: int) -> Seq<char> {
    Seq::new(if n > 0 { n as nat } else { 0 }, |_i: int| ' ')
}

/// Appends `n` spaces to `s` (none when `n <= 0`). The counter runs one past `n`, so
/// `n` must be below `i32::MAX`.
pub fn add_space(s: &mut String, n: i32)
    requires
        n < i32::MAX,
    ensures
        final(s)@ == old(s)@ + spaces(n as int),
{
    let mut i: i32 = 1;
    while i <= n
        invariant
            1 <= i,
            i <= n + 1 || i == 1,
            n < i32::MAX,
            s@ =~= old(s)@ + Seq::new((i - 1) as nat, |_k: int| ' '),
        decreases n + 1 - i,
    {
        push_char(s, ' ');
        i = i + 1;
    }
}

/// Appends `str` to `s`.
pub fn add_str(s: &mut String, str: &str)
    ensures
        final(s)@ == old(s)@ + str@,
{
    s.append(str);
}

/// The digits of `n` read from the last to the first, appended to `acc` as a number:
/// `rev_acc(123, 0) == 321`; trailing zeros of `n` vanish.
pub open spec fn rev_acc(n: nat, acc: nat) -> nat
    decreases n,
{
    if n == 0 {
        acc
    } else {
        rev_acc(n / 10, acc * 10 + n % 10)
    }
}

/// The number written with the digits of `n` in reverse order.
pub open spec fn reversed(n: nat) -> nat {
    rev_acc(n, 0)
}

/// The characters emitted for `r`, lowest digit first: after every third digit an
/// underscore, when the last two digits of the remaining number (`(r / 10) % 100`) are
/// more than 9.
pub open spec fn grouped(r: nat, count: nat) -> Seq<char>
    decreases r,
{
    if r == 0 {
        Seq::empty()
    } else {
        let d = seq![(('0' as u32) + r % 10) as char];
        if count + 1 == 3 && (r / 10) % 100 > 9 {
            d + seq!['_'] + grouped(r / 10, 0)
        } else {
            d + grouped(r / 10, count + 1)
        }
    }
}

/// How many decimal digits `n` has (none for 0).
pub open spec fn num_digits(n: nat) -> nat
    decreases n,
{
    if n == 0 {
        0
    } else {
        1 + num_digits(n / 10)
    }
}

proof fn lemma_num_digits_bound(n: nat)
    requires
        n <= i64::MAX,
    ensures
        num_digits(n) <= 19,
{
    assert(pow10(19) == 10000000000000000000nat) by {
        reveal_with_fuel(pow10, 20);
    }
    lemma_num_digits_below(n, 19);
}

proof fn lemma_num_digits_below(n: nat, k: nat)
    requires
        n < pow10(k),
    ensures
        num_digits(n) <= k,
    decreases k,
{
    if n > 0 {
        if k == 0 {
        } else {
            assert(n / 10 < pow10((k - 1) as nat));
            lemma_num_digits_below(n / 10, (k - 1) as nat);
        }
    }
}

/// Ten to the power `k`.
pub open spec fn pow10(k: nat) -> nat
    decreases k,
{
    if k == 0 {
        1
    } else {
        10 * pow10((k - 1) as nat)
    }
}

/// Reversing only grows the accumulator.
proof fn lemma_rev_acc_grows(n: nat, acc: nat)
    ensures
        rev_acc(n, acc) >= acc,
        n > 0 ==> rev_acc(n, acc) >= acc * 10 + n % 10,
    decreases n,
{
    if n > 0 {
        lemma_rev_acc_grows(n / 10, acc * 10 + n % 10);
    }
}

/// Appends `nr` written with its digits reversed and then read back from the lowest
/// digit, with an underscore after every third digit when the remaining number's last two
/// digits are more than 9:
/// `306437968` gives `"306_437_968"`. Negative numbers make the digit arithmetic leave
/// `u8`, and reversing must stay within `i64`.
pub fn add_integer(s: &mut String, nr: i64)
    requires
        nr >= 0,
        reversed(nr as nat) <= i64::MAX,
    ensures
        final(s)@ == old(s)@ + grouped(reversed(nr as nat), 0),
{
    let mut nr = nr;
    let mut nrdigits: i32 = 0;
    let mut ogl: i64 = 0;
    let ghost total = reversed(nr as nat);
    while nr != 0
        invariant
            nr >= 0,
            ogl >= 0,
            rev_acc(nr as nat, ogl as nat) == total,
            total <= i64::MAX,
        decreases nr,
    {
        proof {
            lemma_rev_acc_grows(nr as nat, ogl as nat);
        }
        ogl = ogl * 10 + nr % 10;
        nr = nr / 10;
    }
    nr = ogl;
    proof {
        lemma_num_digits_bound(nr as nat);
    }
    let ghost s0 = s@;
    while nr != 0
        invariant
            nr >= 0,
            0 <= nrdigits,
            nrdigits + num_digits(nr as nat) <= 19,
            s0 + grouped(total, 0) == s@ + grouped(nr as nat, nrdigits as nat),
        decreases nr,
    {
        let ghost before = s@;
        let ghost r = nr as nat;
        let ghost cnt = nrdigits as nat;
        nrdigits = nrdigits + 1;
        push_char(s, (((nr % 10) as u8) + 48) as char);
        nr = nr / 10;
        if nrdigits == 3 && nr % 100 > 9 {
            push_char(s, '_');
            nrdigits = 0;
        }
        assert(s0 + grouped(total, 0) =~= s@ + grouped(nr as nat, nrdigits as nat));
    }
}

} // verus!
