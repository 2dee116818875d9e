use vstd::prelude::*;
use crate::unicode::{alphanumeric, is_alphanumeric, is_whitespace, whitespace};

verus! {

/// std's `String::push`. Trusted: afterwards the string is the old one with `c` added
/// at its end.
#[verifier::external_body]
pub(crate) fn push_char(s: &mut String, c: char)
    ensures
        final(s)@ == old(s)@.push(c),
{
    s.push(c);
}

/// The characters of `s`, in order.
pub fn chars_of(s: &str) -> (v: Vec<char>)
    ensures
        v@ == s@,
{
    let mut v: Vec<char> = Vec::new();
    for c in it: s.chars()
        invariant
            it.seq() == s@,
            v@ == s@.take(it.index() as int),
    {
        assert(s@.take(it.index() + 1) =~= s@.take(it.index() as int).push(c));
        v.push(c);
    }
    assert(s@.take(s@.len() as int) =~= s@);
    v
}

/// Appends the characters of `v` to `s`.
pub fn push_chars(s: &mut String, v: &[char])
    ensures
        final(s)@ == old(s)@ + v@,
{
    let mut i: usize = 0;
    while i < v.len()
        invariant
            i <= v@.len(),
            s@ == old(s)@ + v@.take(i as int),
        decreases v@.len() - i,
    {
        push_char(s, v[i]);
        assert(v@.take(i + 1) =~= v@.take(i as int).push(v@[i as int]));
        i = i + 1;
    }
    assert(v@.take(v@.len() as int) =~= v@);
}

/// A `String` holding exactly the characters of `v`.
pub fn string_of(v: &[char]) -> (s: String)
    ensures
        s@ == v@,
{
    let mut s = String::new();
    push_chars(&mut s, v);
    s
}

/// A `String` holding the characters of a literal.
pub fn string_from(lit: &str) -> (s: String)
    ensures
        s@ == lit@,
{
    let mut s = String::new();
    s.append(lit);
    s
}

/// Whether two character sequences are equal.
pub fn same_chars(a: &[char], b: &[char]) -> (r: bool)
    ensures
        r == (a@ == b@),
{
    if a.len() != b.len() {
        return false;
    }
    let mut i: usize = 0;
    while i < a.len()
        invariant
            a@.len() == b@.len(),
            i <= a@.len(),
            forall|j: int| 0 <= j < i ==> a@[j] == b@[j],
        decreases a@.len() - i,
    {
        if a[i] != b[i] {
            return false;
        }
        i = i + 1;
    }
    assert(a@ =~= b@);
    true
}

/// A class of separator characters.
#[derive(Clone, Copy)]
pub enum Sep {
    /// One given character.
    Char(char),
    /// A space or a NUL character.
    SpaceOrNul,
    /// Unicode whitespace.
    Whitespace,
    /// Anything that is not alphanumeric.
    NotAlphanumeric,
}

/// `c` belongs to the separator class.
pub open spec fn is_sep(sep: Sep, c: char) -> bool {
    match sep {
        Sep::Char(x) => c == x,
        Sep::SpaceOrNul => c == ' ' || c == '\0',
        Sep::Whitespace => whitespace(c),
        Sep::NotAlphanumeric => !alphanumeric(c),
    }
}

/// Whether `c` belongs to the separator class.
pub fn sep_matches(sep: Sep, c: char) -> (r: bool)
    ensures
        r == is_sep(sep, c),
{
    match sep {
        Sep::Char(x) => c == x,
        Sep::SpaceOrNul => c == ' ' || c == '\0',
        Sep::Whitespace => is_whitespace(c),
        Sep::NotAlphanumeric => !is_alphanumeric(c),
    }
}

/// The pieces of `s` between separator characters, as std's `str::split` yields them:
/// always at least one piece, empty pieces included.
pub open spec fn split_by(s: Seq<char>, sep: Sep) -> Seq<Seq<char>>
    decreases s.len(),
{
    if s.len() == 0 {
        seq![Seq::empty()]
    } else {
        let prev = split_by(s.drop_last(), sep);
        if is_sep(sep, s.last()) {
            prev.push(Seq::empty())
        } else {
            prev.update(prev.len() - 1, prev.last().push(s.last()))
        }
    }
}

/// Splitting yields at least one piece.
pub proof fn lemma_split_nonempty(s: Seq<char>, sep: Sep)
    ensures
        split_by(s, sep).len() >= 1,
    decreases s.len(),
{
    if s.len() > 0 {
        lemma_split_nonempty(s.drop_last(), sep);
    }
}

/// The views of a list of character vectors.
pub open spec fn views(v: Seq<Vec<char>>) -> Seq<Seq<char>> {
    v.map_values(|p: Vec<char>| p@)
}

/// The views of a list of strings.
pub open spec fn string_views(v: Seq<String>) -> Seq<Seq<char>> {
    v.map_values(|p: String| p@)
}

/// The pieces of `s` between separators.
pub fn split(s: &[char], sep: Sep) -> (pieces: Vec<Vec<char>>)
    ensures
        views(pieces@) == split_by(s@, sep),
{
    let mut pieces: Vec<Vec<char>> = Vec::new();
    let mut cur: Vec<char> = Vec::new();
    let mut i: usize = 0;
    assert(s@.take(0) =~= Seq::<char>::empty());
    while i < s.len()
        invariant
            i <= s@.len(),
            views(pieces@).push(cur@) == split_by(s@.take(i as int), sep),
        decreases s@.len() - i,
    {
        let c = s[i];
        let ghost t = s@.take(i + 1);
        assert(t.drop_last() =~= s@.take(i as int));
        assert(t.last() == c);
        proof {
            lemma_split_nonempty(s@.take(i as int), sep);
        }
        if sep_matches(sep, c) {
            let ghost before = views(pieces@);
            pieces.push(cur);
            cur = Vec::new();
            assert(views(pieces@) =~= before.push(views(pieces@).last()));
            assert(views(pieces@).push(cur@) =~= split_by(t, sep));
        } else {
            let ghost before = views(pieces@).push(cur@);
            cur.push(c);
            assert(views(pieces@).push(cur@) =~= before.update(
                before.len() - 1,
                before.last().push(c),
            ));
        }
        i = i + 1;
    }
    assert(s@.take(s@.len() as int) =~= s@);
    let ghost before = views(pieces@);
    pieces.push(cur);
    assert(views(pieces@) =~= before.push(views(pieces@).last()));
    pieces
}

/// std's `String::pop` on a nonempty string. Trusted: afterwards the string is the old
/// one without its last character (the removed character is not returned here).
#[verifier::external_body]
pub(crate) fn pop_char(s: &mut String)
    requires
        old(s)@.len() > 0,
    ensures
        final(s)@ == old(s)@.drop_last(),
{
    s.pop();
}

/// The nonempty pieces of a list, in order.
pub open spec fn nonempty(p: Seq<Seq<char>>) -> Seq<Seq<char>>
    decreases p.len(),
{
    if p.len() == 0 {
        Seq::empty()
    } else if p.last().len() == 0 {
        nonempty(p.drop_last())
    } else {
        nonempty(p.drop_last()).push(p.last())
    }
}

/// Keeping only nonempty pieces never lengthens the list.
pub proof fn lemma_nonempty_len(p: Seq<Seq<char>>)
    ensures
        nonempty(p).len() <= p.len(),
    decreases p.len(),
{
    if p.len() > 0 {
        lemma_nonempty_len(p.drop_last());
    }
}

/// Changing the last piece of a list to a nonempty one gives the nonempty pieces before
/// it, then that piece.
proof fn lemma_nonempty_update_last(p: Seq<Seq<char>>, x: Seq<char>)
    requires
        p.len() >= 1,
        x.len() > 0,
    ensures
        nonempty(p.update(p.len() - 1, x)) == nonempty(p.drop_last()).push(x),
        nonempty(p).len() >= nonempty(p.drop_last()).len(),
{
    let q = p.update(p.len() - 1, x);
    assert(q.drop_last() =~= p.drop_last());
}

/// A text has no more nonempty pieces than characters.
pub proof fn lemma_nonempty_split_len(s: Seq<char>, sep: Sep)
    ensures
        nonempty(split_by(s, sep)).len() <= s.len(),
    decreases s.len(),
{
    if s.len() > 0 {
        let prev = split_by(s.drop_last(), sep);
        lemma_split_nonempty(s.drop_last(), sep);
        lemma_nonempty_split_len(s.drop_last(), sep);
        if is_sep(sep, s.last()) {
            let q = prev.push(Seq::empty());
            assert(q.drop_last() =~= prev);
            assert(split_by(s, sep) == q);
            assert(nonempty(q) == nonempty(prev));
            assert(nonempty(prev).len() <= s.drop_last().len());
        } else {
            let x = prev.last().push(s.last());
            let q = prev.update(prev.len() - 1, x);
            assert(split_by(s, sep) == q);
            lemma_nonempty_update_last(prev, x);
            assert(nonempty(q).len() == nonempty(prev.drop_last()).len() + 1);
            assert(nonempty(prev).len() <= s.drop_last().len());
        }
    } else {
        let p = split_by(s, sep);
        assert(p.drop_last() =~= Seq::<Seq<char>>::empty());
        assert(nonempty(p.drop_last()).len() == 0);
    }
}

/// The words of `s`, as std's `str::split_whitespace` yields them: the nonempty runs of
/// non-whitespace characters.
pub open spec fn words(s: Seq<char>) -> Seq<Seq<char>> {
    nonempty(split_by(s, Sep::Whitespace))
}

/// The nonempty pieces of `s` between separators.
pub fn split_nonempty(s: &[char], sep: Sep) -> (r: Vec<Vec<char>>)
    ensures
        views(r@) == nonempty(split_by(s@, sep)),
{
    let pieces = split(s, sep);
    let ghost p = views(pieces@);
    let mut r: Vec<Vec<char>> = Vec::new();
    let mut i: usize = 0;
    while i < pieces.len()
        invariant
            i <= pieces@.len(),
            p == views(pieces@),
            views(r@) == nonempty(p.take(i as int)),
        decreases pieces@.len() - i,
    {
        let ghost t = p.take(i + 1);
        assert(t.drop_last() =~= p.take(i as int));
        assert(t.last() == pieces@[i as int]@);
        if pieces[i].len() > 0 {
            let ghost before = views(r@);
            r.push(pieces[i].clone());
            assert(views(r@) =~= before.push(pieces@[i as int]@));
        }
        i = i + 1;
    }
    assert(p.take(pieces@.len() as int) =~= p);
    r
}

/// The words of `s`.
pub fn split_words(s: &[char]) -> (r: Vec<Vec<char>>)
    ensures
        views(r@) == words(s@),
{
    split_nonempty(s, Sep::Whitespace)
}

/// A line without the carriage return that ended it.
pub open spec fn strip_cr(l: Seq<char>) -> Seq<char> {
    if l.len() > 0 && l.last() == '\r' {
        l.drop_last()
    } else {
        l
    }
}

/// The lines of `s`, as std's `str::lines` yields them: split at `'\n'`, a `'\r'` just
/// before a `'\n'` dropped, and no empty last line after a final `'\n'`.
pub open spec fn lines_of(s: Seq<char>) -> Seq<Seq<char>> {
    let pieces = split_by(s, Sep::Char('\n'));
    let body = pieces.drop_last().map_values(|l: Seq<char>| strip_cr(l));
    if pieces.last().len() == 0 {
        body
    } else {
        body.push(pieces.last())
    }
}

/// What is left after trimming the end finishes with a character outside the class.
proof fn lemma_trim_end_last(s: Seq<char>, sep: Sep)
    ensures
        trim_end_by(s, sep).len() > 0 ==> !is_sep(sep, trim_end_by(s, sep).last()),
    decreases s.len(),
{
    if s.len() > 0 && is_sep(sep, s.last()) {
        lemma_trim_end_last(s.drop_last(), sep);
    }
}

/// A trimmed, nonempty text ends with a character outside the class.
pub proof fn lemma_trimmed_last(s: Seq<char>, sep: Sep)
    requires
        trim_by(s, sep) == s,
        s.len() > 0,
    ensures
        !is_sep(sep, s.last()),
{
    lemma_trim_end_last(trim_start_by(s, sep), sep);
}

/// Appending characters outside the class extends the last piece.
proof fn lemma_split_append_plain(s: Seq<char>, t: Seq<char>, sep: Sep)
    requires
        forall|k: int| 0 <= k < t.len() ==> !is_sep(sep, #[trigger] t[k]),
    ensures
        split_by(s + t, sep) == split_by(s, sep).update(
            split_by(s, sep).len() - 1,
            split_by(s, sep).last() + t,
        ),
    decreases t.len(),
{
    lemma_split_nonempty(s, sep);
    let p = split_by(s, sep);
    if t.len() == 0 {
        assert(s + t =~= s);
        assert(p.last() + t =~= p.last());
        assert(p.update(p.len() - 1, p.last() + t) =~= p);
    } else {
        let t1 = t.drop_last();
        lemma_split_append_plain(s, t1, sep);
        assert((s + t).drop_last() =~= s + t1);
        assert((s + t).last() == t[t.len() - 1]);
        let q = split_by(s + t1, sep);
        assert(q.last() == p.last() + t1);
        assert(q.last().push(t.last()) =~= p.last() + t);
        assert(split_by(s + t, sep) =~= p.update(p.len() - 1, p.last() + t));
    }
}

/// Adding a line (a text without newline, then a newline) to a text that is empty or
/// ends with a newline adds that line to its lines.
pub proof fn lemma_lines_append_line(c: Seq<char>, name: Seq<char>)
    requires
        c.len() == 0 || c.last() == '\n',
        forall|k: int| 0 <= k < name.len() ==> #[trigger] name[k] != '\n',
    ensures
        lines_of(c + name + seq!['\n']) == lines_of(c).push(strip_cr(name)),
{
    let sep = Sep::Char('\n');
    lemma_split_len(c, sep);
    lemma_split_nonempty(c, sep);
    let p = split_by(c, sep);
    lemma_split_append_plain(c, name, sep);
    let q = split_by(c + name, sep);
    assert(q =~= p.update(p.len() - 1, name)) by {
        assert(p.last() + name =~= name);
    }
    let full = c + name + seq!['\n'];
    assert(full.drop_last() =~= c + name);
    assert(full.last() == '\n');
    let r = split_by(full, sep);
    assert(r =~= q.push(Seq::empty()));
    assert(r.drop_last() =~= q);
    assert(q =~= p.drop_last().push(name));
    assert(lines_of(full) =~= q.map_values(|l: Seq<char>| strip_cr(l)));
    assert(lines_of(c) =~= p.drop_last().map_values(|l: Seq<char>| strip_cr(l)));
    assert(q.map_values(|l: Seq<char>| strip_cr(l)) =~= p.drop_last().map_values(
        |l: Seq<char>| strip_cr(l),
    ).push(strip_cr(name)));
}

/// A text splits into at most one piece more than it has characters, and into no more
/// pieces than characters when it does not end with a separator.
proof fn lemma_split_len(s: Seq<char>, sep: Sep)
    ensures
        split_by(s, sep).len() <= s.len() + 1,
        s.len() > 0 && !is_sep(sep, s.last()) ==> split_by(s, sep).len() <= s.len(),
        s.len() > 0 && is_sep(sep, s.last()) ==> split_by(s, sep).last().len() == 0,
        s.len() == 0 ==> split_by(s, sep).last().len() == 0,
    decreases s.len(),
{
    if s.len() > 0 {
        lemma_split_len(s.drop_last(), sep);
        lemma_split_nonempty(s.drop_last(), sep);
    }
}

/// A text has no more lines than characters.
pub proof fn lemma_lines_len(s: Seq<char>)
    ensures
        lines_of(s).len() <= s.len(),
{
    lemma_split_len(s, Sep::Char('\n'));
    lemma_split_nonempty(s, Sep::Char('\n'));
}

/// `l` without a final carriage return.
pub fn without_cr(l: Vec<char>) -> (r: Vec<char>)
    ensures
        r@ == strip_cr(l@),
{
    let mut l = l;
    if l.len() > 0 && l[l.len() - 1] == '\r' {
        l.pop();
    }
    l
}

/// The lines of `s`.
pub fn lines(s: &[char]) -> (r: Vec<Vec<char>>)
    ensures
        views(r@) == lines_of(s@),
{
    let pieces = split(s, Sep::Char('\n'));
    proof {
        lemma_split_nonempty(s@, Sep::Char('\n'));
    }
    let ghost p = views(pieces@);
    let n = pieces.len();
    let mut r: Vec<Vec<char>> = Vec::new();
    let mut i: usize = 0;
    while i + 1 < n
        invariant
            n == pieces@.len(),
            n >= 1,
            i + 1 <= n,
            p == views(pieces@),
            views(r@) =~= p.take(i as int).map_values(|l: Seq<char>| strip_cr(l)),
        decreases n - i,
    {
        let ghost before = views(r@);
        r.push(without_cr(pieces[i].clone()));
        assert(p.take(i + 1).map_values(|l: Seq<char>| strip_cr(l)) =~= before.push(
            strip_cr(p[i as int]),
        ));
        i = i + 1;
    }
    assert(p.take(i as int) =~= p.drop_last());
    if pieces[n - 1].len() > 0 {
        let ghost before = views(r@);
        r.push(pieces[n - 1].clone());
        assert(views(r@) =~= before.push(p.last()));
    }
    r
}

/// The lines of a text, as strings.
pub fn text_lines(text: &str) -> (r: Vec<String>)
    ensures
        string_views(r@) == lines_of(text@),
{
    let cs = chars_of(text);
    let ls = lines(&cs);
    let mut r: Vec<String> = Vec::new();
    let mut i: usize = 0;
    while i < ls.len()
        invariant
            i <= ls@.len(),
            string_views(r@) =~= views(ls@).take(i as int),
        decreases ls@.len() - i,
    {
        let ghost before = string_views(r@);
        r.push(string_of(&ls[i]));
        assert(string_views(r@) =~= before.push(ls@[i as int]@));
        i = i + 1;
    }
    assert(views(ls@).take(ls@.len() as int) =~= views(ls@));
    r
}

/// `s` without the separator characters at its start.
pub open spec fn trim_start_by(s: Seq<char>, sep: Sep) -> Seq<char>
    decreases s.len(),
{
    if s.len() > 0 && is_sep(sep, s[0]) {
        trim_start_by(s.drop_first(), sep)
    } else {
        s
    }
}

/// `s` without the separator characters at its end.
pub open spec fn trim_end_by(s: Seq<char>, sep: Sep) -> Seq<char>
    decreases s.len(),
{
    if s.len() > 0 && is_sep(sep, s.last()) {
        trim_end_by(s.drop_last(), sep)
    } else {
        s
    }
}

/// `s` without separator characters at either end (std's `str::trim` for whitespace,
/// `str::trim_matches` for other classes).
pub open spec fn trim_by(s: Seq<char>, sep: Sep) -> Seq<char> {
    trim_end_by(trim_start_by(s, sep), sep)
}

/// What is left after trimming the start begins with a character outside the class.
proof fn lemma_trim_start_first(s: Seq<char>, sep: Sep)
    ensures
        trim_start_by(s, sep).len() > 0 ==> !is_sep(sep, trim_start_by(s, sep)[0]),
    decreases s.len(),
{
    if s.len() > 0 && is_sep(sep, s[0]) {
        lemma_trim_start_first(s.drop_first(), sep);
    }
}

/// Trimming the end keeps the first character of what is left.
proof fn lemma_trim_end_first(s: Seq<char>, sep: Sep)
    ensures
        trim_end_by(s, sep).len() <= s.len(),
        trim_end_by(s, sep).len() > 0 ==> trim_end_by(s, sep)[0] == s[0],
    decreases s.len(),
{
    if s.len() > 0 && is_sep(sep, s.last()) {
        lemma_trim_end_first(s.drop_last(), sep);
    }
}

/// A trimmed, nonempty text begins with a character outside the class.
pub proof fn lemma_trimmed_first(s: Seq<char>, sep: Sep)
    requires
        trim_by(s, sep) == s,
        s.len() > 0,
    ensures
        !is_sep(sep, s[0]),
{
    lemma_trim_start_first(s, sep);
    lemma_trim_end_first(trim_start_by(s, sep), sep);
}

/// A text that begins and ends outside the class is its own trim.
pub proof fn lemma_trim_fixed(s: Seq<char>, sep: Sep)
    requires
        s.len() > 0,
        !is_sep(sep, s[0]),
        !is_sep(sep, s.last()),
    ensures
        trim_by(s, sep) == s,
{
}

/// `s` without separator characters at either end.
pub fn trim(s: &[char], sep: Sep) -> (r: Vec<char>)
    ensures
        r@ == trim_by(s@, sep),
{
    let mut a: usize = 0;
    assert(s@.skip(0) =~= s@);
    while a < s.len() && sep_matches(sep, s[a])
        invariant
            a <= s@.len(),
            trim_start_by(s@, sep) == trim_start_by(s@.skip(a as int), sep),
        decreases s@.len() - a,
    {
        assert(s@.skip(a as int).drop_first() =~= s@.skip(a + 1));
        a = a + 1;
    }
    let mut b: usize = s.len();
    assert(s@.skip(a as int).subrange(0, (b - a) as int) =~= s@.skip(a as int));
    while b > a && sep_matches(sep, s[b - 1])
        invariant
            a <= b <= s@.len(),
            trim_start_by(s@, sep) == s@.skip(a as int),
            trim_by(s@, sep) == trim_end_by(s@.subrange(a as int, b as int), sep),
        decreases b,
    {
        assert(s@.subrange(a as int, b as int).drop_last() =~= s@.subrange(a as int, b - 1));
        b = b - 1;
    }
    let mut r: Vec<char> = Vec::new();
    let mut k: usize = a;
    while k < b
        invariant
            a <= k <= b <= s@.len(),
            r@ =~= s@.subrange(a as int, k as int),
        decreases b - k,
    {
        r.push(s[k]);
        k = k + 1;
    }
    r
}

/// `needle` occurs in `hay` starting at position `i`.
pub open spec fn occurs_at(hay: Seq<char>, needle: Seq<char>, i: int) -> bool {
    0 <= i && i + needle.len() <= hay.len() && hay.subrange(i, i + needle.len()) == needle
}

/// `needle` occurs somewhere in `hay` (std's `str::contains` with a string pattern).
pub open spec fn contains_seq(hay: Seq<char>, needle: Seq<char>) -> bool {
    exists|i: int| occurs_at(hay, needle, i)
}

/// `hay` begins with `prefix`.
pub open spec fn starts_with_seq(hay: Seq<char>, prefix: Seq<char>) -> bool {
    occurs_at(hay, prefix, 0)
}

/// Whether `needle` occurs in `hay` at position `i`.
pub fn matches_at(hay: &[char], needle: &[char], i: usize) -> (r: bool)
    ensures
        r == occurs_at(hay@, needle@, i as int),
{
    if i > hay.len() || needle.len() > hay.len() - i {
        return false;
    }
    let mut j: usize = 0;
    while j < needle.len()
        invariant
            i + needle@.len() <= hay@.len(),
            j <= needle@.len(),
            forall|k: int| 0 <= k < j ==> hay@[i + k] == needle@[k],
        decreases needle@.len() - j,
    {
        let n = hay.len();
        assert(i + j < n);
        if hay[i + j] != needle[j] {
            assert(hay@.subrange(i as int, i + needle@.len())[j as int] != needle@[j as int]);
            return false;
        }
        j = j + 1;
    }
    assert(hay@.subrange(i as int, i + needle@.len()) =~= needle@);
    true
}

/// Whether `needle` occurs in `hay`.
pub fn contains(hay: &[char], needle: &[char]) -> (r: bool)
    ensures
        r == contains_seq(hay@, needle@),
{
    if needle.len() == 0 {
        assert(hay@.subrange(0, 0) =~= needle@);
        assert(occurs_at(hay@, needle@, 0));
        return true;
    }
    let mut i: usize = 0;
    while i < hay.len()
        invariant
            i <= hay@.len(),
            needle@.len() > 0,
            forall|k: int| 0 <= k < i ==> !occurs_at(hay@, needle@, k),
        decreases hay@.len() - i,
    {
        if matches_at(hay, needle, i) {
            return true;
        }
        i = i + 1;
    }
    assert forall|k: int| !occurs_at(hay@, needle@, k) by {
        if 0 <= k < i {
        }
    }
    false
}

/// Whether `hay` begins with `prefix`.
pub fn starts_with(hay: &[char], prefix: &[char]) -> (r: bool)
    ensures
        r == starts_with_seq(hay@, prefix@),
{
    matches_at(hay, prefix, 0)
}

/// `s` with every occurrence of `c` removed.
pub open spec fn without_char(s: Seq<char>, c: char) -> Seq<char>
    decreases s.len(),
{
    if s.len() == 0 {
        s
    } else if s.last() == c {
        without_char(s.drop_last(), c)
    } else {
        without_char(s.drop_last(), c).push(s.last())
    }
}

/// `s` with every occurrence of `c` removed.
pub fn remove_char(s: &[char], c: char) -> (r: Vec<char>)
    ensures
        r@ == without_char(s@, c),
{
    let mut r: Vec<char> = Vec::new();
    let mut i: usize = 0;
    while i < s.len()
        invariant
            i <= s@.len(),
            r@ == without_char(s@.take(i as int), c),
        decreases s@.len() - i,
    {
        assert(s@.take(i + 1).drop_last() =~= s@.take(i as int));
        if s[i] != c {
            r.push(s[i]);
        }
        i = i + 1;
    }
    assert(s@.take(s@.len() as int) =~= s@);
    r
}

/// The first position at or after `i` where the separator class occurs in `s`, or the
/// length of `s` when it does not occur there.
pub open spec fn find_from(s: Seq<char>, sep: Sep, i: int) -> int
    decreases s.len() - i,
{
    if i >= s.len() {
        s.len() as int
    } else if is_sep(sep, s[i]) {
        i
    } else {
        find_from(s, sep, i + 1)
    }
}

/// The first position of the separator class in `s`, if any.
pub fn find(s: &[char], sep: Sep) -> (r: usize)
    ensures
        r as int == find_from(s@, sep, 0),
        r <= s@.len(),
{
    let mut i: usize = 0;
    while i < s.len()
        invariant
            i <= s@.len(),
            find_from(s@, sep, 0) == find_from(s@, sep, i as int),
        decreases s@.len() - i,
    {
        if sep_matches(sep, s[i]) {
            return i;
        }
        i = i + 1;
    }
    i
}

/// What follows the first occurrence of `c` in `s`; all of `s` when `c` does not occur.
pub open spec fn after_first(s: Seq<char>, c: char) -> Seq<char> {
    let k = find_from(s, Sep::Char(c), 0);
    if k < s.len() {
        s.skip(k + 1)
    } else {
        s
    }
}

/// The characters of `s` from position `a` on.
pub fn tail(s: &[char], a: usize) -> (r: Vec<char>)
    requires
        a <= s@.len(),
    ensures
        r@ == s@.skip(a as int),
{
    let mut r: Vec<char> = Vec::new();
    let mut k: usize = a;
    while k < s.len()
        invariant
            a <= k <= s@.len(),
            r@ =~= s@.subrange(a as int, k as int),
        decreases s@.len() - k,
    {
        r.push(s[k]);
        k = k + 1;
    }
    r
}

/// The characters of `s` before position `b`.
pub fn head(s: &[char], b: usize) -> (r: Vec<char>)
    requires
        b <= s@.len(),
    ensures
        r@ == s@.take(b as int),
{
    let mut r: Vec<char> = Vec::new();
    let mut k: usize = 0;
    while k < b
        invariant
            k <= b <= s@.len(),
            r@ =~= s@.take(k as int),
        decreases b - k,
    {
        r.push(s[k]);
        k = k + 1;
    }
    r
}

/// What follows the first occurrence of `c` in `s`, or all of `s`.
pub fn after_first_char(s: &[char], c: char) -> (r: Vec<char>)
    ensures
        r@ == after_first(s@, c),
{
    let k = find(s, Sep::Char(c));
    if k < s.len() {
        tail(s, k + 1)
    } else {
        tail(s, 0)
    }
}

/// The first position at or after `i` where a space is directly followed by a NUL.
pub open spec fn find_space_nul_from(s: Seq<char>, i: int) -> int
    decreases s.len() - i,
{
    if i + 1 >= s.len() {
        s.len() as int
    } else if s[i] == ' ' && s[i + 1] == '\0' {
        i
    } else {
        find_space_nul_from(s, i + 1)
    }
}

/// The first piece of `s` split at the two-character pattern `" \0"` (what
/// `str::split(" \0").next()` yields): `s` up to the first space directly followed by a
/// NUL.
pub open spec fn before_space_nul(s: Seq<char>) -> Seq<char> {
    s.take(find_space_nul_from(s, 0))
}

/// `s` up to the first space directly followed by a NUL.
pub fn first_piece_space_nul(s: &[char]) -> (r: Vec<char>)
    ensures
        r@ == before_space_nul(s@),
{
    if s.len() < 2 {
        return head(s, s.len());
    }
    let mut i: usize = 0;
    while i < s.len() - 1
        invariant
            s@.len() >= 2,
            i <= s@.len(),
            find_space_nul_from(s@, 0) == find_space_nul_from(s@, i as int),
        decreases s@.len() - i,
    {
        if s[i] == ' ' && s[i + 1] == '\0' {
            return head(s, i);
        }
        i = i + 1;
    }
    head(s, s.len())
}

/// The decimal digit character for `d < 10`.
pub open spec fn digit_char(d: nat) -> char {
    (('0' as u32) + d) as char
}

/// The decimal notation of `n`, without leading zeros.
pub open spec fn decimal(n: nat) -> Seq<char>
    decreases n,
{
    if n < 10 {
        seq![digit_char(n)]
    } else {
        decimal(n / 10).push(digit_char(n % 10))
    }
}

/// The digit character for `d < 10`.
pub fn digit(d: u64) -> (c: char)
    requires
        d < 10,
    ensures
        c == digit_char(d as nat),
{
    let c = ascii_char_of_digit(d as u8);
    c
}

fn ascii_char_of_digit(d: u8) -> (c: char)
    requires
        d < 10,
    ensures
        c as u32 == '0' as u32 + d,
{
    (48u8 + d) as char
}

/// Appends the decimal notation of `n` to `s`.
pub fn push_decimal(s: &mut String, n: u64)
    ensures
        final(s)@ == old(s)@ + decimal(n as nat),
    decreases n,
{
    if n >= 10 {
        push_decimal(s, n / 10);
    }
    let c = digit(n % 10);
    push_char(s, c);
    assert(old(s)@ + decimal(n as nat) =~= s@);
}

} // verus!
