use vstd::prelude::*;
use crate::text::{
    chars_of, lemma_nonempty_split_len, lemma_split_nonempty, split, split_by, split_words,
    string_of, string_views, views, words, Sep,
};
use crate::unicode::{lowercase, to_lowercase_str};
use vstd::utf8::encode_utf8;

verus! {

/// The words of the parts `parts[0..n]`, in order.
pub open spec fn words_of_parts(parts: Seq<Seq<char>>, n: int) -> Seq<Seq<char>>
    decreases n,
{
    if n <= 0 {
        Seq::empty()
    } else {
        words_of_parts(parts, n - 1) + words(parts[n - 1])
    }
}

/// The words of a text: it is cut at every character that is not alphanumeric, and the
/// whitespace-separated words of the pieces are kept, in order.
pub open spec fn text_words(text: Seq<char>) -> Seq<Seq<char>> {
    let parts = split_by(text, Sep::NotAlphanumeric);
    words_of_parts(parts, parts.len() as int)
}

/// The words of a text in lowercase, as they are counted.
pub open spec fn counted_words(text: Seq<char>) -> Seq<Seq<char>> {
    text_words(text).map_values(|w: Seq<char>| lowercase(w))
}

/// How many times `w` occurs in `ws`.
pub open spec fn occurrences(ws: Seq<Seq<char>>, w: Seq<char>) -> nat
    decreases ws.len(),
{
    if ws.len() == 0 {
        0
    } else {
        occurrences(ws.drop_last(), w) + if ws.last() == w {
            1nat
        } else {
            0nat
        }
    }
}

/// `a` comes before `b` in lexicographic order of code points.
pub open spec fn lex_lt(a: Seq<char>, b: Seq<char>) -> bool
    decreases a.len(),
{
    if b.len() == 0 {
        false
    } else if a.len() == 0 {
        true
    } else if a[0] < b[0] {
        true
    } else if a[0] > b[0] {
        false
    } else {
        lex_lt(a.drop_first(), b.drop_first())
    }
}

/// The order of the report: higher counts first, equal counts by word.
pub open spec fn ranks_before(a: (Seq<char>, i32), b: (Seq<char>, i32)) -> bool {
    a.1 > b.1 || (a.1 == b.1 && lex_lt(a.0, b.0))
}

/// A word and how often it occurs, as plain values.
pub open spec fn entry_view(e: (String, i32)) -> (Seq<char>, i32) {
    (e.0@, e.1)
}

/// `w` is the word of some entry of a report.
pub open spec fn has_word(r: Seq<(Seq<char>, i32)>, w: Seq<char>) -> bool {
    exists|i: int| 0 <= i < r.len() && r[i].0 == w
}

/// The report on a list of words: each word once with its number of occurrences, every
/// word present, and the entries in report order.
pub open spec fn is_count_report(ws: Seq<Seq<char>>, r: Seq<(Seq<char>, i32)>) -> bool {
    &&& forall|i: int|
        0 <= i < r.len() ==> ws.contains(#[trigger] r[i].0) && r[i].1 == occurrences(ws, r[i].0)
    &&& forall|k: int| 0 <= k < ws.len() ==> has_word(r, #[trigger] ws[k])
    &&& forall|i: int, j: int| 0 <= i < j < r.len() ==> ranks_before(#[trigger] r[i], #[trigger] r[j])
}

/// The report on a text: the report on its lowercased words.
pub open spec fn is_report(text: Seq<char>, r: Seq<(Seq<char>, i32)>) -> bool {
    is_count_report(counted_words(text), r)
}

proof fn lemma_lex_irreflexive(a: Seq<char>)
    ensures
        !lex_lt(a, a),
    decreases a.len(),
{
    if a.len() > 0 {
        lemma_lex_irreflexive(a.drop_first());
    }
}

proof fn lemma_lex_total(a: Seq<char>, b: Seq<char>)
    requires
        a != b,
    ensures
        lex_lt(a, b) || lex_lt(b, a),
    decreases a.len(),
{
    if a.len() > 0 && b.len() > 0 && a[0] == b[0] {
        if a.drop_first() == b.drop_first() {
            assert(a =~= seq![a[0]] + a.drop_first());
            assert(b =~= seq![b[0]] + b.drop_first());
        }
        lemma_lex_total(a.drop_first(), b.drop_first());
    } else if a.len() == 0 && b.len() == 0 {
        assert(a =~= b);
    }
}

proof fn lemma_lex_transitive(a: Seq<char>, b: Seq<char>, c: Seq<char>)
    requires
        lex_lt(a, b),
        lex_lt(b, c),
    ensures
        lex_lt(a, c),
    decreases a.len(),
{
    if a.len() > 0 && b.len() > 0 && c.len() > 0 && a[0] == b[0] && b[0] == c[0] {
        lemma_lex_transitive(a.drop_first(), b.drop_first(), c.drop_first());
    }
}

proof fn lemma_lex_asymmetric(a: Seq<char>, b: Seq<char>)
    requires
        lex_lt(a, b),
    ensures
        !lex_lt(b, a),
    decreases a.len(),
{
    if a.len() > 0 && b.len() > 0 && a[0] == b[0] {
        lemma_lex_asymmetric(a.drop_first(), b.drop_first());
    }
}

/// Whether `a` comes before `b` in lexicographic order of code points.
fn lex_less(a: &[char], b: &[char]) -> (r: bool)
    ensures
        r == lex_lt(a@, b@),
{
    let mut i: usize = 0;
    assert(a@.skip(0) =~= a@ && b@.skip(0) =~= b@);
    while i < a.len() && i < b.len()
        invariant
            i <= a@.len(),
            i <= b@.len(),
            lex_lt(a@, b@) == lex_lt(a@.skip(i as int), b@.skip(i as int)),
        decreases a@.len() - i,
    {
        let x = a[i];
        let y = b[i];
        assert(a@.skip(i as int)[0] == x && b@.skip(i as int)[0] == y);
        if x < y {
            return true;
        }
        if x > y {
            return false;
        }
        assert(a@.skip(i as int).drop_first() =~= a@.skip(i + 1));
        assert(b@.skip(i as int).drop_first() =~= b@.skip(i + 1));
        i = i + 1;
    }
    i < b.len()
}

fn rank_less(a: &(String, i32), b: &(String, i32)) -> (r: bool)
    ensures
        r == ranks_before(entry_view(*a), entry_view(*b)),
{
    if a.1 > b.1 {
        return true;
    }
    if a.1 < b.1 {
        return false;
    }
    let ac = chars_of(a.0.as_str());
    let bc = chars_of(b.0.as_str());
    lex_less(&ac, &bc)
}

/// Number of characters in all pieces.
pub open spec fn total_len(p: Seq<Seq<char>>) -> nat
    decreases p.len(),
{
    if p.len() == 0 {
        0
    } else {
        total_len(p.drop_last()) + p.last().len()
    }
}

proof fn lemma_split_total_len(s: Seq<char>, sep: Sep)
    ensures
        total_len(split_by(s, sep)) <= s.len(),
    decreases s.len(),
{
    if s.len() > 0 {
        let prev = split_by(s.drop_last(), sep);
        lemma_split_nonempty(s.drop_last(), sep);
        lemma_split_total_len(s.drop_last(), sep);
        if is_sep_last(s, sep) {
            let q = prev.push(Seq::empty());
            assert(q.drop_last() =~= prev);
            assert(split_by(s, sep) == q);
            assert(total_len(q) == total_len(q.drop_last()) + q.last().len());
        } else {
            let x = prev.last().push(s.last());
            let q = prev.update(prev.len() - 1, x);
            assert(q.drop_last() =~= prev.drop_last());
            assert(split_by(s, sep) == q);
            assert(total_len(prev) == total_len(prev.drop_last()) + prev.last().len());
            assert(total_len(q) == total_len(q.drop_last()) + q.last().len());
        }
    } else {
        let p = split_by(s, sep);
        assert(p.drop_last() =~= Seq::<Seq<char>>::empty());
        assert(total_len(p) == total_len(p.drop_last()) + p.last().len());
    }
}

spec fn is_sep_last(s: Seq<char>, sep: Sep) -> bool {
    crate::text::is_sep(sep, s.last())
}

proof fn lemma_words_of_parts_len(parts: Seq<Seq<char>>, n: int)
    requires
        0 <= n <= parts.len(),
    ensures
        words_of_parts(parts, n).len() <= total_len(parts.take(n)),
    decreases n,
{
    if n > 0 {
        lemma_words_of_parts_len(parts, n - 1);
        lemma_nonempty_split_len(parts[n - 1], Sep::Whitespace);
        assert(parts.take(n).drop_last() =~= parts.take(n - 1));
    }
}

/// A text has no more words than characters.
proof fn lemma_text_words_len(text: Seq<char>)
    ensures
        text_words(text).len() <= text.len(),
{
    let parts = split_by(text, Sep::NotAlphanumeric);
    lemma_words_of_parts_len(parts, parts.len() as int);
    lemma_split_total_len(text, Sep::NotAlphanumeric);
    assert(parts.take(parts.len() as int) =~= parts);
}

proof fn lemma_occurrences_bound(ws: Seq<Seq<char>>, w: Seq<char>)
    ensures
        occurrences(ws, w) <= ws.len(),
    decreases ws.len(),
{
    if ws.len() > 0 {
        lemma_occurrences_bound(ws.drop_last(), w);
    }
}

proof fn lemma_occurrences_prefix(ws: Seq<Seq<char>>, n: int, w: Seq<char>)
    requires
        0 <= n <= ws.len(),
    ensures
        occurrences(ws.take(n), w) <= occurrences(ws, w),
    decreases ws.len() - n,
{
    if n < ws.len() {
        lemma_occurrences_prefix(ws, n + 1, w);
        assert(ws.take(n + 1).drop_last() =~= ws.take(n));
    } else {
        assert(ws.take(n) =~= ws);
    }
}

proof fn lemma_occurrences_absent(ws: Seq<Seq<char>>, w: Seq<char>)
    requires
        !ws.contains(w),
    ensures
        occurrences(ws, w) == 0,
    decreases ws.len(),
{
    if ws.len() > 0 {
        assert(!ws.drop_last().contains(w)) by {
            if ws.drop_last().contains(w) {
                let k = choose|k: int| 0 <= k < ws.drop_last().len() && ws.drop_last()[k] == w;
                assert(ws[k] == w);
            }
        }
        assert(ws.last() != w) by {
            assert(ws[ws.len() - 1] == ws.last());
        }
        lemma_occurrences_absent(ws.drop_last(), w);
    }
}

/// `w` is the word of some entry of a count table.
pub open spec fn listed(v: Seq<(String, i32)>, w: Seq<char>) -> bool {
    exists|i: int| 0 <= i < v.len() && v[i].0@ == w
}

/// Every entry of a count table holds a word of `all` with its number of occurrences.
pub open spec fn counts_agree(v: Seq<(String, i32)>, all: Seq<Seq<char>>) -> bool {
    forall|i: int|
        0 <= i < v.len() ==> all.contains(#[trigger] v[i].0@) && v[i].1 == occurrences(all, v[i].0@)
}

/// Every word of `all` has an entry in a count table.
pub open spec fn covers(v: Seq<(String, i32)>, all: Seq<Seq<char>>) -> bool {
    forall|k: int| 0 <= k < all.len() ==> listed(v, #[trigger] all[k])
}

/// No word has two entries in a count table.
pub open spec fn distinct_words(v: Seq<(String, i32)>) -> bool {
    forall|i: int, j: int| 0 <= i < j < v.len() ==> v[i].0@ != v[j].0@
}

/// No word occurs more often than an `i32` counts.
pub open spec fn counts_fit(ws: Seq<Seq<char>>) -> bool {
    forall|w: Seq<char>| #[trigger] occurrences(ws, w) <= i32::MAX
}

/// The report on `words`, or `None` when some word occurs more often than an `i32`
/// counts (its counter would overflow).
fn count_report(words: &[String]) -> (r: Option<Vec<(String, i32)>>)
    ensures
        r is None <==> !counts_fit(string_views(words@)),
        r matches Some(v) ==> is_count_report(
            string_views(words@),
            v@.map_values(|e: (String, i32)| entry_view(e)),
        ),
{
    let ghost all = string_views(words@);
    let mut counts: Vec<(String, i32)> = Vec::new();
    let mut i: usize = 0;
    assert(all.take(0) =~= Seq::<Seq<char>>::empty());
    while i < words.len()
        invariant
            i <= words@.len(),
            all == string_views(words@),
            counts_agree(counts@, all.take(i as int)),
            covers(counts@, all.take(i as int)),
            distinct_words(counts@),
        decreases words@.len() - i,
    {
        let lw = words[i].clone();
        let ghost seen = all.take(i as int);
        let ghost next = all.take(i + 1);
        proof {
            assert(next =~= seen.push(lw@));
            assert(next.drop_last() =~= seen);
        }
        let found = find_key(&counts, &lw);
        let ghost old_counts = counts@;
        if found < counts.len() {
            let c = counts[found].1;
            if c == 2147483647 {
                proof {
                    assert(c == occurrences(seen, lw@));
                    assert(occurrences(next, lw@) == occurrences(seen, lw@) + 1);
                    lemma_occurrences_prefix(all, i + 1, lw@);
                    assert(occurrences(all, lw@) > i32::MAX);
                }
                return None;
            }
            let key = counts[found].0.clone();
            counts.set(found, (key, c + 1));
            proof {
                assert forall|j: int| 0 <= j < counts@.len() implies next.contains(
                    #[trigger] counts@[j].0@,
                ) && counts@[j].1 == occurrences(next, counts@[j].0@) by {
                    if j != found {
                        assert(counts@[j] == old_counts[j]);
                        assert(seen.contains(counts@[j].0@));
                        let k = choose|k: int| 0 <= k < seen.len() && seen[k] == counts@[j].0@;
                        assert(next[k] == counts@[j].0@);
                    } else {
                        assert(next[next.len() - 1] == lw@);
                    }
                }
                assert forall|k: int| 0 <= k < next.len() implies listed(
                    counts@,
                    #[trigger] next[k],
                ) by {
                    if k < seen.len() {
                        assert(next[k] == seen[k]);
                        assert(listed(old_counts, seen[k]));
                        let j = choose|j: int|
                            0 <= j < old_counts.len() && old_counts[j].0@ == seen[k];
                        assert(counts@[j].0@ == old_counts[j].0@);
                    } else {
                        assert(counts@[found as int].0@ == next[k]);
                    }
                }
                assert forall|a: int, b: int| 0 <= a < b < counts@.len() implies counts@[a].0@
                    != counts@[b].0@ by {
                    assert(counts@[a].0@ == old_counts[a].0@);
                    assert(counts@[b].0@ == old_counts[b].0@);
                }
            }
        } else {
            proof {
                assert(!seen.contains(lw@)) by {
                    if seen.contains(lw@) {
                        let k = choose|k: int| 0 <= k < seen.len() && seen[k] == lw@;
                        assert(listed(old_counts, seen[k]));
                    }
                }
                lemma_occurrences_absent(seen, lw@);
            }
            counts.push((lw, 1));
            proof {
                assert forall|j: int| 0 <= j < counts@.len() implies next.contains(
                    #[trigger] counts@[j].0@,
                ) && counts@[j].1 == occurrences(next, counts@[j].0@) by {
                    if j < old_counts.len() {
                        assert(counts@[j] == old_counts[j]);
                        assert(seen.contains(counts@[j].0@));
                        let k = choose|k: int| 0 <= k < seen.len() && seen[k] == counts@[j].0@;
                        assert(next[k] == counts@[j].0@);
                        assert(counts@[j].0@ != next.last());
                    } else {
                        assert(next[next.len() - 1] == counts@[j].0@);
                    }
                }
                assert forall|k: int| 0 <= k < next.len() implies listed(
                    counts@,
                    #[trigger] next[k],
                ) by {
                    if k < seen.len() {
                        assert(next[k] == seen[k]);
                        assert(listed(old_counts, seen[k]));
                        let j = choose|j: int|
                            0 <= j < old_counts.len() && old_counts[j].0@ == seen[k];
                        assert(counts@[j] == old_counts[j]);
                    } else {
                        assert(counts@[old_counts.len() as int].0@ == next[k]);
                    }
                }
            }
        }
        i = i + 1;
    }
    assert(all.take(i as int) =~= all);
    proof {
        assert forall|w: Seq<char>| #[trigger] occurrences(all, w) <= i32::MAX by {
            if all.contains(w) {
                let k = choose|k: int| 0 <= k < all.len() && all[k] == w;
                assert(listed(counts@, all[k]));
                let j = choose|j: int| 0 <= j < counts@.len() && counts@[j].0@ == all[k];
                assert(counts@[j].1 == occurrences(all, counts@[j].0@));
            } else {
                lemma_occurrences_absent(all, w);
            }
        }
    }
    let r = sort_report(counts, Ghost(all));
    proof {
        let rv = r@.map_values(|e: (String, i32)| entry_view(e));
        assert forall|j: int| 0 <= j < rv.len() implies all.contains(#[trigger] rv[j].0)
            && rv[j].1 == occurrences(all, rv[j].0) by {
            assert(rv[j] == entry_view(r@[j]));
            assert(all.contains(r@[j].0@));
        }
        assert forall|k: int| 0 <= k < all.len() implies has_word(rv, #[trigger] all[k]) by {
            assert(listed(r@, all[k]));
            let j = choose|j: int| 0 <= j < r@.len() && r@[j].0@ == all[k];
            assert(rv[j] == entry_view(r@[j]));
        }
        assert forall|a: int, b: int| 0 <= a < b < rv.len() implies ranks_before(
            #[trigger] rv[a],
            #[trigger] rv[b],
        ) by {
            assert(rv[a] == entry_view(r@[a]));
            assert(rv[b] == entry_view(r@[b]));
        }
    }
    Some(r)
}

/// Each distinct word of `words` with its number of occurrences, most frequent first and
/// equally frequent words in alphabetical (code point) order. Counts are `i32`, so no
/// word may occur more often than `i32::MAX` times.
pub fn frequency_report(words: &[String]) -> (r: Vec<(String, i32)>)
    requires
        counts_fit(string_views(words@)),
    ensures
        is_count_report(string_views(words@), r@.map_values(|e: (String, i32)| entry_view(e))),
{
    match count_report(words) {
        Some(r) => r,
        None => {
            proof {
                assert(false);
            }
            Vec::new()
        },
    }
}

/// The words of `text`, lowercased, in order.
fn lowered_words(text: &str) -> (r: Vec<String>)
    ensures
        string_views(r@) == counted_words(text@),
{
    let cs = chars_of(text);
    let parts = split(&cs, Sep::NotAlphanumeric);
    let ghost pv = views(parts@);
    let mut lowered: Vec<String> = Vec::new();
    let mut pi: usize = 0;
    while pi < parts.len()
        invariant
            pi <= parts@.len(),
            pv == views(parts@),
            pv == split_by(text@, Sep::NotAlphanumeric),
            string_views(lowered@) == words_of_parts(pv, pi as int).map_values(
                |w: Seq<char>| lowercase(w),
            ),
        decreases parts@.len() - pi,
    {
        let ws = split_words(&parts[pi]);
        let ghost wv = views(ws@);
        let ghost seen0 = string_views(lowered@);
        assert(wv == words(pv[pi as int]));
        assert(seen0 + wv.take(0).map_values(|w: Seq<char>| lowercase(w)) =~= seen0);
        let mut wi: usize = 0;
        while wi < ws.len()
            invariant
                wi <= ws@.len(),
                pi < parts@.len(),
                wv == views(ws@),
                string_views(lowered@) == seen0 + wv.take(wi as int).map_values(
                    |w: Seq<char>| lowercase(w),
                ),
            decreases ws@.len() - wi,
        {
            let word = string_of(&ws[wi]);
            let lw = to_lowercase_str(word.as_str());
            let ghost before = string_views(lowered@);
            lowered.push(lw);
            assert(string_views(lowered@) =~= before.push(lowercase(wv[wi as int])));
            assert(seen0 + wv.take(wi + 1).map_values(|w: Seq<char>| lowercase(w)) =~= before.push(
                lowercase(wv[wi as int]),
            ));
            wi = wi + 1;
        }
        assert(wv.take(wv.len() as int) =~= wv);
        assert(string_views(lowered@) =~= words_of_parts(pv, pi + 1).map_values(
            |w: Seq<char>| lowercase(w),
        ));
        pi = pi + 1;
    }
    lowered
}

/// Each distinct lowercased word of `text` with its number of occurrences, most frequent
/// first and equally frequent words in alphabetical (code point) order. Counts are
/// `i32`, so no lowercased word may occur more often than `i32::MAX` times.
pub fn word_frequencies(text: &str) -> (r: Vec<(String, i32)>)
    requires
        counts_fit(counted_words(text@)),
    ensures
        is_report(text@, r@.map_values(|e: (String, i32)| entry_view(e))),
{
    let lowered = lowered_words(text);
    frequency_report(&lowered)
}

/// The report on `text`, or `None` when some lowercased word of it occurs more often than
/// an `i32` counts (never for a text of at most `i32::MAX` characters).
pub fn word_report(text: &str) -> (r: Option<Vec<(String, i32)>>)
    ensures
        r is None <==> !counts_fit(counted_words(text@)),
        text@.len() <= i32::MAX ==> r is Some,
        r matches Some(v) ==> is_report(text@, v@.map_values(|e: (String, i32)| entry_view(e))),
{
    proof {
        lemma_text_words_len(text@);
        if text@.len() <= i32::MAX {
            let ws = counted_words(text@);
            assert forall|w: Seq<char>| #[trigger] occurrences(ws, w) <= i32::MAX by {
                lemma_occurrences_bound(ws, w);
            }
        }
    }
    let lowered = lowered_words(text);
    count_report(&lowered)
}

/// The position of `key` in a count table, or the table's length when it is absent.
fn find_key(counts: &Vec<(String, i32)>, key: &String) -> (found: usize)
    ensures
        found <= counts@.len(),
        found < counts@.len() ==> counts@[found as int].0@ == key@,
        found == counts@.len() ==> forall|j: int| 0 <= j < counts@.len() ==> counts@[j].0@ != key@,
{
    let mut i: usize = 0;
    while i < counts.len()
        invariant
            i <= counts@.len(),
            forall|j: int| 0 <= j < i ==> counts@[j].0@ != key@,
        decreases counts@.len() - i,
    {
        if counts[i].0 == *key {
            return i;
        }
        i = i + 1;
    }
    i
}

/// The entries of a count table in report order.
fn sort_report(counts: Vec<(String, i32)>, Ghost(all): Ghost<Seq<Seq<char>>>) -> (r: Vec<(String, i32)>)
    requires
        counts_agree(counts@, all),
        covers(counts@, all),
        distinct_words(counts@),
    ensures
        counts_agree(r@, all),
        covers(r@, all),
        forall|i: int, j: int|
            0 <= i < j < r@.len() ==> ranks_before(
                #[trigger] entry_view(r@[i]),
                #[trigger] entry_view(r@[j]),
            ),
{
    let mut rest = counts;
    let mut out: Vec<(String, i32)> = Vec::new();
    while rest.len() > 0
        invariant
            counts_agree(rest@, all),
            counts_agree(out@, all),
            forall|k: int|
                0 <= k < all.len() ==> listed(rest@, #[trigger] all[k]) || listed(out@, all[k]),
            distinct_words(rest@),
            forall|i: int, j: int|
                0 <= i < out@.len() && 0 <= j < rest@.len() ==> ranks_before(
                    #[trigger] entry_view(out@[i]),
                    #[trigger] entry_view(rest@[j]),
                ),
            forall|i: int, j: int|
                0 <= i < j < out@.len() ==> ranks_before(
                    #[trigger] entry_view(out@[i]),
                    #[trigger] entry_view(out@[j]),
                ),
        decreases rest@.len(),
    {
        let mut best: usize = 0;
        let mut j: usize = 1;
        while j < rest.len()
            invariant
                0 < rest@.len(),
                best < j <= rest@.len(),
                forall|k: int|
                    0 <= k < j && k != best ==> ranks_before(
                        entry_view(rest@[best as int]),
                        #[trigger] entry_view(rest@[k]),
                    ),
                distinct_words(rest@),
            decreases rest@.len() - j,
        {
            if rank_less(&rest[j], &rest[best]) {
                proof {
                    assert forall|k: int| 0 <= k < j + 1 && k != j implies ranks_before(
                        entry_view(rest@[j as int]),
                        #[trigger] entry_view(rest@[k]),
                    ) by {
                        if k != best {
                            lemma_rank_transitive(
                                entry_view(rest@[j as int]),
                                entry_view(rest@[best as int]),
                                entry_view(rest@[k]),
                            );
                        }
                    }
                }
                best = j;
            } else {
                proof {
                    lemma_rank_total(entry_view(rest@[j as int]), entry_view(rest@[best as int]));
                }
            }
            j = j + 1;
        }
        let ghost before_rest = rest@;
        let ghost before_out = out@;
        let e = rest.remove(best);
        out.push(e);
        proof {
            assert forall|i: int, k: int| 0 <= i < out@.len() && 0 <= k < rest@.len() implies ranks_before(
                #[trigger] entry_view(out@[i]),
                #[trigger] entry_view(rest@[k]),
            ) by {
                let kk = if k < best {
                    k
                } else {
                    k + 1
                };
                assert(rest@[k] == before_rest[kk]);
                if i < before_out.len() {
                    assert(out@[i] == before_out[i]);
                } else {
                    assert(out@[i] == before_rest[best as int]);
                }
            }
            assert forall|i: int, k: int| 0 <= i < k < out@.len() implies ranks_before(
                #[trigger] entry_view(out@[i]),
                #[trigger] entry_view(out@[k]),
            ) by {
                assert(out@[i] == before_out[i]);
                if k < before_out.len() {
                    assert(out@[k] == before_out[k]);
                } else {
                    assert(out@[k] == before_rest[best as int]);
                }
            }
            assert forall|k: int| 0 <= k < all.len() implies listed(rest@, #[trigger] all[k])
                || listed(out@, all[k]) by {
                if listed(before_out, all[k]) {
                    let i = choose|i: int| 0 <= i < before_out.len() && before_out[i].0@ == all[k];
                    assert(out@[i] == before_out[i]);
                } else {
                    assert(listed(before_rest, all[k]));
                    let i = choose|i: int| 0 <= i < before_rest.len() && before_rest[i].0@ == all[k];
                    if i == best {
                        assert(out@[before_out.len() as int] == before_rest[i]);
                    } else if i < best {
                        assert(rest@[i] == before_rest[i]);
                    } else {
                        assert(rest@[i - 1] == before_rest[i]);
                    }
                }
            }
            assert forall|i: int| 0 <= i < rest@.len() implies all.contains(#[trigger] rest@[i].0@)
                && rest@[i].1 == occurrences(all, rest@[i].0@) by {
                let ii = if i < best {
                    i
                } else {
                    i + 1
                };
                assert(rest@[i] == before_rest[ii]);
            }
            assert forall|i: int| 0 <= i < out@.len() implies all.contains(#[trigger] out@[i].0@)
                && out@[i].1 == occurrences(all, out@[i].0@) by {
                if i < before_out.len() {
                    assert(out@[i] == before_out[i]);
                }
            }
            assert forall|i: int, k: int| 0 <= i < k < rest@.len() implies rest@[i].0@
                != rest@[k].0@ by {
                let ii = if i < best {
                    i
                } else {
                    i + 1
                };
                let kk = if k < best {
                    k
                } else {
                    k + 1
                };
                assert(rest@[i] == before_rest[ii]);
                assert(rest@[k] == before_rest[kk]);
            }
        }
    }
    proof {
        assert forall|k: int| 0 <= k < all.len() implies listed(out@, #[trigger] all[k]) by {
            if listed(rest@, all[k]) {
                let i = choose|i: int| 0 <= i < rest@.len() && rest@[i].0@ == all[k];
            }
        }
    }
    out
}

/// Distinct words are ranked one way or the other.
proof fn lemma_rank_total(a: (Seq<char>, i32), b: (Seq<char>, i32))
    requires
        a.0 != b.0,
    ensures
        ranks_before(a, b) || ranks_before(b, a),
{
    lemma_lex_total(a.0, b.0);
}

/// The report order is transitive.
proof fn lemma_rank_transitive(a: (Seq<char>, i32), b: (Seq<char>, i32), c: (Seq<char>, i32))
    requires
        ranks_before(a, b),
        ranks_before(b, c),
    ensures
        ranks_before(a, c),
{
    if a.1 == b.1 && b.1 == c.1 {
        lemma_lex_transitive(a.0, b.0, c.0);
    }
}

/// The number of bytes of a word in UTF-8.
pub open spec fn byte_len(w: Seq<char>) -> usize {
    encode_utf8(w).len() as usize
}

/// The byte length of the longest word in a report (0 for an empty report).
pub fn max_word_length(entries: &[(String, i32)]) -> (r: usize)
    ensures
        forall|i: int| 0 <= i < entries@.len() ==> byte_len(#[trigger] entries@[i].0@) <= r,
        entries@.len() == 0 ==> r == 0,
        entries@.len() > 0 ==> exists|i: int|
            0 <= i < entries@.len() && byte_len(#[trigger] entries@[i].0@) == r,
{
    let mut m: usize = 0;
    let mut i: usize = 0;
    while i < entries.len()
        invariant
            i <= entries@.len(),
            forall|k: int| 0 <= k < i ==> byte_len(#[trigger] entries@[k].0@) <= m,
            i == 0 ==> m == 0,
            i > 0 ==> exists|k: int| 0 <= k < i && byte_len(#[trigger] entries@[k].0@) == m,
        decreases entries@.len() - i,
    {
        let l = entries[i].0.as_str().len();
        if l > m || i == 0 {
            m = l;
        }
        i = i + 1;
    }
    m
}

} // verus!
