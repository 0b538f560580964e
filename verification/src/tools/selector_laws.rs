//! What selectors ask for.

use vstd::prelude::*;

use crate::strings::{
    dec, lacks, lemma_dec_is_read_back, lemma_split_first, lemma_split_none, number, split_on,
};
use crate::text::display_laws::are_alike;
use crate::tools::selector::{
    all_digits, asked, chunk_range, digits, is_chunk, is_digit, is_range_list, is_raw,
    last_index, lemma_last_index, looks_like_selector, raw_list, selector_colon, Asked,
};

verus! {

broadcast use vstd::seq::group_seq_axioms;

/// Whether a text has digits alone, and at least one.
pub open spec fn is_number(s: Seq<char>) -> bool {
    s.len() > 0 && forall|i: int| 0 <= i < s.len() ==> '0' <= #[trigger] s[i] && s[i] <= '9'
}

proof fn lemma_digits(a: Seq<char>, b: Seq<char>)
    requires
        forall|i: int| 0 <= i < a.len() ==> '0' <= #[trigger] a[i] && a[i] <= '9',
        b.len() == 0 || b[0] == '-' || b[0] == '+',
    ensures
        digits(a + b) == a.len(),
    decreases a.len(),
{
    let s = a + b;
    if a.len() == 0 {
        assert(s =~= b);
        if b.len() > 0 {
            assert(!is_digit(b[0]));
        }
    } else {
        let t = a.drop_first();
        assert forall|i: int| 0 <= i < t.len() implies '0' <= #[trigger] t[i] && t[i] <= '9' by {
            assert(t[i] == a[i + 1]);
        }
        assert(s.drop_first() =~= t + b);
        assert(s[0] == a[0]);
        assert('0' <= a[0] && a[0] <= '9');
        lemma_digits(t, b);
    }
}

proof fn lemma_dec_is_number(n: nat)
    ensures
        is_number(dec(n)),
        n <= usize::MAX ==> number(dec(n)) == Some(n),
    decreases n,
{
    lemma_dec_is_read_back(n);
    let d = dec(n);
    assert forall|i: int| 0 <= i < d.len() implies '0' <= #[trigger] d[i] && d[i] <= '9' by {}
}

proof fn lemma_number_behind(a: Seq<char>, sign: char, b: Seq<char>)
    requires
        is_number(a),
        sign == '-' || sign == '+',
        b.len() == 0 || is_number(b),
    ensures
        ({
            let s = a.push(sign) + b;
            &&& digits(s) == a.len()
            &&& s.take(a.len() as int) == a
            &&& s.skip(a.len() as int + 1) == b
            &&& s[a.len() as int] == sign
            &&& all_digits(s, a.len() as int + 1)
        }),
{
    let s = a.push(sign) + b;
    let rest = seq![sign] + b;
    assert(s =~= a + rest);
    lemma_digits(a, rest);
    assert(s.take(a.len() as int) =~= a);
    assert(s.skip(a.len() as int + 1) =~= b);
    assert forall|i: int| a.len() + 1 <= i < s.len() implies is_digit(#[trigger] s[i]) by {
        assert(s[i] == b[i - a.len() - 1]);
        assert('0' <= b[i - a.len() - 1] && b[i - a.len() - 1] <= '9');
    }
}

/// `N` and `N-` ask for the lines from `N` on, `N-M` for those from `N` to `M`, and `N+K` for `K` lines
/// from `N` on; lines count from one, no range ends before it starts, and none is empty.
pub proof fn lemma_ranges_are_read(n: nat, m: nat)
    requires
        n <= usize::MAX,
        m <= usize::MAX,
        n + m <= usize::MAX,
    ensures
        n >= 1 ==> chunk_range(dec(n)) == Ok::<(nat, Option<nat>), Seq<char>>((n, None)),
        n >= 1 ==> chunk_range(dec(n).push('-')) == Ok::<(nat, Option<nat>), Seq<char>>((n, None)),
        1 <= n <= m ==> chunk_range(dec(n).push('-') + dec(m)) == Ok::<(nat, Option<nat>), Seq<char>>(
            (n, Some(m)),
        ),
        n >= 1 && m >= 1 ==> chunk_range(dec(n).push('+') + dec(m)) == Ok::<
            (nat, Option<nat>),
            Seq<char>,
        >((n, Some((n + m - 1) as nat))),
        n == 0 ==> chunk_range(dec(n)) is Err,
        n == 0 ==> chunk_range(dec(n).push('-')) is Err,
        n == 0 || m < n ==> chunk_range(dec(n).push('-') + dec(m)) is Err,
        n == 0 || m == 0 ==> chunk_range(dec(n).push('+') + dec(m)) is Err,
{
    let a = dec(n);
    let b = dec(m);
    lemma_dec_is_number(n);
    lemma_dec_is_number(m);
    lemma_digits(a, Seq::empty());
    assert(a + Seq::<char>::empty() =~= a);
    assert(a.take(a.len() as int) =~= a);
    lemma_number_behind(a, '-', Seq::empty());
    assert(a.push('-') + Seq::<char>::empty() =~= a.push('-'));
    lemma_number_behind(a, '-', b);
    lemma_number_behind(a, '+', b);
}

/// Each of these is a range to the eye, whatever its numbers are.
pub proof fn lemma_ranges_look_like_ranges(a: Seq<char>, b: Seq<char>)
    requires
        is_number(a),
        is_number(b),
    ensures
        is_chunk(a),
        is_chunk(a.push('-')),
        is_chunk(a.push('-') + b),
        is_chunk(a.push('+') + b),
{
    lemma_digits(a, Seq::empty());
    assert(a + Seq::<char>::empty() =~= a);
    lemma_number_behind(a, '-', Seq::empty());
    assert(a.push('-') + Seq::<char>::empty() =~= a.push('-'));
    lemma_number_behind(a, '-', b);
    lemma_number_behind(a, '+', b);
}

proof fn lemma_last_is_last(a: Seq<char>, c: char, b: Seq<char>)
    requires
        lacks(b, c),
    ensures
        last_index(a.push(c) + b, c) == Some(a.len() as int),
    decreases b.len(),
{
    let s = a.push(c) + b;
    if b.len() == 0 {
        assert(s =~= a.push(c));
    } else {
        assert(s.last() == b.last());
        assert(b[b.len() - 1] != c);
        assert(s.drop_last() =~= a.push(c) + b.drop_last());
        assert(lacks(b.drop_last(), c));
        lemma_last_is_last(a, c, b.drop_last());
        assert(last_index(s, c) == last_index(s.drop_last(), c));
    }
}

/// A selector behind a colon at the end of a path is split off just there, a range with `raw` before or
/// behind it as a whole.
pub proof fn lemma_selector_is_split_off(path: Seq<char>, range: Seq<char>, word: Seq<char>)
    requires
        path.len() > 0,
        lacks(path, ':'),
        is_range_list(range),
        lacks(range, ':'),
        is_raw(word),
        lacks(word, ':'),
    ensures
        selector_colon(path.push(':') + range) == Some(path.len() as int),
        selector_colon(path.push(':') + word) == Some(path.len() as int),
        selector_colon((path.push(':') + range).push(':') + word) == Some(path.len() as int),
        selector_colon((path.push(':') + word).push(':') + range) == Some(path.len() as int),
        selector_colon(path) is None,
{
    lemma_last_index(path, ':');
    let n = path.len() as int;
    let a = path.push(':') + range;
    let b = path.push(':') + word;
    lemma_last_is_last(path, ':', range);
    lemma_last_is_last(path, ':', word);
    assert(a.skip(n + 1) =~= range);
    assert(b.skip(n + 1) =~= word);
    assert(a.take(n) =~= path);
    assert(b.take(n) =~= path);
    let c = a.push(':') + word;
    let d = b.push(':') + range;
    lemma_last_is_last(a, ':', word);
    lemma_last_is_last(b, ':', range);
    assert(c.skip(a.len() as int + 1) =~= word);
    assert(d.skip(b.len() as int + 1) =~= range);
    assert(c.take(a.len() as int) =~= a);
    assert(d.take(b.len() as int) =~= b);
    assert(c.subrange(n + 1, a.len() as int) =~= range);
    assert(d.subrange(n + 1, b.len() as int) =~= word);
}

/// What a selector asks for: `raw` for the text as it is, ranges for their lines, and both for these
/// lines as they are, in whichever order they stand.
pub proof fn lemma_selector_is_read(range: Seq<char>, word: Seq<char>)
    requires
        is_range_list(range),
        range.len() > 0,
        lacks(range, ':'),
        is_raw(word),
        !is_raw(range),
        lacks(word, ':'),
    ensures
        asked(Seq::empty()) is Absent,
        asked(word) is Raw,
        asked(range) == Asked::Lines(range, false),
        asked(range.push(':') + word) == Asked::Lines(range, true),
        asked(word.push(':') + range) == Asked::Lines(range, true),
{
    lemma_split_none(word, ':');
    lemma_split_none(range, ':');
    crate::strings::lemma_split_first(range, word, ':');
    crate::strings::lemma_split_first(word, range, ':');
    let a = range.push(':') + word;
    let b = word.push(':') + range;
    assert(split_on(a, ':') =~= seq![range, word]);
    assert(split_on(b, ':') =~= seq![word, range]);
}

/// The word for lines without numbers counts in capital letters too.
pub proof fn lemma_raw_in_any_letters(word: Seq<char>)
    ensures
        is_raw(word) <==> are_alike(word, seq!['r', 'a', 'w']),
{
    let raw = seq!['r', 'a', 'w'];
    assert(raw[0] == 'r' && raw[1] == 'a' && raw[2] == 'w');
    if are_alike(word, raw) {
        assert(word[0] == raw[0] || 'A' <= word[0] && word[0] <= 'Z' && raw[0] as u32 == word[0] as u32
            + 32);
        assert(word[1] == raw[1] || 'A' <= word[1] && word[1] <= 'Z' && raw[1] as u32 == word[1] as u32
            + 32);
        assert(word[2] == raw[2] || 'A' <= word[2] && word[2] <= 'Z' && raw[2] as u32 == word[2] as u32
            + 32);
    }
    if is_raw(word) {
        assert forall|i: int| 0 <= i < 3 implies {
            ||| #[trigger] word[i] == raw[i]
            ||| 'A' <= word[i] && word[i] <= 'Z' && raw[i] as u32 == word[i] as u32 + 32
            ||| 'A' <= raw[i] && raw[i] <= 'Z' && word[i] as u32 == raw[i] as u32 + 32
        } by {
            assert(i == 0 || i == 1 || i == 2);
        }
    }
}

/// Ranges are given once: a second list of them behind another colon is refused.
pub proof fn lemma_ranges_are_given_once(a: Seq<char>, b: Seq<char>)
    requires
        is_range_list(a),
        is_range_list(b),
        lacks(a, ':'),
        lacks(b, ':'),
        !is_raw(a),
        !is_raw(b),
    ensures
        asked(a.push(':') + b) is Invalid,
{
    lemma_split_first(a, b, ':');
    lemma_split_none(b, ':');
    let parts = split_on(a.push(':') + b, ':');
    assert(parts =~= seq![a, b]);
    assert(raw_list(a, b) is None);
    assert forall|i: int| 0 <= i < parts.len() implies looks_like_selector(#[trigger] parts[i]) by {
        assert(i == 0 || i == 1);
    }
}

} // verus!
