//! The selector behind a path: `path:10-20`, `path:raw`.
//!
//! A selector names lines (`N`, `N-M`, `N+K`, `N-`, several of them with commas between), or `raw`,
//! or both.

use vstd::prelude::*;

use crate::regexes::{found, matches_text};
use crate::strings::{
    byte_len, char_len, chars_of, lacks, lemma_encode_push, lemma_offset_monotone,
    lemma_split_first, lemma_split_none, part, part_from, part_to, push_chars, runs, split_chars,
    split_on, split_str, number, parse_number,
};
use crate::text::path::ascii_lower;

verus! {

broadcast use vstd::seq::group_seq_axioms;

/// Lines `start` to `end`, both counted from 1 and both part of it; without an end, to the end of
/// the file.
#[derive(Debug, Clone, Copy, PartialEq, Eq, Structural)]
pub struct LineRange {
    pub start: usize,
    pub end: Option<usize>,
}

/// What a selector asks for.
#[derive(Debug, Clone, PartialEq, Eq)]
pub enum Selector {
    /// Nothing.
    Absent,
    /// The text as it is.
    Raw,
    /// Some lines, as they are where `raw`.
    Lines { ranges: Vec<LineRange>, raw: bool },
}

/// Why a selector is refused.
#[derive(Debug, Clone, PartialEq, Eq)]
pub struct SelectorError(pub String);

/// A decimal digit of any script, as `\d` has it.
pub open spec fn is_digit(c: char) -> bool {
    if c <= '\u{7f}' {
        '0' <= c && c <= '9'
    } else {
        found("^\\d$"@, seq![c])
    }
}

/// Whether all of `s` from `k` on are digits.
pub open spec fn all_digits(s: Seq<char>, k: int) -> bool {
    forall|i: int| k <= i < s.len() ==> is_digit(#[trigger] s[i])
}

/// How many digits `s` starts with.
pub open spec fn digits(s: Seq<char>) -> nat
    decreases s.len(),
{
    if s.len() > 0 && is_digit(s[0]) {
        1 + digits(s.drop_first())
    } else {
        0
    }
}

/// `N`, `N-M`, `N+K` or `N-`.
pub open spec fn is_chunk(s: Seq<char>) -> bool {
    let n = digits(s) as int;
    &&& n > 0
    &&& {
        ||| n == s.len()
        ||| s[n] == '-' && n + 1 == s.len()
        ||| (s[n] == '-' || s[n] == '+') && n + 1 < s.len() && all_digits(s, n + 1)
    }
}

/// One or more ranges with commas between them.
pub open spec fn is_range_list(s: Seq<char>) -> bool {
    let parts = split_on(s, ',');
    forall|i: int| 0 <= i < parts.len() ==> is_chunk(#[trigger] parts[i])
}

/// The word `raw` in any case.
pub open spec fn is_raw(s: Seq<char>) -> bool {
    s.len() == 3 && ascii_lower(s[0]) == 'r' && ascii_lower(s[1]) == 'a' && ascii_lower(s[2]) == 'w'
}

/// `-N`, `-N-M` or `-N+K`: no selector, but meant as one.
pub open spec fn is_negative(s: Seq<char>) -> bool {
    s.len() > 0 && s[0] == '-' && {
        let t = s.drop_first();
        let n = digits(t) as int;
        n > 0 && (n == t.len() || (t[n] == '-' || t[n] == '+') && n + 1 < t.len() && all_digits(
            t,
            n + 1,
        ))
    }
}

/// Whether a piece is meant as a selector.
pub open spec fn looks_like_selector(s: Seq<char>) -> bool {
    is_raw(s) || is_negative(s) || is_range_list(s)
}

fn digit(c: char) -> (r: bool)
    ensures
        r == is_digit(c),
{
    if c <= '\u{7f}' {
        '0' <= c && c <= '9'
    } else {
        let mut s = String::new();
        s.push(c);
        assert(s@ =~= seq![c]);
        matches_text("^\\d$", s.as_str())
    }
}

/// How many digits `s` starts with.
fn digit_run(s: &[char]) -> (n: usize)
    ensures
        n == digits(s@),
        n <= s@.len(),
        forall|i: int| 0 <= i < n ==> is_digit(#[trigger] s@[i]),
        n < s@.len() ==> !is_digit(s@[n as int]),
{
    let mut n: usize = 0;
    assert(s@.skip(0) =~= s@);
    while n < s.len() && digit(s[n])
        invariant
            n <= s@.len(),
            digits(s@) == n + digits(s@.skip(n as int)),
            forall|i: int| 0 <= i < n ==> is_digit(#[trigger] s@[i]),
        decreases s@.len() - n,
    {
        assert(s@.skip(n as int).drop_first() =~= s@.skip(n + 1));
        n += 1;
    }
    n
}

/// Whether all of `s` from `k` on are digits.
fn digits_from(s: &[char], k: usize) -> (r: bool)
    requires
        k <= s@.len(),
    ensures
        r == all_digits(s@, k as int),
{
    let mut i: usize = k;
    while i < s.len()
        invariant
            k <= i <= s@.len(),
            forall|j: int| k <= j < i ==> is_digit(#[trigger] s@[j]),
        decreases s@.len() - i,
    {
        if !digit(s[i]) {
            return false;
        }
        i += 1;
    }
    true
}

fn chunk_shape(s: &[char]) -> (r: bool)
    ensures
        r == is_chunk(s@),
{
    let n = digit_run(s);
    if n == 0 {
        return false;
    }
    if n == s.len() {
        return true;
    }
    if s[n] == '-' && n + 1 == s.len() {
        return true;
    }
    (s[n] == '-' || s[n] == '+') && n + 1 < s.len() && digits_from(s, n + 1)
}

fn range_list_shape(s: &[char]) -> (r: bool)
    ensures
        r == is_range_list(s@),
{
    let parts = split_chars(s, ',');
    let ghost p = split_on(s@, ',');
    let mut i: usize = 0;
    while i < parts.len()
        invariant
            i <= parts@.len(),
            p == runs(parts@),
            p == split_on(s@, ','),
            forall|j: int| 0 <= j < i ==> is_chunk(#[trigger] p[j]),
        decreases parts@.len() - i,
    {
        assert(p[i as int] == parts@[i as int]@);
        if !chunk_shape(parts[i].as_slice()) {
            return false;
        }
        i += 1;
    }
    true
}

fn lower(c: char) -> (r: char)
    ensures
        r == ascii_lower(c),
{
    if 'A' <= c && c <= 'Z' {
        (c as u8 + 32) as char
    } else {
        c
    }
}

fn raw_shape(s: &[char]) -> (r: bool)
    ensures
        r == is_raw(s@),
{
    s.len() == 3 && lower(s[0]) == 'r' && lower(s[1]) == 'a' && lower(s[2]) == 'w'
}

/// Whether a piece of a selector is meant as one.
fn selector_chunk_looks_like(s: &[char]) -> (r: bool)
    ensures
        r == looks_like_selector(s@),
{
    if raw_shape(s) || range_list_shape(s) {
        return true;
    }
    if s.len() == 0 || s[0] != '-' {
        return false;
    }
    let t = part_from(s, 1);
    assert(t@ =~= s@.drop_first());
    let n = digit_run(t);
    n > 0 && (n == t.len() || (t[n] == '-' || t[n] == '+') && n + 1 < t.len() && digits_from(
        t,
        n + 1,
    ))
}

/// Where `c` occurs last in `s`.
pub open spec fn last_index(s: Seq<char>, c: char) -> Option<int>
    decreases s.len(),
{
    if s.len() == 0 {
        None
    } else if s.last() == c {
        Some(s.len() - 1)
    } else {
        last_index(s.drop_last(), c)
    }
}

fn find_last_char(s: &[char], c: char) -> (r: Option<usize>)
    ensures
        match r {
            Some(i) => last_index(s@, c) == Some(i as int) && i < s@.len() && s@[i as int] == c,
            None => last_index(s@, c) is None,
        },
{
    let mut n: usize = s.len();
    assert(s@.take(n as int) =~= s@);
    while n > 0
        invariant
            n <= s@.len(),
            last_index(s@, c) == last_index(s@.take(n as int), c),
        decreases n,
    {
        if s[n - 1] == c {
            return Some(n - 1);
        }
        assert(s@.take(n as int).drop_last() =~= s@.take(n - 1));
        n -= 1;
    }
    None
}

/// Where the path ends and the selector starts: the index of the colon between them, `None` where
/// there is no selector. A selector of a range and `raw` takes two colons.
pub open spec fn selector_colon(raw: Seq<char>) -> Option<int> {
    match last_index(raw, ':') {
        None => None,
        Some(colon) => {
            let outer = raw.skip(colon + 1);
            if colon == 0 || !(is_raw(outer) || is_range_list(outer)) {
                None
            } else {
                match last_index(raw.take(colon), ':') {
                    Some(inner_colon) => {
                        let inner = raw.subrange(inner_colon + 1, colon);
                        if inner_colon > 0 && (is_raw(inner) && is_range_list(outer)
                            || is_range_list(inner) && is_raw(outer)) {
                            Some(inner_colon)
                        } else {
                            Some(colon)
                        }
                    },
                    None => Some(colon),
                }
            }
        },
    }
}

/// The index of the colon between a path and its selector.
fn find_selector(v: &[char]) -> (r: Option<usize>)
    ensures
        match r {
            Some(i) => selector_colon(v@) == Some(i as int) && i < v@.len() && v@[i as int] == ':',
            None => selector_colon(v@) is None,
        },
{
    let colon = match find_last_char(v, ':') {
        None => {
            return None;
        },
        Some(i) => i,
    };
    let total: usize = v.len();
    assert(colon < total);
    if colon == 0 {
        return None;
    }
    let outer = part_from(v, colon + 1);
    if !raw_shape(outer) && !range_list_shape(outer) {
        return None;
    }
    let base = part_to(v, colon);
    if let Some(inner_colon) = find_last_char(base, ':') {
        if inner_colon > 0 {
            let inner = part(v, inner_colon + 1, colon);
            if (raw_shape(inner) && range_list_shape(outer)) || (range_list_shape(inner)
                && raw_shape(outer)) {
                return Some(inner_colon);
            }
        }
    }
    Some(colon)
}

/// Splits a path from the selector behind it. What follows the last colon is a selector only where
/// it has the shape of one, so the drive of a path is none.
#[must_use]
pub fn split_path_and_selector<'a>(raw: &'a str) -> (r: (&'a str, Option<&'a str>))
    ensures
        match selector_colon(raw@) {
            Some(i) => r.0@ == raw@.take(i) && r.1 is Some && r.1->0@ == raw@.skip(i + 1),
            None => r.0@ == raw@ && r.1 is None,
        },
{
    let v = chars_of(raw);
    match find_selector(v.as_slice()) {
        None => (raw, None),
        Some(i) => {
            let total = crate::strings::str_len(raw);
            let mut off: usize = 0;
            let mut k: usize = 0;
            assert(raw@.take(0) =~= Seq::<char>::empty());
            while k < i
                invariant
                    k <= i < v@.len(),
                    v@ == raw@,
                    off == byte_len(raw@.take(k as int)),
                    byte_len(raw@) == total,
                decreases i - k,
            {
                proof {
                    assert(raw@.take(k + 1) =~= raw@.take(k as int).push(raw@[k as int]));
                    lemma_encode_push(raw@.take(k as int), raw@[k as int]);
                    lemma_offset_monotone(raw@, k + 1, raw@.len() as int);
                    assert(raw@.take(raw@.len() as int) =~= raw@);
                }
                off += char_len(v[k]);
                k += 1;
            }
            proof {
                assert(raw@.take(i + 1) =~= raw@.take(i as int).push(':'));
                lemma_encode_push(raw@.take(i as int), ':');
                crate::strings::lemma_ascii_bytes(':');
                lemma_offset_monotone(raw@, i + 1, raw@.len() as int);
                assert(raw@.take(raw@.len() as int) =~= raw@);
            }
            let (path, _rest) = split_str(raw, off, Ghost(i as int));
            let (_front, sel) = split_str(raw, off + 1, Ghost(i + 1));
            (path, Some(sel))
        },
    }
}

/// What is said of a selector that is none of the known ones.
pub open spec fn invalid_text(sel: Seq<char>) -> Seq<char> {
    "选择器 ':"@ + sel
        + "' 无效。可用形式：:N、:N-M、:N+K、:N-（开放到文件末尾）、逗号分隔的多段（如 :5-16,960-973）、:raw，或行区间叠加 raw（如 :raw:50-100 / :50-100:raw）。"@
}

fn invalid_selector(sel: &[char]) -> (r: SelectorError)
    ensures
        r.0@ == invalid_text(sel@),
{
    quoted(
        "选择器 ':",
        sel,
        "' 无效。可用形式：:N、:N-M、:N+K、:N-（开放到文件末尾）、逗号分隔的多段（如 :5-16,960-973）、:raw，或行区间叠加 raw（如 :raw:50-100 / :50-100:raw）。",
    )
}

/// An error that quotes a piece of the selector.
fn quoted(front: &str, piece: &[char], back: &str) -> (r: SelectorError)
    ensures
        r.0@ == front@ + piece@ + back@,
{
    let mut s = String::new();
    s.append(front);
    push_chars(&mut s, piece);
    s.append(back);
    assert(s@ =~= front@ + piece@ + back@);
    SelectorError(s)
}

/// The range of a piece: its first line and its last one, or why it is refused.
pub open spec fn chunk_range(chunk: Seq<char>) -> Result<(nat, Option<nat>), Seq<char>> {
    let n = digits(chunk) as int;
    let first = chunk.take(n);
    let rhs = chunk.skip(n + 1);
    if n == 0 || n < chunk.len() && !((chunk[n] == '-' || chunk[n] == '+') && all_digits(
        chunk,
        n + 1,
    )) {
        Err(invalid_text(chunk))
    } else if number(first) is None {
        Err("行号 '"@ + first + "' 超出可处理范围。"@)
    } else if number(first)->0 < 1 {
        Err("行选择器 0 无效；行号从 1 开始，用 :1。"@)
    } else {
        let start = number(first)->0;
        if n == chunk.len() {
            Ok((start, None))
        } else if chunk[n] == '+' {
            if rhs.len() == 0 {
                Err("区间 '"@ + chunk + "' 无效：+ 后必须跟一个 >= 1 的行数。"@)
            } else if number(rhs) is None {
                Err("行数 '"@ + rhs + "' 超出可处理范围。"@)
            } else if number(rhs)->0 < 1 {
                Err("区间 '"@ + chunk + "' 无效：行数必须 >= 1。"@)
            } else if start + number(rhs)->0 > usize::MAX {
                Err("区间 '"@ + chunk + "' 计算溢出。"@)
            } else {
                Ok((start, Some((start + number(rhs)->0 - 1) as nat)))
            }
        } else if rhs.len() == 0 {
            Ok((start, None))
        } else if number(rhs) is None {
            Err("行号 '"@ + rhs + "' 超出可处理范围。"@)
        } else if number(rhs)->0 < start {
            Err("区间 '"@ + chunk + "' 无效：结束行必须 >= 起始行。"@)
        } else {
            Ok((start, Some(number(rhs)->0)))
        }
    }
}

/// What a range stands for.
pub open spec fn range_view(r: LineRange) -> (nat, Option<nat>) {
    (
        r.start as nat,
        match r.end {
            Some(e) => Some(e as nat),
            None => None,
        },
    )
}

/// Reads one range.
fn parse_line_range_chunk(chunk: &[char]) -> (r: Result<LineRange, SelectorError>)
    ensures
        match r {
            Ok(range) => chunk_range(chunk@) == Ok::<(nat, Option<nat>), Seq<char>>(
                range_view(range),
            ),
            Err(e) => chunk_range(chunk@) == Err::<(nat, Option<nat>), Seq<char>>(e.0@),
        },
{
    let n = digit_run(chunk);
    let total: usize = chunk.len();
    if n == 0 {
        return Err(invalid_selector(chunk));
    }
    if n < total && !((chunk[n] == '-' || chunk[n] == '+') && digits_from(chunk, n + 1)) {
        return Err(invalid_selector(chunk));
    }
    let first = part_to(chunk, n);
    let start = match parse_number(first) {
        Some(v) => v,
        None => {
            return Err(quoted("行号 '", first, "' 超出可处理范围。"));
        },
    };
    if start < 1 {
        return Err(SelectorError("行选择器 0 无效；行号从 1 开始，用 :1。".to_owned()));
    }
    if n == total {
        return Ok(LineRange { start, end: None });
    }
    let rhs = part_from(chunk, n + 1);
    if chunk[n] == '+' {
        if rhs.len() == 0 {
            return Err(quoted("区间 '", chunk, "' 无效：+ 后必须跟一个 >= 1 的行数。"));
        }
        let count = match parse_number(rhs) {
            Some(v) => v,
            None => {
                return Err(quoted("行数 '", rhs, "' 超出可处理范围。"));
            },
        };
        if count < 1 {
            return Err(quoted("区间 '", chunk, "' 无效：行数必须 >= 1。"));
        }
        if count > usize::MAX - start {
            return Err(quoted("区间 '", chunk, "' 计算溢出。"));
        }
        return Ok(LineRange { start, end: Some(start + count - 1) });
    }
    if rhs.len() == 0 {
        return Ok(LineRange { start, end: None });
    }
    match parse_number(rhs) {
        Some(end) => {
            if end < start {
                Err(quoted("区间 '", chunk, "' 无效：结束行必须 >= 起始行。"))
            } else {
                Ok(LineRange { start, end: Some(end) })
            }
        },
        None => Err(quoted("行号 '", rhs, "' 超出可处理范围。")),
    }
}

/// Whether a range has the line `n`.
pub open spec fn in_range(r: LineRange, n: nat) -> bool {
    r.start <= n && match r.end {
        Some(e) => n <= e,
        None => true,
    }
}

/// Whether one of the ranges has the line `n`.
pub open spec fn covers(r: Seq<LineRange>, n: nat) -> bool {
    exists|i: int| 0 <= i < r.len() && in_range(#[trigger] r[i], n)
}

/// Ranges that start at 1 or later and do not end before they start.
pub open spec fn is_valid(r: Seq<LineRange>) -> bool {
    forall|i: int| 0 <= i < r.len() ==> {
        &&& 1 <= (#[trigger] r[i]).start
        &&& r[i].end matches Some(e) ==> r[i].start <= e
    }
}

/// Valid ranges in ascending order, at least one line apart; only the last one may be open.
pub open spec fn is_canonical(r: Seq<LineRange>) -> bool {
    &&& is_valid(r)
    &&& forall|i: int, j: int|
        0 <= i < j < r.len() ==> (#[trigger] r[i]).end is Some && r[i].end->0 + 1 < (
        #[trigger] r[j]).start
}

spec fn sorted_by_start(r: Seq<LineRange>) -> bool {
    forall|i: int, j: int| 0 <= i <= j < r.len() ==> (#[trigger] r[i]).start <= (#[trigger] r[j]).start
}

/// Puts ranges in the order of their starts.
fn sort_ranges(ranges: &Vec<LineRange>) -> (r: Vec<LineRange>)
    requires
        is_valid(ranges@),
    ensures
        is_valid(r@),
        sorted_by_start(r@),
        forall|n: nat| #[trigger] covers(r@, n) == covers(ranges@, n),
        r@.len() == ranges@.len(),
{
    let mut r: Vec<LineRange> = Vec::new();
    let mut i: usize = 0;
    proof {
        assert(ranges@.take(0) =~= Seq::<LineRange>::empty());
    }
    while i < ranges.len()
        invariant
            i <= ranges@.len(),
            r@.len() == i,
            is_valid(ranges@),
            is_valid(r@),
            sorted_by_start(r@),
            forall|n: nat| #[trigger] covers(r@, n) == covers(ranges@.take(i as int), n),
        decreases ranges@.len() - i,
    {
        let x = ranges[i];
        let mut k: usize = r.len();
        while k > 0 && r[k - 1].start > x.start
            invariant
                k <= r@.len(),
                sorted_by_start(r@),
                forall|j: int| k <= j < r@.len() ==> (#[trigger] r@[j]).start > x.start,
            decreases k,
        {
            k -= 1;
        }
        let ghost before = r@;
        r.insert(k, x);
        proof {
            assert(r@ =~= before.insert(k as int, x));
            assert forall|a: int, b: int| 0 <= a <= b < r@.len() implies (#[trigger] r@[a]).start <= (
            #[trigger] r@[b]).start by {
                let fa = if a < k {
                    a
                } else {
                    a - 1
                };
                let fb = if b < k {
                    b
                } else {
                    b - 1
                };
                if a != k && b != k {
                    assert(r@[a] == before[fa]);
                    assert(r@[b] == before[fb]);
                } else if a == k && b != k {
                    assert(r@[b] == before[fb]);
                } else if a != k && b == k {
                    assert(r@[a] == before[fa]);
                    assert(before[fa].start <= before[k - 1].start);
                }
            }
            assert forall|a: int| 0 <= a < r@.len() implies 1 <= (#[trigger] r@[a]).start && (
            r@[a].end matches Some(e) ==> r@[a].start <= e) by {
                if a < k {
                    assert(r@[a] == before[a]);
                } else if a > k {
                    assert(r@[a] == before[a - 1]);
                }
            }
            assert forall|n: nat| #[trigger] covers(r@, n) == covers(ranges@.take(i + 1), n) by {
                let s = ranges@.take(i as int);
                let t = ranges@.take(i + 1);
                assert(covers(before, n) == covers(s, n));
                if covers(r@, n) {
                    let a = choose|a: int| 0 <= a < r@.len() && in_range(#[trigger] r@[a], n);
                    if a == k {
                        assert(in_range(t[i as int], n));
                    } else {
                        let b = if a < k {
                            a
                        } else {
                            a - 1
                        };
                        assert(in_range(before[b], n));
                        let c = choose|c: int| 0 <= c < s.len() && in_range(#[trigger] s[c], n);
                        assert(in_range(t[c], n));
                    }
                }
                if covers(t, n) {
                    let c = choose|c: int| 0 <= c < t.len() && in_range(#[trigger] t[c], n);
                    if c == i {
                        assert(in_range(r@[k as int], n));
                    } else {
                        assert(in_range(s[c], n));
                        let b = choose|b: int|
                            0 <= b < before.len() && in_range(#[trigger] before[b], n);
                        if b < k {
                            assert(in_range(r@[b], n));
                        } else {
                            assert(in_range(r@[b + 1], n));
                        }
                    }
                }
            }
        }
        i += 1;
    }
    assert(ranges@.take(ranges@.len() as int) =~= ranges@);
    r
}

/// Joins ranges that overlap or touch. An open range takes in all that follow it.
pub fn merge_ranges(ranges: &Vec<LineRange>) -> (r: Vec<LineRange>)
    requires
        is_valid(ranges@),
    ensures
        is_canonical(r@),
        forall|n: nat| #[trigger] covers(r@, n) == covers(ranges@, n),
        ranges@.len() > 0 ==> r@.len() > 0,
{
    let sorted = sort_ranges(ranges);
    let mut r: Vec<LineRange> = Vec::new();
    let mut i: usize = 0;
    assert(sorted@.take(0) =~= Seq::<LineRange>::empty());
    while i < sorted.len()
        invariant
            i <= sorted@.len(),
            is_valid(sorted@),
            sorted_by_start(sorted@),
            is_canonical(r@),
            i > 0 ==> r@.len() > 0,
            r@.len() > 0 ==> i > 0 && r@.last().start <= sorted@[i - 1].start,
            forall|n: nat| #[trigger] covers(r@, n) == covers(sorted@.take(i as int), n),
        decreases sorted@.len() - i,
    {
        let x = sorted[i];
        let ghost before = r@;
        let n: usize = r.len();
        proof {
            assert(sorted@.take(i + 1) =~= sorted@.take(i as int).push(x));
            if i > 0 {
                assert(sorted@[i - 1].start <= sorted@[i as int].start);
            }
        }
        let mut joins = false;
        if n > 0 {
            match r[n - 1].end {
                None => {
                    joins = true;
                },
                Some(end) => {
                    if end == usize::MAX || x.start <= end + 1 {
                        joins = true;
                        let longer = match x.end {
                            None => true,
                            Some(e) => e > end,
                        };
                        if longer {
                            let last = LineRange { start: r[n - 1].start, end: x.end };
                            r.set(n - 1, last);
                        }
                    }
                },
            }
        }
        if !joins {
            r.push(x);
        }
        proof {
            let t = sorted@.take(i + 1);
            assert forall|m: nat| #[trigger] covers(r@, m) == covers(t, m) by {
                lemma_covers_push(sorted@.take(i as int), x, m);
                assert(covers(before, m) == covers(sorted@.take(i as int), m));
                if joins {
                    lemma_covers_last(before, m);
                    lemma_covers_last(r@, m);
                    assert(before.drop_last() =~= r@.drop_last());
                } else {
                    lemma_covers_push(before, x, m);
                    assert(r@ =~= before.push(x));
                }
            }
            assert(is_canonical(r@)) by {
                if joins {
                    assert forall|a: int, b: int| 0 <= a < b < r@.len() implies (
                    #[trigger] r@[a]).end is Some && r@[a].end->0 + 1 < (#[trigger] r@[b]).start by {
                        assert(before[a].end is Some && before[a].end->0 + 1 < before[b].start);
                        assert(r@[a] == before[a]);
                        assert(r@[b].start == before[b].start);
                    }
                } else {
                    assert forall|a: int, b: int| 0 <= a < b < r@.len() implies (
                    #[trigger] r@[a]).end is Some && r@[a].end->0 + 1 < (#[trigger] r@[b]).start by {
                        if b < n {
                            assert(before[a].end is Some && before[a].end->0 + 1
                                < before[b].start);
                        } else if a < n - 1 {
                            assert(before[a].end is Some && before[a].end->0 + 1 < before[n
                                - 1].start);
                        }
                    }
                }
            }
        }
        i += 1;
    }
    assert(sorted@.take(sorted@.len() as int) =~= sorted@);
    r
}

proof fn lemma_covers_push(r: Seq<LineRange>, x: LineRange, n: nat)
    ensures
        covers(r.push(x), n) == (covers(r, n) || in_range(x, n)),
{
    let t = r.push(x);
    if covers(t, n) {
        let i = choose|i: int| 0 <= i < t.len() && in_range(#[trigger] t[i], n);
        if i < r.len() {
            assert(in_range(r[i], n));
        }
    }
    if covers(r, n) {
        let i = choose|i: int| 0 <= i < r.len() && in_range(#[trigger] r[i], n);
        assert(in_range(t[i], n));
    }
    if in_range(x, n) {
        assert(in_range(t[r.len() as int], n));
    }
}

proof fn lemma_covers_last(r: Seq<LineRange>, n: nat)
    requires
        r.len() > 0,
    ensures
        covers(r, n) == (covers(r.drop_last(), n) || in_range(r.last(), n)),
{
    lemma_covers_push(r.drop_last(), r.last(), n);
    assert(r.drop_last().push(r.last()) =~= r);
}

/// Why the first `k` pieces are refused: the error of the first one that is.
pub open spec fn list_error(parts: Seq<Seq<char>>, k: int) -> Option<Seq<char>>
    decreases k,
{
    if k <= 0 {
        None
    } else {
        match list_error(parts, k - 1) {
            Some(e) => Some(e),
            None => match chunk_range(parts[k - 1]) {
                Ok(_) => None,
                Err(e) => Some(e),
            },
        }
    }
}

/// Whether one of the first `k` pieces asks for the line `n`.
pub open spec fn asks_for(parts: Seq<Seq<char>>, k: int, n: nat) -> bool {
    exists|i: int| 0 <= i < k && chunk_asks(#[trigger] parts[i], n)
}

/// Whether a piece asks for the line `n`.
pub open spec fn chunk_asks(chunk: Seq<char>, n: nat) -> bool {
    match chunk_range(chunk) {
        Ok((start, end)) => start <= n && (end matches Some(e) ==> n <= e),
        Err(_) => false,
    }
}

/// Ranges that are what a list asks for.
pub open spec fn is_answer(r: Seq<LineRange>, list: Seq<char>) -> bool {
    let parts = split_on(list, ',');
    &&& list_error(parts, parts.len() as int) is None
    &&& r.len() > 0
    &&& is_canonical(r)
    &&& forall|n: nat| #[trigger] covers(r, n) == asks_for(parts, parts.len() as int, n)
}

/// Reads a list of ranges; overlapping and touching ones are joined.
fn parse_line_ranges(list: &[char]) -> (r: Result<Vec<LineRange>, SelectorError>)
    ensures
        match r {
            Ok(ranges) => is_answer(ranges@, list@),
            Err(e) => list_error(split_on(list@, ','), split_on(list@, ',').len() as int) == Some(
                e.0@,
            ),
        },
{
    let parts = split_chars(list, ',');
    let ghost p = split_on(list@, ',');
    let mut ranges: Vec<LineRange> = Vec::new();
    let mut i: usize = 0;
    while i < parts.len()
        invariant
            i <= parts@.len(),
            p == runs(parts@),
            p == split_on(list@, ','),
            ranges@.len() == i,
            is_valid(ranges@),
            list_error(p, i as int) is None,
            forall|n: nat| #[trigger] covers(ranges@, n) == asks_for(p, i as int, n),
        decreases parts@.len() - i,
    {
        assert(p[i as int] == parts@[i as int]@);
        match parse_line_range_chunk(parts[i].as_slice()) {
            Ok(range) => {
                let ghost before = ranges@;
                ranges.push(range);
                proof {
                    lemma_chunk_range_valid(p[i as int]);
                    assert forall|n: nat| #[trigger] covers(ranges@, n) == asks_for(
                        p,
                        i + 1,
                        n,
                    ) by {
                        lemma_covers_push(before, range, n);
                        assert(covers(before, n) == asks_for(p, i as int, n));
                        assert(in_range(range, n) == chunk_asks(p[i as int], n));
                        if asks_for(p, i + 1, n) {
                            let a = choose|a: int| 0 <= a < i + 1 && chunk_asks(#[trigger] p[a], n);
                            if a < i {
                                assert(asks_for(p, i as int, n));
                            }
                        }
                        if asks_for(p, i as int, n) {
                            let a = choose|a: int|
                                0 <= a < i && chunk_asks(#[trigger] p[a], n);
                            assert(asks_for(p, i + 1, n));
                        }
                    }
                }
            },
            Err(e) => {
                proof {
                    lemma_list_error_stays(p, i + 1, p.len() as int);
                }
                return Err(e);
            },
        }
        i += 1;
    }
    Ok(merge_ranges(&ranges))
}

proof fn lemma_list_error_stays(p: Seq<Seq<char>>, a: int, b: int)
    requires
        0 <= a <= b,
        list_error(p, a) is Some,
    ensures
        list_error(p, b) == list_error(p, a),
    decreases b - a,
{
    if a < b {
        lemma_list_error_stays(p, a, b - 1);
    }
}

proof fn lemma_chunk_range_valid(chunk: Seq<char>)
    ensures
        match chunk_range(chunk) {
            Ok((start, end)) => 1 <= start && (end matches Some(e) ==> start <= e),
            Err(_) => true,
        },
{
}

/// What kind of thing a selector is.
pub enum Asked {
    /// Nothing: the text belongs to the path.
    Absent,
    /// The text as it is.
    Raw,
    /// The lines of a list, as they are where the second part says so.
    Lines(Seq<char>, bool),
    /// Pieces that are meant as a selector and make none.
    Invalid,
}

/// The list and the `raw` of a selector of two pieces.
pub open spec fn raw_list(a: Seq<char>, b: Seq<char>) -> Option<Seq<char>> {
    if is_raw(a) && is_range_list(b) {
        Some(b)
    } else if !is_raw(a) && is_raw(b) && is_range_list(a) {
        Some(a)
    } else {
        None
    }
}

/// What a selector asks for.
pub open spec fn asked(sel: Seq<char>) -> Asked {
    let parts = split_on(sel, ':');
    if sel.len() == 0 {
        Asked::Absent
    } else if parts.len() > 1 {
        if parts.len() == 2 && raw_list(parts[0], parts[1]) is Some {
            Asked::Lines(raw_list(parts[0], parts[1])->0, true)
        } else if forall|i: int| 0 <= i < parts.len() ==> looks_like_selector(#[trigger] parts[i]) {
            Asked::Invalid
        } else {
            Asked::Absent
        }
    } else if is_raw(sel) {
        Asked::Raw
    } else if is_range_list(sel) {
        Asked::Lines(sel, false)
    } else {
        Asked::Absent
    }
}

/// Whether `r` is what reading `sel` gives.
pub open spec fn is_selector(sel: Seq<char>, r: Result<Selector, SelectorError>) -> bool {
    match asked(sel) {
        Asked::Absent => r == Ok::<Selector, SelectorError>(Selector::Absent),
        Asked::Raw => r == Ok::<Selector, SelectorError>(Selector::Raw),
        Asked::Invalid => r is Err && r->Err_0.0@ == invalid_text(sel),
        Asked::Lines(list, raw) => {
            let parts = split_on(list, ',');
            match list_error(parts, parts.len() as int) {
                Some(e) => r is Err && r->Err_0.0@ == e,
                None => r matches Ok(Selector::Lines { ranges, raw: as_is }) && as_is == raw
                    && is_answer(ranges@, list),
            }
        },
    }
}

/// Reads a selector. Pieces that each look like a selector and together make none are an error;
/// anything else that is no selector belongs to the path.
pub fn parse_selector(sel: &str) -> (r: Result<Selector, SelectorError>)
    ensures
        is_selector(sel@, r),
{
    if sel.is_empty() {
        return Ok(Selector::Absent);
    }
    let v = chars_of(sel);
    let parts = split_chars(v.as_slice(), ':');
    let ghost p = split_on(sel@, ':');
    assert(p.len() == parts@.len());
    if parts.len() > 1 {
        if parts.len() == 2 {
            let a = parts[0].as_slice();
            let b = parts[1].as_slice();
            assert(p[0] == a@ && p[1] == b@);
            let a_is_raw = raw_shape(a);
            let list = if a_is_raw {
                Some(b)
            } else if raw_shape(b) {
                Some(a)
            } else {
                None
            };
            if let Some(list) = list {
                if range_list_shape(list) {
                    assert(raw_list(p[0], p[1]) == Some(list@));
                    return match parse_line_ranges(list) {
                        Ok(ranges) => Ok(Selector::Lines { ranges, raw: true }),
                        Err(e) => Err(e),
                    };
                }
            }
        }
        let mut i: usize = 0;
        while i < parts.len()
            invariant
                i <= parts@.len(),
                p == runs(parts@),
                p == split_on(sel@, ':'),
                p.len() > 1,
                sel@.len() > 0,
                !(p.len() == 2 && raw_list(p[0], p[1]) is Some),
                forall|j: int| 0 <= j < i ==> looks_like_selector(#[trigger] p[j]),
            decreases parts@.len() - i,
        {
            assert(p[i as int] == parts@[i as int]@);
            if !selector_chunk_looks_like(parts[i].as_slice()) {
                return Ok(Selector::Absent);
            }
            i += 1;
        }
        return Err(invalid_selector(v.as_slice()));
    }
    if raw_shape(v.as_slice()) {
        return Ok(Selector::Raw);
    }
    if range_list_shape(v.as_slice()) {
        return match parse_line_ranges(v.as_slice()) {
            Ok(ranges) => Ok(Selector::Lines { ranges, raw: false }),
            Err(e) => Err(e),
        };
    }
    Ok(Selector::Absent)
}

/// Ranges in canonical form are determined by the lines that they have.
pub proof fn lemma_canonical_unique(a: Seq<LineRange>, b: Seq<LineRange>)
    requires
        is_canonical(a),
        is_canonical(b),
        forall|n: nat| #[trigger] covers(a, n) == covers(b, n),
    ensures
        a == b,
    decreases a.len(),
{
    if a.len() == 0 {
        if b.len() > 0 {
            assert(in_range(b[0], b[0].start as nat));
            assert(covers(b, b[0].start as nat));
            assert(covers(a, b[0].start as nat));
        }
        assert(a =~= b);
    } else {
        lemma_first_covered(a, b);
        lemma_first_covered(b, a);
        let s = a.drop_first();
        let t = b.drop_first();
        assert(a[0] == b[0]);
        lemma_canonical_rest(a);
        lemma_canonical_rest(b);
        assert forall|n: nat| #[trigger] covers(s, n) == covers(t, n) by {
            assert(covers(a, n) == covers(b, n));
            lemma_rest_covers(a, n);
            lemma_rest_covers(b, n);
        }
        lemma_canonical_unique(s, t);
        assert(a =~= seq![a[0]] + s);
        assert(b =~= seq![b[0]] + t);
    }
}

proof fn lemma_canonical_rest(a: Seq<LineRange>)
    requires
        is_canonical(a),
        a.len() > 0,
    ensures
        is_canonical(a.drop_first()),
{
    let s = a.drop_first();
    assert forall|i: int| 0 <= i < s.len() implies 1 <= (#[trigger] s[i]).start && (
    s[i].end matches Some(e) ==> s[i].start <= e) by {
        assert(s[i] == a[i + 1]);
    }
    assert forall|i: int, j: int| 0 <= i < j < s.len() implies (#[trigger] s[i]).end is Some
        && s[i].end->0 + 1 < (#[trigger] s[j]).start by {
        assert(a[i + 1].end is Some && a[i + 1].end->0 + 1 < a[j + 1].start);
    }
}

proof fn lemma_rest_covers(a: Seq<LineRange>, n: nat)
    requires
        is_canonical(a),
        a.len() > 0,
    ensures
        covers(a.drop_first(), n) == (covers(a, n) && !in_range(a[0], n)),
{
    let s = a.drop_first();
    if covers(s, n) {
        let i = choose|i: int| 0 <= i < s.len() && in_range(#[trigger] s[i], n);
        assert(in_range(a[i + 1], n));
        assert(a[0].end is Some && a[0].end->0 + 1 < a[i + 1].start);
    }
    if covers(a, n) && !in_range(a[0], n) {
        let i = choose|i: int| 0 <= i < a.len() && in_range(#[trigger] a[i], n);
        assert(in_range(s[i - 1], n));
    }
}

/// The first range of `a` is no longer than that of `b`, and starts no earlier.
proof fn lemma_first_covered(a: Seq<LineRange>, b: Seq<LineRange>)
    requires
        is_canonical(a),
        is_canonical(b),
        a.len() > 0,
        forall|n: nat| #[trigger] covers(a, n) == covers(b, n),
    ensures
        b.len() > 0,
        b[0].start <= a[0].start,
        a[0].start <= b[0].start ==> match b[0].end {
            None => true,
            Some(e) => a[0].end is Some && a[0].end->0 <= e,
        },
{
    let n = a[0].start as nat;
    assert(in_range(a[0], n));
    assert(covers(a, n));
    assert(covers(b, n));
    let j = choose|j: int| 0 <= j < b.len() && in_range(#[trigger] b[j], n);
    if j > 0 {
        assert(b[0].end is Some && b[0].end->0 + 1 < b[j].start);
    }
    if a[0].start <= b[0].start && b[0].end is Some {
        let e = b[0].end->0;
        if a[0].end is None || a[0].end->0 > e {
            let m = (e + 1) as nat;
            assert(in_range(a[0], m));
            assert(covers(a, m));
            assert(covers(b, m));
            let k = choose|k: int| 0 <= k < b.len() && in_range(#[trigger] b[k], m);
            if k > 0 {
                assert(b[0].end is Some && b[0].end->0 + 1 < b[k].start);
            }
        }
    }
}

// What is split off

/// Behind the last place of a character there is none of it.
pub proof fn lemma_last_index(s: Seq<char>, c: char)
    ensures
        match last_index(s, c) {
            Some(i) => 0 <= i < s.len() && s[i] == c && lacks(s.skip(i + 1), c),
            None => lacks(s, c),
        },
    decreases s.len(),
{
    if s.len() > 0 {
        lemma_last_index(s.drop_last(), c);
        if s.last() != c {
            if let Some(i) = last_index(s.drop_last(), c) {
                let t = s.skip(i + 1);
                let u = s.drop_last().skip(i + 1);
                assert forall|k: int| 0 <= k < t.len() implies t[k] != c by {
                    if k < u.len() {
                        assert(u[k] == t[k]);
                    }
                }
            } else {
                assert forall|k: int| 0 <= k < s.len() implies s[k] != c by {
                    if k < s.len() - 1 {
                        assert(s.drop_last()[k] == s[k]);
                    }
                }
            }
        }
    }
}

proof fn lemma_raw_is_no_list(s: Seq<char>)
    requires
        is_raw(s),
    ensures
        !is_range_list(s),
{
    assert(lacks(s, ',')) by {
        assert(ascii_lower(',') == ',');
    }
    lemma_split_none(s, ',');
    assert(digits(s) == 0);
    assert(!is_chunk(split_on(s, ',')[0]));
}

proof fn lemma_list_not_empty(s: Seq<char>)
    requires
        is_range_list(s),
    ensures
        s.len() > 0,
{
    if s.len() == 0 {
        assert(digits(s) == 0);
        assert(s =~= Seq::<char>::empty());
        assert(!is_chunk(split_on(s, ',')[0]));
    }
}

/// What is split off a path joins back to what was given, leaves a path, and is a selector: it asks
/// for lines or for the text as it is.
pub proof fn lemma_split_joins_back(raw: Seq<char>)
    ensures
        selector_colon(raw) matches Some(i) ==> {
            &&& 0 < i < raw.len()
            &&& raw.take(i).push(':') + raw.skip(i + 1) == raw
            &&& raw.take(i).len() > 0
            &&& asked(raw.skip(i + 1)) is Raw || asked(raw.skip(i + 1)) is Lines
        },
{
    lemma_last_index(raw, ':');
    if let Some(i) = selector_colon(raw) {
        let colon = last_index(raw, ':')->0;
        let outer = raw.skip(colon + 1);
        let base = raw.take(colon);
        lemma_last_index(base, ':');
        let sel = raw.skip(i + 1);
        if is_range_list(outer) {
            lemma_list_not_empty(outer);
        }
        if i == colon {
            lemma_split_none(outer, ':');
        } else {
            let inner = raw.subrange(i + 1, colon);
            assert(inner =~= base.skip(i + 1));
            assert(sel =~= inner.push(':') + outer);
            lemma_split_first(inner, outer, ':');
            lemma_split_none(outer, ':');
            assert(split_on(sel, ':') =~= seq![inner, outer]);
            if is_raw(inner) {
                lemma_raw_is_no_list(inner);
            }
        }
        assert(raw.take(i).push(':') + raw.skip(i + 1) =~= raw);
    }
}

} // verus!
