//! Replacing one exact piece of text in a file.
//!
//! The text to replace is looked for in four ways, each of which tolerates one thing more than the
//! one before: byte for byte, without regard to white space at the ends of lines, under another
//! indentation of the whole block, and by the first and last line of a block. The first way that
//! finds anything decides.

use vstd::prelude::*;

use crate::strings::{
    byte_len, char_bytes, char_len, chars_eq, chars_of, find_index, index_at, is_space,
    lemma_encode_concat, lemma_encode_one, lemma_encode_push, lemma_encode_split, lemma_index_at,
    lemma_index_of_offset, lemma_offset_monotone, part, part_from, part_to, runs, space_end,
    space_start, split_chars, split_on, str_len, trim, trim_end, trim_start, trimmed,
};

verus! {

broadcast use vstd::seq::group_seq_axioms;

/// A place where the text to replace was found, as a range of bytes.
#[derive(Debug, Clone)]
pub struct Match {
    pub start: usize,
    pub end: usize,
    /// The indentation of the text to replace, and the one that stands in the file, where they
    /// differ.
    pub reindent: Option<(Vec<char>, Vec<char>)>,
}

/// What [`Match`] stands for.
#[verifier::ext_equal]
pub struct MatchView {
    pub start: nat,
    pub end: nat,
    pub reindent: Option<(Seq<char>, Seq<char>)>,
}

impl View for Match {
    type V = MatchView;

    open spec fn view(&self) -> MatchView {
        MatchView {
            start: self.start as nat,
            end: self.end as nat,
            reindent: match self.reindent {
                Some(r) => Some((r.0@, r.1@)),
                None => None,
            },
        }
    }
}

/// What a run of matches stands for.
pub open spec fn matches_of(m: Seq<Match>) -> Seq<MatchView> {
    Seq::new(m.len(), |i: int| m[i]@)
}

/// Where the pattern occurs first in `s` from `k` on; the length of `s` where it does not.
pub open spec fn find_from(s: Seq<char>, pat: Seq<char>, k: int) -> int
    decreases s.len() - k,
{
    if k < 0 || k >= s.len() || k + pat.len() > s.len() {
        s.len() as int
    } else if s.subrange(k, k + pat.len()) == pat {
        k
    } else {
        find_from(s, pat, k + 1)
    }
}

/// The occurrences of the pattern in `s` from `k` on, none of which overlaps the one before.
pub open spec fn occurrences(s: Seq<char>, pat: Seq<char>, k: int) -> Seq<MatchView>
    decreases s.len() - k,
{
    if pat.len() == 0 || k < 0 || k > s.len() {
        Seq::empty()
    } else {
        proof {
            lemma_find_from(s, pat, k);
        }
        let at = find_from(s, pat, k);
        if at + pat.len() > s.len() {
            Seq::empty()
        } else {
            seq![
                MatchView {
                    start: byte_len(s.take(at)),
                    end: byte_len(s.take(at)) + byte_len(pat),
                    reindent: None,
                },
            ] + occurrences(s, pat, at + pat.len())
        }
    }
}

pub proof fn lemma_find_from(s: Seq<char>, pat: Seq<char>, k: int)
    requires
        0 <= k <= s.len(),
        pat.len() > 0,
    ensures
        k <= find_from(s, pat, k) <= s.len(),
        find_from(s, pat, k) + pat.len() <= s.len() ==> s.subrange(
            find_from(s, pat, k),
            find_from(s, pat, k) + pat.len(),
        ) == pat,
    decreases s.len() - k,
{
    if k + pat.len() <= s.len() && s.subrange(k, k + pat.len()) != pat {
        lemma_find_from(s, pat, k + 1);
    }
}

/// Finds the text byte for byte.
fn exact_matches(content: &[char], old: &[char], total: usize) -> (r: Vec<Match>)
    requires
        byte_len(content@) == total,
    ensures
        matches_of(r@) == occurrences(content@, old@, 0),
{
    let mut r: Vec<Match> = Vec::new();
    if old.len() == 0 {
        assert(matches_of(r@) =~= Seq::<MatchView>::empty());
        return r;
    }
    let mut k: usize = 0;
    let mut off: usize = 0;
    let ghost all = occurrences(content@, old@, 0);
    proof {
        assert(content@.take(0) =~= Seq::<char>::empty());
        assert(matches_of(r@) + all =~= all);
    }
    while old.len() <= content.len() - k
        invariant
            k <= content@.len(),
            old@.len() > 0,
            byte_len(content@) == total,
            off == byte_len(content@.take(k as int)),
            all == occurrences(content@, old@, 0),
            all == matches_of(r@) + occurrences(content@, old@, k as int),
        decreases content@.len() - k,
    {
        let here = part(content, k, k + old.len());
        proof {
            lemma_encode_split(content@, k as int);
            lemma_offset_monotone(content@, k as int, k + old@.len());
            lemma_offset_monotone(content@, k + old@.len(), content@.len() as int);
            assert(content@.take(content@.len() as int) =~= content@);
        }
        if chars_eq(here, old) {
            proof {
                assert(content@.take(k + old@.len()) =~= content@.take(k as int) + old@);
                lemma_encode_concat(content@.take(k as int), old@);
            }
            let n: usize = bytes_of(old, total);
            let found = Match { start: off, end: off + n, reindent: None };
            let ghost before = matches_of(r@);
            r.push(found);
            proof {
                assert(matches_of(r@) =~= before.push(found@));
                let rest = occurrences(content@, old@, k + old@.len());
                assert(occurrences(content@, old@, k as int) =~= seq![found@] + rest);
                assert(before + (seq![found@] + rest) =~= matches_of(r@) + rest);
            }
            off += n;
            k += old.len();
        } else {
            proof {
                assert(content@.take(k + 1) =~= content@.take(k as int).push(content@[k as int]));
                lemma_encode_push(content@.take(k as int), content@[k as int]);
                lemma_offset_monotone(content@, k + 1, content@.len() as int);
                assert(occurrences(content@, old@, k as int) == occurrences(
                    content@,
                    old@,
                    k + 1,
                )) by {
                    lemma_find_from(content@, old@, k + 1);
                }
            }
            off += char_len(content[k]);
            k += 1;
        }
    }
    proof {
        assert(occurrences(content@, old@, k as int) =~= Seq::<MatchView>::empty());
        assert(matches_of(r@) + Seq::<MatchView>::empty() =~= matches_of(r@));
    }
    r
}

/// The bytes of `s`, which are at most `limit`.
fn bytes_of(s: &[char], limit: usize) -> (n: usize)
    requires
        byte_len(s@) <= limit,
    ensures
        n == byte_len(s@),
{
    let mut n: usize = 0;
    let mut i: usize = 0;
    assert(s@.take(0) =~= Seq::<char>::empty());
    while i < s.len()
        invariant
            i <= s@.len(),
            n == byte_len(s@.take(i as int)),
            byte_len(s@) <= limit,
        decreases s@.len() - i,
    {
        proof {
            assert(s@.take(i + 1) =~= s@.take(i as int).push(s@[i as int]));
            lemma_encode_push(s@.take(i as int), s@[i as int]);
            lemma_offset_monotone(s@, i + 1, s@.len() as int);
            assert(s@.take(s@.len() as int) =~= s@);
        }
        n += char_len(s[i]);
        i += 1;
    }
    assert(s@.take(s@.len() as int) =~= s@);
    n
}

/// Where the line `i` starts, in bytes.
pub open spec fn line_start(l: Seq<Seq<char>>, i: int) -> nat
    decreases i,
{
    if i <= 0 {
        0
    } else {
        line_start(l, i - 1) + byte_len(l[i - 1]) + 1
    }
}

/// The lines of a text cover it, one byte for each line break.
proof fn lemma_line_starts(s: Seq<char>)
    ensures
        split_on(s, '\n').len() > 0,
        line_start(split_on(s, '\n'), split_on(s, '\n').len() as int) == byte_len(s) + 1,
    decreases s.len(),
{
    let l = split_on(s, '\n');
    if s.len() == 0 {
        assert(byte_len(Seq::<char>::empty()) == 0);
        assert(line_start(l, 0) == 0);
        assert(line_start(l, 1) == line_start(l, 0) + byte_len(l[0]) + 1);
    } else {
        let t = s.drop_last();
        let front = split_on(t, '\n');
        lemma_line_starts(t);
        assert(s =~= t.push(s.last()));
        lemma_encode_push(t, s.last());
        let n = front.len() as int;
        if s.last() == '\n' {
            lemma_line_start_prefix(front, l, n);
            crate::strings::lemma_ascii_bytes('\n');
            assert(line_start(l, n + 1) == line_start(l, n) + byte_len(l[n]) + 1);
            assert(l[n] =~= Seq::<char>::empty());
        } else {
            lemma_line_start_prefix(front, l, n - 1);
            lemma_encode_push(front.last(), s.last());
            assert(l[n - 1] == front.last().push(s.last()));
            assert(line_start(l, n) == line_start(l, n - 1) + byte_len(l[n - 1]) + 1);
            assert(line_start(front, n) == line_start(front, n - 1) + byte_len(front[n - 1]) + 1);
        }
    }
}

/// Where a line starts depends on the lines before it.
proof fn lemma_line_start_prefix(a: Seq<Seq<char>>, b: Seq<Seq<char>>, n: int)
    requires
        n <= a.len(),
        n <= b.len(),
        forall|i: int| 0 <= i < n ==> a[i] == b[i],
    ensures
        line_start(a, n) == line_start(b, n),
    decreases n,
{
    if n > 0 {
        lemma_line_start_prefix(a, b, n - 1);
    }
}

proof fn lemma_line_start_monotone(l: Seq<Seq<char>>, a: int, b: int)
    requires
        0 <= a <= b,
    ensures
        line_start(l, a) <= line_start(l, b),
    decreases b - a,
{
    if a < b {
        lemma_line_start_monotone(l, a, b - 1);
    }
}

/// The lines of the text to replace; an empty last line, which a line break at its end leaves, is
/// no part of it.
pub open spec fn search_of(old: Seq<char>) -> Seq<Seq<char>> {
    let l = split_on(old, '\n');
    if l.last().len() == 0 {
        l.drop_last()
    } else {
        l
    }
}

/// The lines of the text to replace.
fn search_lines(old: &[char]) -> (r: Vec<Vec<char>>)
    ensures
        runs(r@) == search_of(old@),
{
    let mut l = split_chars(old, '\n');
    let ghost all = runs(l@);
    let n: usize = l.len();
    assert(all.last() == l@[n - 1]@);
    if l[n - 1].len() == 0 {
        let _last = l.pop();
        assert(runs(l@) =~= all.drop_last());
    }
    l
}

/// A line of white space alone.
pub open spec fn is_blank(line: Seq<char>) -> bool {
    trim(line).len() == 0
}

/// The bytes of the white space at the start of a line.
pub open spec fn indent_bytes(line: Seq<char>) -> nat {
    (byte_len(line) - byte_len(trim_start(line))) as nat
}

/// The least indentation of the lines that are not blank.
pub open spec fn least_indent(l: Seq<Seq<char>>) -> Option<nat>
    decreases l.len(),
{
    if l.len() == 0 {
        None
    } else {
        let before = least_indent(l.drop_last());
        let line = l.last();
        if is_blank(line) {
            before
        } else {
            match before {
                Some(n) => if n <= indent_bytes(line) {
                    Some(n)
                } else {
                    Some(indent_bytes(line))
                },
                None => Some(indent_bytes(line)),
            }
        }
    }
}

/// The least indentation, 0 where all lines are blank.
pub open spec fn min_indent(l: Seq<Seq<char>>) -> nat {
    match least_indent(l) {
        Some(n) => n,
        None => 0,
    }
}

/// A line without `n` bytes of indentation. A blank line stays, and so does one in which no
/// character starts behind `n` bytes.
pub open spec fn unindented(line: Seq<char>, n: nat) -> Seq<char> {
    if is_blank(line) {
        line
    } else {
        match index_at(line, n) {
            Some(k) => line.skip(k as int),
            None => line,
        }
    }
}

/// The indentation that a block's lines share, as it stands in the first line that is not blank.
pub open spec fn indent_prefix(l: Seq<Seq<char>>) -> Seq<char> {
    match first_full(l, 0) {
        Some(i) => match index_at(l[i], min_indent(l)) {
            Some(k) => l[i].take(k as int),
            None => Seq::empty(),
        },
        None => Seq::empty(),
    }
}

/// The first line from `i` on that is not blank.
pub open spec fn first_full(l: Seq<Seq<char>>, i: int) -> Option<int>
    decreases l.len() - i,
{
    if i < 0 || i >= l.len() {
        None
    } else if !is_blank(l[i]) {
        Some(i)
    } else {
        first_full(l, i + 1)
    }
}

/// How a block of lines is compared.
#[derive(Debug, Clone, Copy, PartialEq, Eq, Structural)]
pub enum Level {
    /// White space at the ends of lines does not matter.
    Trailing,
    /// Nor does a common indentation.
    Indent,
    /// The first and the last line match, and more than half of the lines between them, if
    /// there are any that are not blank.
    Anchor,
}

/// How many lines `1..k` of a block differ or match, blank pairs aside: all of them, and those
/// that match.
pub open spec fn votes(block: Seq<Seq<char>>, search: Seq<Seq<char>>, k: int) -> (nat, nat)
    decreases k,
{
    if k <= 1 {
        (0, 0)
    } else {
        let (total, same) = votes(block, search, k - 1);
        let got = trim(block[k - 1]);
        let want = trim(search[k - 1]);
        if got.len() == 0 && want.len() == 0 {
            (total, same)
        } else if got == want {
            (total + 1, same + 1)
        } else {
            (total + 1, same)
        }
    }
}

/// Whether a block of as many lines as `search` matches it.
pub open spec fn block_matches(level: Level, block: Seq<Seq<char>>, search: Seq<Seq<char>>) -> bool {
    let n = search.len() as int;
    match level {
        Level::Trailing => forall|j: int|
            0 <= j < n ==> trim_end(#[trigger] block[j]) == trim_end(search[j]),
        Level::Indent => forall|j: int|
            0 <= j < n ==> trim_end(unindented(#[trigger] block[j], min_indent(block))) == trim_end(
                unindented(search[j], min_indent(search)),
            ),
        Level::Anchor => {
            &&& n >= 3
            &&& trim(block[0]) == trim(search[0])
            &&& trim(block[n - 1]) == trim(search[n - 1])
            &&& votes(block, search, n - 1).0 == 0 || votes(block, search, n - 1).1 * 2 > votes(
                block,
                search,
                n - 1,
            ).0
        },
    }
}

/// The indentation to exchange in what replaces a block.
pub open spec fn block_reindent(
    level: Level,
    block: Seq<Seq<char>>,
    search: Seq<Seq<char>>,
) -> Option<(Seq<char>, Seq<char>)> {
    if level == Level::Indent && indent_prefix(block) != indent_prefix(search) {
        Some((indent_prefix(search), indent_prefix(block)))
    } else {
        None
    }
}

/// The match of the block of `n` lines from the line `i` on.
pub open spec fn block_match(
    level: Level,
    l: Seq<Seq<char>>,
    search: Seq<Seq<char>>,
    i: int,
) -> MatchView {
    let n = search.len() as int;
    MatchView {
        start: line_start(l, i),
        end: line_start(l, i + n - 1) + byte_len(l[i + n - 1]),
        reindent: block_reindent(level, l.subrange(i, i + n), search),
    }
}

/// The blocks that match, of those that start before the line `k`.
pub open spec fn blocks(
    level: Level,
    l: Seq<Seq<char>>,
    search: Seq<Seq<char>>,
    k: int,
) -> Seq<MatchView>
    decreases k,
{
    if k <= 0 {
        Seq::empty()
    } else {
        let n = search.len() as int;
        let before = blocks(level, l, search, k - 1);
        if block_matches(level, l.subrange(k - 1, k - 1 + n), search) {
            before.push(block_match(level, l, search, k - 1))
        } else {
            before
        }
    }
}

/// All blocks of a text that match.
pub open spec fn level_matches(level: Level, content: Seq<char>, old: Seq<char>) -> Seq<MatchView> {
    let l = split_on(content, '\n');
    let search = search_of(old);
    if search.len() == 0 || l.len() < search.len() {
        Seq::empty()
    } else {
        blocks(level, l, search, l.len() - search.len() + 1)
    }
}

/// No line of `l` has more than `limit` bytes.
spec fn lines_within(l: Seq<Seq<char>>, limit: nat) -> bool {
    forall|i: int| 0 <= i < l.len() ==> byte_len(#[trigger] l[i]) <= limit
}

/// Where each line starts and ends, in bytes.
fn line_spans(lines: &Vec<Vec<char>>, total: usize) -> (r: Vec<(usize, usize)>)
    requires
        line_start(runs(lines@), lines@.len() as int) == total + 1,
    ensures
        r@.len() == lines@.len(),
        forall|i: int|
            0 <= i < r@.len() ==> (#[trigger] r@[i]).0 == line_start(runs(lines@), i) && r@[i].1
                == line_start(runs(lines@), i) + byte_len(lines@[i]@),
        lines_within(runs(lines@), total as nat),
{
    let ghost l = runs(lines@);
    let mut r: Vec<(usize, usize)> = Vec::new();
    let mut start: usize = 0;
    let mut i: usize = 0;
    while i < lines.len()
        invariant
            l == runs(lines@),
            line_start(l, l.len() as int) == total + 1,
            i <= lines@.len(),
            r@.len() == i,
            i < lines@.len() ==> start == line_start(l, i as int),
            forall|k: int|
                0 <= k < i ==> (#[trigger] r@[k]).0 == line_start(l, k) && r@[k].1 == line_start(
                    l,
                    k,
                ) + byte_len(l[k]),
            forall|k: int| 0 <= k < i ==> byte_len(#[trigger] l[k]) <= total,
        decreases lines@.len() - i,
    {
        proof {
            lemma_line_start_monotone(l, i + 1, l.len() as int);
            assert(l[i as int] == lines@[i as int]@);
        }
        let n = bytes_of(lines[i].as_slice(), total);
        r.push((start, start + n));
        i += 1;
        if i < lines.len() {
            proof {
                lemma_line_start_monotone(l, i + 1, l.len() as int);
            }
            start = start + n + 1;
        }
    }
    r
}

/// The least indentation of the lines `from..to` that are not blank.
fn min_indent_len(lines: &Vec<Vec<char>>, from: usize, to: usize, limit: usize) -> (r: usize)
    requires
        from <= to <= lines@.len(),
        lines_within(runs(lines@), limit as nat),
    ensures
        r == min_indent(runs(lines@).subrange(from as int, to as int)),
{
    let ghost block = runs(lines@).subrange(from as int, to as int);
    let mut best: Option<usize> = None;
    let mut i: usize = from;
    assert(block.take(0) =~= Seq::<Seq<char>>::empty());
    while i < to
        invariant
            from <= i <= to <= lines@.len(),
            lines_within(runs(lines@), limit as nat),
            block == runs(lines@).subrange(from as int, to as int),
            match best {
                Some(n) => least_indent(block.take(i - from)) == Some(n as nat),
                None => least_indent(block.take(i - from)) is None,
            },
        decreases to - i,
    {
        let line = lines[i].as_slice();
        proof {
            assert(block.take(i + 1 - from).drop_last() =~= block.take(i - from));
            assert(block.take(i + 1 - from).last() == line@);
            assert(byte_len(runs(lines@)[i as int]) <= limit);
        }
        if trimmed(line).len() > 0 {
            let k = space_start(line);
            proof {
                lemma_encode_split(line@, k as int);
                lemma_offset_monotone(line@, k as int, line@.len() as int);
            }
            let n = bytes_of(part_to(line, k), limit);
            assert(n == indent_bytes(line@));
            best = match best {
                Some(m) => if m <= n {
                    Some(m)
                } else {
                    Some(n)
                },
                None => Some(n),
            };
        }
        i += 1;
    }
    assert(block.take(to - from) =~= block);
    match best {
        Some(n) => n,
        None => 0,
    }
}

/// A line without `n` bytes of indentation.
fn unindent<'a>(line: &'a [char], n: usize) -> (r: &'a [char])
    ensures
        r@ == unindented(line@, n as nat),
{
    if trimmed(line).len() == 0 {
        return line;
    }
    match find_index(line, n) {
        Some(k) => part_from(line, k),
        None => line,
    }
}

/// The indentation that the lines `from..to` share.
fn common_indent_prefix(
    lines: &Vec<Vec<char>>,
    from: usize,
    to: usize,
    limit: usize,
) -> (r: Vec<char>)
    requires
        from <= to <= lines@.len(),
        lines_within(runs(lines@), limit as nat),
    ensures
        r@ == indent_prefix(runs(lines@).subrange(from as int, to as int)),
{
    let ghost block = runs(lines@).subrange(from as int, to as int);
    let n = min_indent_len(lines, from, to, limit);
    let mut i: usize = from;
    while i < to
        invariant
            from <= i <= to <= lines@.len(),
            block == runs(lines@).subrange(from as int, to as int),
            n == min_indent(block),
            first_full(block, 0) == first_full(block, i - from),
        decreases to - i,
    {
        let line = lines[i].as_slice();
        assert(block[i - from] == line@);
        if trimmed(line).len() > 0 {
            let mut r: Vec<char> = Vec::new();
            if let Some(k) = find_index(line, n) {
                let front = part_to(line, k);
                let mut j: usize = 0;
                while j < front.len()
                    invariant
                        j <= front@.len(),
                        r@ == front@.take(j as int),
                    decreases front@.len() - j,
                {
                    r.push(front[j]);
                    j += 1;
                    assert(front@.take(j as int) =~= front@.take(j - 1).push(front@[j - 1]));
                }
                assert(front@.take(front@.len() as int) =~= front@);
            } else {
                assert(r@ =~= Seq::<char>::empty());
            }
            return r;
        }
        i += 1;
    }
    let r: Vec<char> = Vec::new();
    assert(r@ =~= Seq::<char>::empty());
    r
}

/// Whether the block of lines from `i` on matches the lines looked for.
fn block_equals(
    level: Level,
    lines: &Vec<Vec<char>>,
    i: usize,
    search: &Vec<Vec<char>>,
    search_indent: usize,
    limit: usize,
) -> (r: bool)
    requires
        search@.len() > 0,
        i + search@.len() <= lines@.len(),
        lines_within(runs(lines@), limit as nat),
        search_indent == min_indent(runs(search@)),
    ensures
        r == block_matches(
            level,
            runs(lines@).subrange(i as int, i + search@.len()),
            runs(search@),
        ),
{
    let n: usize = search.len();
    let count: usize = lines.len();
    let ghost block = runs(lines@).subrange(i as int, i + n);
    let ghost s = runs(search@);
    match level {
        Level::Trailing => {
            let mut j: usize = 0;
            while j < n
                invariant
                    level == Level::Trailing,
                    j <= n == search@.len(),
                    i + n <= count == lines@.len(),
                    block == runs(lines@).subrange(i as int, i + n),
                    s == runs(search@),
                    forall|k: int|
                        0 <= k < j ==> trim_end(#[trigger] block[k]) == trim_end(s[k]),
                decreases n - j,
            {
                let a = lines[i + j].as_slice();
                let b = search[j].as_slice();
                assert(block[j as int] == a@ && s[j as int] == b@);
                if !chars_eq(part_to(a, space_end(a)), part_to(b, space_end(b))) {
                    return false;
                }
                j += 1;
            }
            true
        },
        Level::Indent => {
            let indent = min_indent_len(lines, i, i + n, limit);
            let mut j: usize = 0;
            while j < n
                invariant
                    level == Level::Indent,
                    j <= n == search@.len(),
                    i + n <= count == lines@.len(),
                    block == runs(lines@).subrange(i as int, i + n),
                    s == runs(search@),
                    indent == min_indent(block),
                    search_indent == min_indent(s),
                    forall|k: int|
                        0 <= k < j ==> trim_end(unindented(#[trigger] block[k], min_indent(block)))
                            == trim_end(unindented(s[k], min_indent(s))),
                decreases n - j,
            {
                let a = unindent(lines[i + j].as_slice(), indent);
                let b = unindent(search[j].as_slice(), search_indent);
                assert(block[j as int] == lines@[i + j]@ && s[j as int] == search@[j as int]@);
                if !chars_eq(part_to(a, space_end(a)), part_to(b, space_end(b))) {
                    return false;
                }
                j += 1;
            }
            true
        },
        Level::Anchor => {
            if n < 3 {
                return false;
            }
            assert(block[0] == lines@[i as int]@ && s[0] == search@[0]@);
            assert(block[n - 1] == lines@[i + n - 1]@ && s[n - 1] == search@[n - 1]@);
            if !chars_eq(trimmed(lines[i].as_slice()), trimmed(search[0].as_slice())) {
                return false;
            }
            if !chars_eq(
                trimmed(lines[i + n - 1].as_slice()),
                trimmed(search[n - 1].as_slice()),
            ) {
                return false;
            }
            let mut total: u128 = 0;
            let mut same: u128 = 0;
            let mut j: usize = 1;
            while j < n - 1
                invariant
                    3 <= n == search@.len(),
                    1 <= j <= n - 1,
                    i + n <= count == lines@.len(),
                    block == runs(lines@).subrange(i as int, i + n),
                    s == runs(search@),
                    votes(block, s, j as int) == (total as nat, same as nat),
                    same <= total < j,
                decreases n - j,
            {
                let got = trimmed(lines[i + j].as_slice());
                let want = trimmed(search[j].as_slice());
                assert(block[j as int] == lines@[i + j]@ && s[j as int] == search@[j as int]@);
                if !(got.len() == 0 && want.len() == 0) {
                    total += 1;
                    if chars_eq(got, want) {
                        same += 1;
                    }
                }
                j += 1;
            }
            total == 0 || same * 2 > total
        },
    }
}

/// Finds the blocks of lines that match at a level.
fn find_blocks(level: Level, content: &[char], old: &[char], total: usize, old_total: usize) -> (r: Vec<
    Match,
>)
    requires
        byte_len(content@) == total,
        byte_len(old@) == old_total,
    ensures
        matches_of(r@) == level_matches(level, content@, old@),
{
    let lines = split_chars(content, '\n');
    let search = search_lines(old);
    let mut r: Vec<Match> = Vec::new();
    let n: usize = search.len();
    assert(matches_of(r@) =~= Seq::<MatchView>::empty());
    if n == 0 || lines.len() < n {
        return r;
    }
    let ghost l = runs(lines@);
    let ghost s = runs(search@);
    proof {
        lemma_line_starts(content@);
        lemma_search_within(old@);
        assert(s.subrange(0, n as int) =~= s);
    }
    let spans = line_spans(&lines, total);
    let search_indent = min_indent_len(&search, 0, n, old_total);
    let search_prefix = common_indent_prefix(&search, 0, n, old_total);
    let last: usize = lines.len() - n;
    let mut i: usize = 0;
    let mut more = true;
    while more
        invariant
            l == runs(lines@),
            s == runs(search@),
            n == s.len(),
            n > 0,
            last + n == lines@.len(),
            lines_within(l, total as nat),
            search_indent == min_indent(s),
            search_prefix@ == indent_prefix(s),
            spans@.len() == lines@.len(),
            forall|k: int|
                0 <= k < spans@.len() ==> (#[trigger] spans@[k]).0 == line_start(l, k) && spans@[k].1
                    == line_start(l, k) + byte_len(l[k]),
            more ==> i <= last,
            !more ==> i == last,
            matches_of(r@) == blocks(
                level,
                l,
                s,
                if more {
                    i as int
                } else {
                    last + 1
                },
            ),
        decreases
            last - i + if more {
                1int
            } else {
                0int
            },
    {
        let ghost before = matches_of(r@);
        let ghost block = l.subrange(i as int, i + n);
        if block_equals(level, &lines, i, &search, search_indent, total) {
            let (start, _first_end) = spans[i];
            let (_last_start, end) = spans[i + n - 1];
            let mut reindent: Option<(Vec<char>, Vec<char>)> = None;
            if level == Level::Indent {
                let block_prefix = common_indent_prefix(&lines, i, i + n, total);
                if !chars_eq(block_prefix.as_slice(), search_prefix.as_slice()) {
                    reindent = Some((copy_chars(search_prefix.as_slice()), block_prefix));
                }
            }
            let found = Match { start, end, reindent };
            assert(found@ =~= block_match(level, l, s, i as int));
            r.push(found);
            assert(matches_of(r@) =~= before.push(block_match(level, l, s, i as int)));
        }
        assert(matches_of(r@) =~= blocks(level, l, s, i + 1));
        if i == last {
            more = false;
        } else {
            i += 1;
        }
    }
    r
}

/// A copy of characters.
fn copy_chars(s: &[char]) -> (r: Vec<char>)
    ensures
        r@ == s@,
{
    let mut r: Vec<char> = Vec::new();
    let mut i: usize = 0;
    while i < s.len()
        invariant
            i <= s@.len(),
            r@ == s@.take(i as int),
        decreases s@.len() - i,
    {
        r.push(s[i]);
        i += 1;
        assert(s@.take(i as int) =~= s@.take(i - 1).push(s@[i - 1]));
    }
    assert(s@.take(s@.len() as int) =~= s@);
    r
}

/// A line has at most as many bytes as the text that it belongs to.
proof fn lemma_lines_within(s: Seq<char>)
    ensures
        lines_within(split_on(s, '\n'), byte_len(s)),
{
    let l = split_on(s, '\n');
    lemma_line_starts(s);
    assert forall|i: int| 0 <= i < l.len() implies byte_len(#[trigger] l[i]) <= byte_len(s) by {
        lemma_line_start_monotone(l, i + 1, l.len() as int);
    }
}

proof fn lemma_search_within(old: Seq<char>)
    ensures
        lines_within(search_of(old), byte_len(old)),
{
    lemma_lines_within(old);
    let l = split_on(old, '\n');
    let s = search_of(old);
    assert forall|i: int| 0 <= i < s.len() implies byte_len(#[trigger] s[i]) <= byte_len(old) by {
        assert(s[i] == l[i]);
    }
}

/// Where the text is found: by the first way that finds anything.
pub open spec fn located(content: Seq<char>, old: Seq<char>) -> Seq<MatchView> {
    if occurrences(content, old, 0).len() > 0 {
        occurrences(content, old, 0)
    } else if level_matches(Level::Trailing, content, old).len() > 0 {
        level_matches(Level::Trailing, content, old)
    } else if level_matches(Level::Indent, content, old).len() > 0 {
        level_matches(Level::Indent, content, old)
    } else {
        level_matches(Level::Anchor, content, old)
    }
}

/// Looks for the text in each of the four ways until one finds anything.
fn locate(content: &[char], old: &[char], total: usize, old_total: usize) -> (r: Vec<Match>)
    requires
        byte_len(content@) == total,
        byte_len(old@) == old_total,
    ensures
        matches_of(r@) == located(content@, old@),
{
    let exact = exact_matches(content, old, total);
    assert(matches_of(exact@).len() == exact@.len());
    if exact.len() > 0 {
        return exact;
    }
    let trailing = find_blocks(Level::Trailing, content, old, total, old_total);
    assert(matches_of(trailing@).len() == trailing@.len());
    if trailing.len() > 0 {
        return trailing;
    }
    let indent = find_blocks(Level::Indent, content, old, total, old_total);
    assert(matches_of(indent@).len() == indent@.len());
    if indent.len() > 0 {
        return indent;
    }
    find_blocks(Level::Anchor, content, old, total, old_total)
}

/// A line with the indentation `to` in place of `from`, if it starts with that.
pub open spec fn reindented_line(line: Seq<char>, from: Seq<char>, to: Seq<char>) -> Seq<char> {
    if from.len() <= line.len() && line.take(from.len() as int) == from {
        to + line.skip(from.len() as int)
    } else {
        line
    }
}

/// The first `n` lines with the indentation `to` in place of `from`, a line break between them.
pub open spec fn reindented_lines(
    l: Seq<Seq<char>>,
    from: Seq<char>,
    to: Seq<char>,
    n: int,
) -> Seq<char>
    decreases n,
{
    if n <= 0 {
        Seq::empty()
    } else if n == 1 {
        reindented_line(l[0], from, to)
    } else {
        reindented_lines(l, from, to, n - 1).push('\n') + reindented_line(l[n - 1], from, to)
    }
}

/// A text with the indentation `to` in place of `from`.
pub open spec fn reindented(text: Seq<char>, from: Seq<char>, to: Seq<char>) -> Seq<char> {
    if from == to {
        text
    } else {
        let l = split_on(text, '\n');
        reindented_lines(l, from, to, l.len() as int)
    }
}

/// Appends characters.
fn extend_chars(out: &mut Vec<char>, more: &[char])
    ensures
        final(out)@ == old(out)@ + more@,
{
    let ghost before = out@;
    let mut i: usize = 0;
    while i < more.len()
        invariant
            i <= more@.len(),
            out@ == before + more@.take(i as int),
        decreases more@.len() - i,
    {
        out.push(more[i]);
        i += 1;
        assert(more@.take(i as int) =~= more@.take(i - 1).push(more@[i - 1]));
        assert(out@ =~= before + more@.take(i as int));
    }
    assert(more@.take(more@.len() as int) =~= more@);
}

/// A text with the indentation `to` in place of `from`. Lines that do not start with `from` stay.
fn reindent_text(text: &[char], from: &[char], to: &[char]) -> (r: Vec<char>)
    ensures
        r@ == reindented(text@, from@, to@),
{
    if chars_eq(from, to) {
        return copy_chars(text);
    }
    let lines = split_chars(text, '\n');
    let ghost l = runs(lines@);
    let mut out: Vec<char> = Vec::new();
    let mut i: usize = 0;
    while i < lines.len()
        invariant
            i <= lines@.len(),
            l == runs(lines@),
            out@ == reindented_lines(l, from@, to@, i as int),
        decreases lines@.len() - i,
    {
        let ghost before = out@;
        if i > 0 {
            out.push('\n');
        }
        let line = lines[i].as_slice();
        assert(l[i as int] == line@);
        if from.len() <= line.len() && chars_eq(part_to(line, from.len()), from) {
            extend_chars(&mut out, to);
            extend_chars(&mut out, part_from(line, from.len()));
        } else {
            extend_chars(&mut out, line);
        }
        i += 1;
        assert(out@ =~= reindented_lines(l, from@, to@, i as int));
    }
    out
}

/// What replaces a match.
pub open spec fn replacement(m: MatchView, new: Seq<char>) -> Seq<char> {
    match m.reindent {
        Some((from, to)) => reindented(new, from, to),
        None => new,
    }
}

/// `s` with one match replaced.
pub open spec fn spliced(s: Seq<char>, m: MatchView, new: Seq<char>) -> Seq<char> {
    let front = match index_at(s, m.start) {
        Some(k) => s.take(k as int),
        None => Seq::empty(),
    };
    let back = match index_at(s, m.end) {
        Some(k) => s.skip(k as int),
        None => Seq::empty(),
    };
    front + replacement(m, new) + back
}

/// `s` with all matches replaced, from the last to the first.
pub open spec fn replaced(s: Seq<char>, m: Seq<MatchView>, new: Seq<char>) -> Seq<char>
    decreases m.len(),
{
    if m.len() == 0 {
        s
    } else {
        replaced(spliced(s, m.last(), new), m.drop_last(), new)
    }
}

/// The outcome of a replacement.
pub enum ReplaceOutcome {
    /// The text was not found.
    NotFound,
    /// The text was found in several places, and only one was to be replaced.
    Ambiguous(Vec<Match>),
    /// The text was replaced.
    Applied { new_content: Vec<char>, match_count: usize },
}

/// Replaces one match.
fn splice(s: &[char], m: &Match, new: &[char]) -> (r: Vec<char>)
    ensures
        r@ == spliced(s@, m@, new@),
{
    let mut out: Vec<char> = Vec::new();
    if let Some(k) = find_index(s, m.start) {
        extend_chars(&mut out, part_to(s, k));
    }
    match &m.reindent {
        Some(r) => {
            let text = reindent_text(new, r.0.as_slice(), r.1.as_slice());
            extend_chars(&mut out, text.as_slice());
        },
        None => {
            extend_chars(&mut out, new);
        },
    }
    if let Some(k) = find_index(s, m.end) {
        extend_chars(&mut out, part_from(s, k));
    }
    assert(out@ =~= spliced(s@, m@, new@));
    out
}

/// Replaces the text that is looked for: the one place where it stands, or all places.
pub fn apply_replace(content: &str, old: &str, new: &str, replace_all: bool) -> (r: ReplaceOutcome)
    ensures
        match r {
            ReplaceOutcome::NotFound => located(content@, old@).len() == 0,
            ReplaceOutcome::Ambiguous(m) => !replace_all && m@.len() > 1 && matches_of(m@)
                == located(content@, old@),
            ReplaceOutcome::Applied { new_content, match_count } => {
                &&& match_count > 0
                &&& match_count == located(content@, old@).len()
                &&& replace_all || match_count == 1
                &&& new_content@ == replaced(content@, located(content@, old@), new@)
            },
        },
{
    let chars = chars_of(content);
    let wanted = chars_of(old);
    let with = chars_of(new);
    let matches = locate(chars.as_slice(), wanted.as_slice(), str_len(content), str_len(old));
    let ghost all = matches_of(matches@);
    assert(all.len() == matches@.len());
    if matches.len() == 0 {
        return ReplaceOutcome::NotFound;
    }
    if matches.len() > 1 && !replace_all {
        return ReplaceOutcome::Ambiguous(matches);
    }
    let mut result = chars;
    let mut i: usize = matches.len();
    assert(all.take(i as int) =~= all);
    while i > 0
        invariant
            i <= matches@.len(),
            all == matches_of(matches@),
            replaced(content@, all, new@) == replaced(result@, all.take(i as int), new@),
            with@ == new@,
        decreases i,
    {
        i -= 1;
        proof {
            assert(all.take(i + 1).last() == matches@[i as int]@);
            assert(all.take(i + 1).drop_last() =~= all.take(i as int));
        }
        result = splice(result.as_slice(), &matches[i], with.as_slice());
    }
    ReplaceOutcome::Applied { new_content: result, match_count: matches.len() }
}

/// A text that stands in exactly one place is replaced there, and nothing else changes.
pub proof fn lemma_exact_replacement(front: Seq<char>, old: Seq<char>, back: Seq<char>, new: Seq<char>)
    requires
        old.len() > 0,
        occurrences(front + old + back, old, 0).len() == 1,
        find_from(front + old + back, old, 0) == front.len(),
    ensures
        replaced(front + old + back, located(front + old + back, old), new) == front + new + back,
{
    let s = front + old + back;
    let m = occurrences(s, old, 0);
    let k = front.len() as int;
    lemma_find_from(s, old, 0);
    assert(s.take(k) =~= front);
    assert(s.take(k + old.len()) =~= front + old);
    assert(s.skip(k + old.len()) =~= back);
    lemma_encode_concat(front, old);
    lemma_index_of_offset(s, k);
    lemma_index_of_offset(s, k + old.len());
    assert(m.drop_last() =~= Seq::<MatchView>::empty());
    assert(m.last() == m[0]);
    let one = spliced(s, m.last(), new);
    assert(one =~= front + new + back);
    reveal_with_fuel(replaced, 2);
}

/// How many white-space characters start `s`, and what follows them.
pub proof fn lemma_trim_start(s: Seq<char>) -> (k: int)
    ensures
        0 <= k <= s.len(),
        trim_start(s) == s.skip(k),
        forall|i: int| 0 <= i < k ==> is_space(s[i]),
        k < s.len() ==> !is_space(s[k]),
    decreases s.len(),
{
    if s.len() > 0 && is_space(s[0]) {
        let t = s.drop_first();
        let k = lemma_trim_start(t);
        assert(t.skip(k) =~= s.skip(k + 1));
        assert forall|i: int| 0 <= i < k + 1 implies is_space(s[i]) by {
            if i > 0 {
                assert(s[i] == t[i - 1]);
            }
        }
        k + 1
    } else {
        assert(s.skip(0) =~= s);
        0
    }
}

proof fn lemma_trim_end(s: Seq<char>) -> (k: int)
    ensures
        0 <= k <= s.len(),
        trim_end(s) == s.take(k),
        forall|i: int| k <= i < s.len() ==> is_space(s[i]),
        k > 0 ==> !is_space(s[k - 1]),
    decreases s.len(),
{
    if s.len() > 0 && is_space(s.last()) {
        let t = s.drop_last();
        let k = lemma_trim_end(t);
        assert(t.take(k) =~= s.take(k));
        assert forall|i: int| k <= i < s.len() implies is_space(s[i]) by {
            if i < t.len() {
                assert(s[i] == t[i]);
            }
        }
        k
    } else {
        assert(s.take(s.len() as int) =~= s);
        s.len() as int
    }
}

/// The end that `trim_end` leaves is determined by what is white space.
proof fn lemma_trim_end_at(s: Seq<char>, k: int)
    requires
        0 <= k <= s.len(),
        forall|i: int| k <= i < s.len() ==> is_space(s[i]),
        k > 0 ==> !is_space(s[k - 1]),
    ensures
        trim_end(s) == s.take(k),
{
    let e = lemma_trim_end(s);
    if e < k {
        assert(is_space(s[k - 1]));
    }
    if k < e {
        assert(is_space(s[e - 1]));
    }
}

/// Where white space ends at the start of a text, the text begins without it.
pub proof fn lemma_trim_start_at(s: Seq<char>, k: int)
    requires
        0 <= k <= s.len(),
        forall|i: int| 0 <= i < k ==> is_space(s[i]),
        k < s.len() ==> !is_space(s[k]),
    ensures
        trim_start(s) == s.skip(k),
{
    let b = lemma_trim_start(s);
    if b < k {
        assert(is_space(s[b]));
    }
    if k < b {
        assert(is_space(s[k]));
    }
}

/// A blank line is white space throughout.
pub proof fn lemma_blank(s: Seq<char>)
    ensures
        is_blank(s) <==> forall|i: int| 0 <= i < s.len() ==> is_space(s[i]),
        is_blank(s) <==> trim_end(s).len() == 0,
{
    let b = lemma_trim_start(s);
    let t = s.skip(b);
    let e = lemma_trim_end(t);
    let f = lemma_trim_end(s);
    if is_blank(s) {
        assert forall|i: int| 0 <= i < s.len() implies is_space(s[i]) by {
            if i >= b {
                assert(is_space(t[i - b]));
            }
        }
        if f > 0 {
            assert(is_space(s[f - 1]));
        }
    }
    if forall|i: int| 0 <= i < s.len() ==> is_space(s[i]) {
        if b < s.len() {
            assert(is_space(s[b]));
        }
    }
    if trim_end(s).len() == 0 {
        assert(f == 0);
        assert forall|i: int| 0 <= i < s.len() implies is_space(s[i]) by {}
    }
}

/// Lines that differ in the white space at their ends have the same indentation and differ no more
/// when part of the indentation is taken away.
proof fn lemma_same_line(a: Seq<char>, b: Seq<char>, n: nat)
    requires
        trim_end(a) == trim_end(b),
    ensures
        is_blank(a) == is_blank(b),
        !is_blank(a) ==> indent_bytes(a) == indent_bytes(b),
        n <= indent_bytes(a) || is_blank(a) ==> trim_end(unindented(a, n)) == trim_end(
            unindented(b, n),
        ),
        !is_blank(a) && n <= indent_bytes(a) ==> index_at(a, n) == index_at(b, n),
        !is_blank(a) && n <= indent_bytes(a) ==> (index_at(a, n) matches Some(k) ==> a.take(
            k as int,
        ) == b.take(k as int)),
{
    lemma_blank(a);
    lemma_blank(b);
    let ea = lemma_trim_end(a);
    let eb = lemma_trim_end(b);
    let t = trim_end(a);
    assert(t.len() == ea);
    assert(t.len() == eb);
    if !is_blank(a) {
        let ka = lemma_trim_start(a);
        assert(ka < ea) by {
            if ka >= ea {
                assert(is_space(a[ea - 1]));
            }
        }
        assert forall|i: int| 0 <= i < ka implies is_space(b[i]) by {
            assert(b[i] == t[i]);
            assert(a[i] == t[i]);
        }
        assert(b[ka] == t[ka] && a[ka] == t[ka]);
        lemma_trim_start_at(b, ka);
        lemma_encode_split(a, ka);
        lemma_encode_split(b, ka);
        assert(a.take(ka) =~= t.take(ka));
        assert(b.take(ka) =~= t.take(ka));
        if n <= indent_bytes(a) {
            lemma_index_prefix(a, b, ka, n);
            lemma_index_at(a, n);
            if let Some(k) = index_at(a, n) {
                lemma_index_within(a, ka, n);
                assert(a.take(k as int) =~= t.take(k as int));
                assert(b.take(k as int) =~= t.take(k as int));
                let x = a.skip(k as int);
                let y = b.skip(k as int);
                assert forall|i: int| ea - k <= i < x.len() implies is_space(x[i]) by {
                    assert(x[i] == a[i + k]);
                }
                assert forall|i: int| eb - k <= i < y.len() implies is_space(y[i]) by {
                    assert(y[i] == b[i + k]);
                }
                assert(x[ea - k - 1] == a[ea - 1]);
                assert(y[eb - k - 1] == b[eb - 1]);
                lemma_trim_end_at(x, ea - k);
                lemma_trim_end_at(y, eb - k);
                assert(x.take(ea - k) =~= t.skip(k as int));
                assert(y.take(eb - k) =~= t.skip(k as int));
            }
        }
    }
}

/// An offset within a prefix is found in the prefix.
proof fn lemma_index_within(a: Seq<char>, k: int, n: nat)
    requires
        0 <= k <= a.len(),
        n <= byte_len(a.take(k)),
    ensures
        index_at(a, n) matches Some(x) ==> x <= k,
{
    lemma_index_at(a, n);
    if let Some(x) = index_at(a, n) {
        if x > k {
            lemma_offset_monotone(a, k, x as int);
        }
    }
}

/// Strings with the same first `k` characters agree on the offsets there.
proof fn lemma_index_prefix(a: Seq<char>, b: Seq<char>, k: int, n: nat)
    requires
        0 <= k <= a.len(),
        k <= b.len(),
        a.take(k) == b.take(k),
        n <= byte_len(a.take(k)),
    ensures
        index_at(a, n) == index_at(b, n),
    decreases k,
{
    if k == 0 {
        assert(a.take(0) =~= Seq::<char>::empty());
    } else if n > 0 {
        assert(a.take(k)[0] == b.take(k)[0]);
        assert(a[0] == b[0]);
        let c = a[0];
        let ra = a.drop_first();
        let rb = b.drop_first();
        assert(a.take(k) =~= seq![c] + ra.take(k - 1));
        assert(b.take(k) =~= seq![c] + rb.take(k - 1));
        assert(ra.take(k - 1) =~= a.take(k).drop_first());
        assert(rb.take(k - 1) =~= b.take(k).drop_first());
        lemma_encode_concat(seq![c], ra.take(k - 1));
        lemma_encode_one(c);
        if char_bytes(c) <= n {
            lemma_index_prefix(ra, rb, k - 1, (n - char_bytes(c)) as nat);
        }
    }
}

proof fn lemma_least_indent(a: Seq<Seq<char>>, b: Seq<Seq<char>>)
    requires
        a.len() == b.len(),
        forall|j: int| 0 <= j < a.len() ==> trim_end(#[trigger] a[j]) == trim_end(b[j]),
    ensures
        least_indent(a) == least_indent(b),
    decreases a.len(),
{
    if a.len() > 0 {
        assert(trim_end(a[a.len() - 1]) == trim_end(b[a.len() - 1]));
        lemma_same_line(a.last(), b.last(), 0);
        assert forall|j: int| 0 <= j < a.drop_last().len() implies trim_end(
            #[trigger] a.drop_last()[j],
        ) == trim_end(b.drop_last()[j]) by {
            assert(trim_end(a[j]) == trim_end(b[j]));
        }
        lemma_least_indent(a.drop_last(), b.drop_last());
    }
}

/// The least indentation is at most that of each line that is not blank.
proof fn lemma_min_indent(l: Seq<Seq<char>>, j: int)
    requires
        0 <= j < l.len(),
        !is_blank(l[j]),
    ensures
        least_indent(l) is Some,
        min_indent(l) <= indent_bytes(l[j]),
    decreases l.len(),
{
    if j < l.len() - 1 {
        assert(l.drop_last()[j] == l[j]);
        lemma_min_indent(l.drop_last(), j);
    }
}

/// What differs only in the white space at the ends of lines also matches under another
/// indentation.
pub proof fn lemma_trailing_is_indent(block: Seq<Seq<char>>, search: Seq<Seq<char>>)
    requires
        block.len() == search.len(),
        block_matches(Level::Trailing, block, search),
    ensures
        block_matches(Level::Indent, block, search),
{
    lemma_least_indent(block, search);
    assert forall|j: int| 0 <= j < search.len() implies trim_end(
        unindented(#[trigger] block[j], min_indent(block)),
    ) == trim_end(unindented(search[j], min_indent(search))) by {
        assert(trim_end(block[j]) == trim_end(search[j]));
        if !is_blank(block[j]) {
            lemma_min_indent(block, j);
        }
        lemma_same_line(block[j], search[j], min_indent(block));
    }
}

proof fn lemma_same_first_full(a: Seq<Seq<char>>, b: Seq<Seq<char>>, i: int)
    requires
        a.len() == b.len(),
        forall|j: int| 0 <= j < a.len() ==> trim_end(#[trigger] a[j]) == trim_end(b[j]),
        0 <= i,
    ensures
        first_full(a, i) == first_full(b, i),
        first_full(a, i) matches Some(k) ==> 0 <= k < a.len() && !is_blank(a[k]),
    decreases a.len() - i,
{
    if i < a.len() {
        assert(trim_end(a[i]) == trim_end(b[i]));
        lemma_same_line(a[i], b[i], 0);
        lemma_same_first_full(a, b, i + 1);
    }
}

/// Blocks that differ only in the white space at the ends of lines share their indentation.
proof fn lemma_same_prefix(a: Seq<Seq<char>>, b: Seq<Seq<char>>)
    requires
        a.len() == b.len(),
        forall|j: int| 0 <= j < a.len() ==> trim_end(#[trigger] a[j]) == trim_end(b[j]),
    ensures
        indent_prefix(a) == indent_prefix(b),
{
    lemma_same_first_full(a, b, 0);
    lemma_least_indent(a, b);
    if let Some(i) = first_full(a, 0) {
        lemma_min_indent(a, i);
        assert(trim_end(a[i]) == trim_end(b[i]));
        lemma_same_line(a[i], b[i], min_indent(a));
    }
}

proof fn lemma_blocks_wider(l: Seq<Seq<char>>, search: Seq<Seq<char>>, k: int, i: int) -> (j: int)
    requires
        0 <= k <= l.len() - search.len() + 1,
        0 <= i < blocks(Level::Trailing, l, search, k).len(),
    ensures
        0 <= j < blocks(Level::Indent, l, search, k).len(),
        blocks(Level::Indent, l, search, k)[j] == blocks(Level::Trailing, l, search, k)[i],
        blocks(Level::Trailing, l, search, k)[i].reindent is None,
    decreases k,
{
    let n = search.len() as int;
    let before = blocks(Level::Trailing, l, search, k - 1);
    let wider = blocks(Level::Indent, l, search, k - 1);
    if i < before.len() {
        let j = lemma_blocks_wider(l, search, k - 1, i);
        assert(blocks(Level::Indent, l, search, k)[j] == wider[j]);
        j
    } else {
        let block = l.subrange(k - 1, k - 1 + n);
        assert(block_matches(Level::Trailing, block, search));
        lemma_trailing_is_indent(block, search);
        lemma_same_prefix(block, search);
        assert(block_match(Level::Indent, l, search, k - 1) == block_match(
            Level::Trailing,
            l,
            search,
            k - 1,
        ));
        wider.len() as int
    }
}

/// Each place that matches without regard to white space at the ends of lines also matches under
/// another indentation, with none to exchange.
pub proof fn lemma_trailing_places_are_indent_places(content: Seq<char>, old: Seq<char>, i: int)
    requires
        0 <= i < level_matches(Level::Trailing, content, old).len(),
    ensures
        level_matches(Level::Trailing, content, old)[i].reindent is None,
        level_matches(Level::Indent, content, old).contains(
            level_matches(Level::Trailing, content, old)[i],
        ),
{
    let l = split_on(content, '\n');
    let search = search_of(old);
    let j = lemma_blocks_wider(l, search, l.len() - search.len() + 1, i);
    assert(level_matches(Level::Indent, content, old)[j] == level_matches(
        Level::Trailing,
        content,
        old,
    )[i]);
}

/// Taking away indentation leaves the same text between the white space.
proof fn lemma_unindented_trim(line: Seq<char>, n: nat)
    requires
        is_blank(line) || n <= indent_bytes(line),
    ensures
        trim(unindented(line, n)) == trim(line),
{
    if !is_blank(line) {
        if let Some(k) = index_at(line, n) {
            let b = lemma_trim_start(line);
            lemma_encode_split(line, b);
            lemma_index_at(line, n);
            lemma_index_within(line, b, n);
            let t = line.skip(k as int);
            assert forall|i: int| 0 <= i < b - k implies is_space(t[i]) by {
                assert(t[i] == line[i + k]);
            }
            if b < line.len() {
                assert(t[b - k] == line[b]);
            }
            lemma_trim_start_at(t, b - k);
            assert(t.skip(b - k) =~= line.skip(b));
        }
    }
}

proof fn lemma_trim_of_trim_end(s: Seq<char>)
    ensures
        trim(trim_end(s)) == trim(s),
{
    let b = lemma_trim_start(s);
    let e = lemma_trim_end(s);
    let t = s.take(e);
    lemma_blank(s);
    if is_blank(s) {
        assert(trim_end(s) =~= Seq::<char>::empty());
        assert(trim(s) =~= Seq::<char>::empty());
    } else {
        assert(b < e) by {
            if b >= e {
                assert(is_space(s[e - 1]));
            }
        }
        assert forall|i: int| 0 <= i < b implies is_space(t[i]) by {
            assert(t[i] == s[i]);
        }
        lemma_trim_start_at(t, b);
        let x = s.skip(b);
        let y = t.skip(b);
        assert forall|i: int| e - b <= i < x.len() implies is_space(x[i]) by {
            assert(x[i] == s[i + b]);
        }
        assert(x[e - b - 1] == s[e - 1]);
        lemma_trim_end_at(x, e - b);
        assert(y[y.len() - 1] == s[e - 1]);
        lemma_trim_end_at(y, e - b);
        assert(x.take(e - b) =~= y.take(e - b));
    }
}

/// A block of three lines or more that matches under another indentation also matches by its first
/// and last line.
pub proof fn lemma_indent_is_anchor(block: Seq<Seq<char>>, search: Seq<Seq<char>>)
    requires
        block.len() == search.len(),
        search.len() >= 3,
        block_matches(Level::Indent, block, search),
    ensures
        block_matches(Level::Anchor, block, search),
{
    let n = search.len() as int;
    assert forall|j: int| 0 <= j < n implies trim(#[trigger] block[j]) == trim(search[j]) by {
        let a = unindented(block[j], min_indent(block));
        let b = unindented(search[j], min_indent(search));
        assert(trim_end(a) == trim_end(b));
        if !is_blank(block[j]) {
            lemma_min_indent(block, j);
        }
        if !is_blank(search[j]) {
            lemma_min_indent(search, j);
        }
        lemma_unindented_trim(block[j], min_indent(block));
        lemma_unindented_trim(search[j], min_indent(search));
        lemma_trim_of_trim_end(a);
        lemma_trim_of_trim_end(b);
    }
    lemma_all_votes(block, search, n - 1);
}

proof fn lemma_all_votes(block: Seq<Seq<char>>, search: Seq<Seq<char>>, k: int)
    requires
        0 <= k <= search.len(),
        block.len() == search.len(),
        forall|j: int| 0 <= j < search.len() ==> trim(#[trigger] block[j]) == trim(search[j]),
    ensures
        votes(block, search, k).0 == votes(block, search, k).1,
    decreases k,
{
    if k > 1 {
        lemma_all_votes(block, search, k - 1);
        assert(trim(block[k - 1]) == trim(search[k - 1]));
    }
}

/// Lines that are the same match without regard to white space at their ends.
pub proof fn lemma_exact_is_trailing(block: Seq<Seq<char>>)
    ensures
        block_matches(Level::Trailing, block, block),
{
}

} // verus!
