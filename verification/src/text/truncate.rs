//! Size limits for tool output: lines, bytes and display columns, for a whole text and for a
//! stream that arrives in chunks.

use vstd::prelude::*;
use vstd::utf8::*;

use crate::strings::{
    byte_len, dec, find_byte, lacks, lemma_absent_byte, lemma_boundary_is_offset, lemma_encode_concat,
    lemma_encode_split, lemma_first_byte, lemma_offset_is_boundary, lemma_offset_monotone,
    lemma_split_first, lemma_split_none, push_dec, runs, split_last, split_newline, split_on,
    split_str, str_len, trim_end_of, trim_start_of, trimmed_end, trimmed_start, chars_of,
    push_chars,
};
use crate::text::width::{
    columns, fitting, lemma_fitting, lemma_truncated_fits, truncate_to_width, truncated_to_width, Scan,
};

verus! {

broadcast use vstd::seq::group_seq_axioms;

/// The limits on a text. Each of them holds on its own.
#[derive(Debug, Clone, Copy, PartialEq, Eq, Structural)]
pub struct TruncateLimits {
    /// How many lines are kept at most.
    pub max_lines: usize,
    /// How many bytes are kept at most.
    pub max_bytes: usize,
    /// How many display columns of a line are kept at most.
    pub max_columns: usize,
}

impl Default for TruncateLimits {
    /// 3000 lines, 50 000 bytes, 512 columns.
    fn default() -> (r: Self)
        ensures
            r.max_lines == 3000,
            r.max_bytes == 50_000,
            r.max_columns == 512,
    {
        TruncateLimits { max_lines: 3000, max_bytes: 50_000, max_columns: 512 }
    }
}

/// What a limit left of a text, and how much it took away.
#[derive(Debug, Clone, PartialEq, Eq)]
pub struct Truncated {
    /// The text that is left.
    pub text: String,
    /// The lines that are gone as a whole.
    pub dropped_lines: usize,
    /// The bytes that are gone.
    pub dropped_bytes: usize,
    /// Set by [`truncate_head`] alone: the first line is over the limits by itself, so `text` is
    /// empty.
    pub first_line_exceeds_limit: bool,
}

/// What [`Truncated`] stands for.
#[verifier::ext_equal]
pub struct TruncatedView {
    pub text: Seq<char>,
    pub dropped_lines: nat,
    pub dropped_bytes: nat,
    pub first_line_exceeds_limit: bool,
}

impl View for Truncated {
    type V = TruncatedView;

    open spec fn view(&self) -> TruncatedView {
        TruncatedView {
            text: self.text@,
            dropped_lines: self.dropped_lines as nat,
            dropped_bytes: self.dropped_bytes as nat,
            first_line_exceeds_limit: self.first_line_exceeds_limit,
        }
    }
}

/// How many characters the first line of `s` has, its `\n` counted.
pub open spec fn first_line_len(s: Seq<char>) -> nat
    decreases s.len(),
{
    if s.len() == 0 {
        0
    } else if s[0] == '\n' {
        1
    } else {
        1 + first_line_len(s.drop_first())
    }
}

/// The first line of `s`, with its `\n` where it has one.
pub open spec fn first_line(s: Seq<char>) -> Seq<char> {
    s.take(first_line_len(s) as int)
}

/// What follows the first line of `s`.
pub open spec fn after_line(s: Seq<char>) -> Seq<char> {
    s.skip(first_line_len(s) as int)
}

pub proof fn lemma_first_line(s: Seq<char>)
    ensures
        first_line_len(s) <= s.len(),
        s.len() > 0 ==> first_line_len(s) > 0,
        s.len() > 0 ==> after_line(s).len() < s.len(),
        forall|i: int| 0 <= i < first_line_len(s) - 1 ==> s[i] != '\n',
        first_line_len(s) < s.len() ==> s[first_line_len(s) - 1] == '\n',
        first_line(s) + after_line(s) == s,
        byte_len(s) == byte_len(first_line(s)) + byte_len(after_line(s)),
    decreases s.len(),
{
    if s.len() > 0 && s[0] != '\n' {
        let t = s.drop_first();
        lemma_first_line(t);
        assert forall|i: int| 0 <= i < first_line_len(s) - 1 implies s[i] != '\n' by {
            if i > 0 {
                assert(s[i] == t[i - 1]);
            }
        }
    }
    assert(first_line(s) + after_line(s) =~= s);
    lemma_encode_split(s, first_line_len(s) as int);
}

/// The lines of `s`, each with its `\n`; the last one may have none.
pub open spec fn lines(s: Seq<char>) -> Seq<Seq<char>>
    decreases s.len(),
{
    if s.len() == 0 {
        Seq::empty()
    } else {
        proof {
            lemma_first_line(s);
        }
        seq![first_line(s)] + lines(after_line(s))
    }
}

/// How many lines `s` has.
pub open spec fn line_count(s: Seq<char>) -> nat {
    lines(s).len()
}

pub proof fn lemma_lines(s: Seq<char>)
    ensures
        s.len() == 0 ==> lines(s) == Seq::<Seq<char>>::empty(),
        s.len() > 0 ==> lines(s) == seq![first_line(s)] + lines(after_line(s)),
        s.len() > 0 ==> line_count(s) == 1 + line_count(after_line(s)),
{
    lemma_first_line(s);
}

/// A text that ends with a line break, or an empty one, can be split into lines on its own.
pub proof fn lemma_lines_concat(a: Seq<char>, b: Seq<char>)
    requires
        a.len() == 0 || a.last() == '\n',
    ensures
        lines(a + b) == lines(a) + lines(b),
    decreases a.len(),
{
    lemma_lines(a);
    if a.len() == 0 {
        assert(a + b =~= b);
        assert(lines(a) + lines(b) =~= lines(b));
    } else {
        lemma_first_line(a);
        lemma_first_line_of_concat(a, b);
        let rest = after_line(a);
        assert(after_line(a + b) =~= rest + b);
        assert(first_line(a + b) =~= first_line(a));
        if rest.len() > 0 {
            assert(rest.last() == a.last());
        }
        lemma_lines_concat(rest, b);
        lemma_lines(a + b);
        assert(lines(a + b) =~= lines(a) + lines(b));
    }
}

proof fn lemma_first_line_of_concat(a: Seq<char>, b: Seq<char>)
    requires
        a.len() > 0,
        a.last() == '\n',
    ensures
        first_line_len(a + b) == first_line_len(a),
    decreases a.len(),
{
    if a[0] != '\n' {
        assert((a + b).drop_first() =~= a.drop_first() + b);
        lemma_first_line_of_concat(a.drop_first(), b);
    }
}

/// A line has no line break but at its end, so it is its own only line.
pub proof fn lemma_single_line(s: Seq<char>)
    requires
        s.len() > 0,
        forall|i: int| 0 <= i < s.len() - 1 ==> s[i] != '\n',
    ensures
        first_line_len(s) == s.len(),
        lines(s) == seq![s],
        line_count(s) == 1,
    decreases s.len(),
{
    if s.len() > 1 {
        lemma_single_line(s.drop_first());
    } else if s[0] != '\n' {
        assert(first_line_len(s.drop_first()) == 0);
    }
    lemma_lines(s);
    lemma_lines(after_line(s));
    assert(s.take(s.len() as int) =~= s);
    assert(lines(s) =~= seq![s]);
}

/// Splits a text behind its first line.
pub(crate) fn next_line<'a>(rest: &'a str) -> (r: (&'a str, &'a str))
    requires
        rest@.len() > 0,
    ensures
        r.0@ == first_line(rest@),
        r.1@ == after_line(rest@),
{
    let ghost n = first_line_len(rest@) as int;
    proof {
        lemma_first_line(rest@);
    }
    let bytes = rest.as_bytes();
    let total: usize = bytes.len();
    match find_byte(10, bytes) {
        Some(i) => {
            proof {
                assert(i < total);
                if rest@[n - 1] != '\n' {
                    lemma_absent_byte(rest@, '\n');
                    assert(false);
                }
                lemma_first_byte(rest@, '\n', n - 1);
                let m = byte_len(rest@.take(n - 1)) as int;
                assert(i == m);
            }
            split_str(rest, i + 1, Ghost(n))
        },
        None => {
            proof {
                if rest@[n - 1] == '\n' {
                    lemma_first_byte(rest@, '\n', n - 1);
                    assert(false);
                }
                assert(rest@.take(n) =~= rest@);
                assert(rest@.skip(n) =~= Seq::<char>::empty());
                reveal_strlit("");
                assert(""@ =~= Seq::<char>::empty());
            }
            (rest, "")
        },
    }
}

/// A line without its line break: `\n`, with a `\r` before it or not.
pub open spec fn line_body(line: Seq<char>) -> Seq<char> {
    if line.len() > 0 && line.last() == '\n' {
        let l = line.drop_last();
        if l.len() > 0 && l.last() == '\r' {
            l.drop_last()
        } else {
            l
        }
    } else {
        line
    }
}

/// A line without its line break.
pub fn body_of<'a>(line: &'a str) -> (r: &'a str)
    ensures
        r@ == line_body(line@),
{
    let (content, terminated) = split_newline(line);
    if terminated {
        split_last(content, '\r').0
    } else {
        content
    }
}

/// The lines of `s` without their line breaks.
pub open spec fn line_bodies(s: Seq<char>) -> Seq<Seq<char>> {
    Seq::new(lines(s).len(), |i: int| line_body(lines(s)[i]))
}

/// The lines of `input` without their line breaks.
pub fn text_lines(input: &str) -> (r: Vec<Vec<char>>)
    ensures
        runs(r@) == line_bodies(input@),
{
    let mut r: Vec<Vec<char>> = Vec::new();
    let mut rest = input;
    let ghost l = lines(input@);
    assert(l.skip(0) =~= l);
    while !rest.is_empty()
        invariant
            l == lines(input@),
            r@.len() <= l.len(),
            l.skip(r@.len() as int) == lines(rest@),
            runs(r@) == line_bodies(input@).take(r@.len() as int),
        decreases rest@.len(),
    {
        let ghost n = r@.len() as int;
        proof {
            lemma_lines(rest@);
            lemma_first_line(rest@);
            assert(l.skip(n)[0] == l[n]);
            assert(l.skip(n + 1) =~= l.skip(n).drop_first());
            assert(lines(rest@).drop_first() =~= lines(after_line(rest@)));
        }
        let (line, tail) = next_line(rest);
        let ghost before = runs(r@);
        let body = chars_of(body_of(line));
        let ghost b = body@;
        r.push(body);
        proof {
            assert(runs(r@) =~= before.push(b));
            assert(line_bodies(input@)[n] == b);
            assert(runs(r@) =~= line_bodies(input@).take(n + 1));
        }
        rest = tail;
    }
    proof {
        lemma_lines(rest@);
        assert(line_bodies(input@).take(l.len() as int) =~= line_bodies(input@));
    }
    r
}

/// How many lines `input` has; a line break at the end starts no further line.
pub fn count_lines(input: &str) -> (n: usize)
    ensures
        n == line_count(input@),
{
    let mut rest = input;
    let mut n: usize = 0;
    proof {
        lemma_lines_at_most_bytes(input@);
    }
    let total = str_len(input);
    while !rest.is_empty()
        invariant
            n + line_count(rest@) == line_count(input@),
            line_count(input@) <= total,
        decreases rest@.len(),
    {
        proof {
            lemma_lines(rest@);
            lemma_first_line(rest@);
        }
        let (_line, tail) = next_line(rest);
        n += 1;
        rest = tail;
    }
    proof {
        lemma_lines(rest@);
    }
    n
}

/// A line has at least one byte.
pub proof fn lemma_lines_at_most_bytes(s: Seq<char>)
    ensures
        line_count(s) <= byte_len(s),
    decreases s.len(),
{
    lemma_lines(s);
    lemma_first_line(s);
    if s.len() > 0 {
        lemma_lines_at_most_bytes(after_line(s));
        lemma_offset_monotone(s, 0, first_line_len(s) as int);
        assert(s.take(0) =~= Seq::<char>::empty());
    }
}

/// The longest prefix of `s` of at most `budget` bytes.
pub open spec fn prefix_within(s: Seq<char>, budget: nat) -> Seq<char>
    decreases s.len(),
{
    if byte_len(s) <= budget || s.len() == 0 {
        s
    } else {
        prefix_within(s.drop_last(), budget)
    }
}

/// The longest suffix of `s` of at most `budget` bytes.
pub open spec fn suffix_within(s: Seq<char>, budget: nat) -> Seq<char>
    decreases s.len(),
{
    if byte_len(s) <= budget || s.len() == 0 {
        s
    } else {
        suffix_within(s.drop_first(), budget)
    }
}

proof fn lemma_prefix_within(s: Seq<char>, budget: nat, k: int)
    requires
        0 <= k <= s.len(),
        byte_len(s.take(k)) <= budget,
        k < s.len() ==> byte_len(s.take(k + 1)) > budget,
    ensures
        prefix_within(s, budget) == s.take(k),
    decreases s.len(),
{
    assert(s.take(s.len() as int) =~= s);
    if k < s.len() {
        lemma_offset_monotone(s, k + 1, s.len() as int);
        let t = s.drop_last();
        assert(t.take(k) =~= s.take(k));
        if k + 1 <= t.len() {
            assert(t.take(k + 1) =~= s.take(k + 1));
        }
        lemma_prefix_within(t, budget, k);
    }
}

proof fn lemma_suffix_within(s: Seq<char>, budget: nat, k: int)
    requires
        0 <= k <= s.len(),
        byte_len(s.skip(k)) <= budget,
        k > 0 ==> byte_len(s.skip(k - 1)) > budget,
    ensures
        suffix_within(s, budget) == s.skip(k),
    decreases s.len(),
{
    assert(s.skip(0) =~= s);
    if k > 0 {
        lemma_encode_split(s, k - 1);
        lemma_offset_monotone(s, 0, k - 1);
        let t = s.drop_first();
        assert(t.skip(k - 1) =~= s.skip(k));
        if k - 1 > 0 {
            assert(t.skip(k - 2) =~= s.skip(k - 1));
        }
        lemma_suffix_within(t, budget, k - 1);
    }
}

/// The limits hold: what is kept is a prefix, or a suffix, within the budget, and one character
/// more would be too much.
pub proof fn lemma_within(s: Seq<char>, budget: nat)
    ensures
        byte_len(prefix_within(s, budget)) <= budget,
        prefix_within(s, budget).len() <= s.len(),
        prefix_within(s, budget) == s.take(prefix_within(s, budget).len() as int),
        byte_len(suffix_within(s, budget)) <= budget,
        suffix_within(s, budget).len() <= s.len(),
        suffix_within(s, budget) == s.skip(s.len() - suffix_within(s, budget).len()),
        prefix_within(s, budget).len() < s.len() ==> byte_len(
            s.take(prefix_within(s, budget).len() as int + 1),
        ) > budget,
        suffix_within(s, budget).len() < s.len() ==> byte_len(
            s.skip(s.len() - suffix_within(s, budget).len() - 1),
        ) > budget,
    decreases s.len(),
{
    assert(s.take(s.len() as int) =~= s);
    assert(s.skip(0) =~= s);
    if s.len() > 0 {
        lemma_within(s.drop_last(), budget);
        lemma_within(s.drop_first(), budget);
        let p = prefix_within(s.drop_last(), budget);
        assert(s.drop_last().take(p.len() as int) =~= s.take(p.len() as int));
        let q = suffix_within(s.drop_first(), budget);
        assert(s.drop_first().skip(s.drop_first().len() - q.len()) =~= s.skip(s.len() - q.len()));
        if p.len() < s.len() - 1 {
            assert(s.drop_last().take(p.len() as int + 1) =~= s.take(p.len() as int + 1));
        }
        if q.len() < s.len() - 1 {
            assert(s.drop_first().skip(s.len() - 1 - q.len() - 1) =~= s.skip(
                s.len() - q.len() - 1,
            ));
        }
    }
}

/// The longest prefix of `s` of at most `budget` bytes that ends at a character boundary.
pub fn take_prefix_within<'a>(s: &'a str, budget: usize) -> (r: &'a str)
    ensures
        r@ == prefix_within(s@, budget as nat),
{
    let n = str_len(s);
    if n <= budget {
        return s;
    }
    let mut end: usize = budget;
    proof {
        encode_utf8_valid_utf8(s@);
        is_char_boundary_start_end_of_seq(encode_utf8(s@));
    }
    while end > 0 && !s.is_char_boundary(end)
        invariant
            n == byte_len(s@),
            end <= budget < n,
            forall|j: int|
                end < j <= budget ==> !#[trigger] is_char_boundary(encode_utf8(s@), j),
        decreases end,
    {
        end -= 1;
    }
    proof {
        is_char_boundary_start_end_of_seq(encode_utf8(s@));
    }
    let ghost k = 0int;
    proof {
        let at = lemma_boundary_is_offset(s@, end as int);
        k = at;
        if k < s@.len() {
            lemma_offset_is_boundary(s@, k + 1);
            lemma_offset_monotone(s@, k, k + 1);
        }
        lemma_prefix_within(s@, budget as nat, k);
    }
    let (head, _rest) = split_str(s, end, Ghost(k));
    head
}

/// The longest suffix of `s` of at most `budget` bytes that starts at a character boundary.
pub fn take_suffix_within<'a>(s: &'a str, budget: usize) -> (r: &'a str)
    ensures
        r@ == suffix_within(s@, budget as nat),
{
    let n = str_len(s);
    if n <= budget {
        return s;
    }
    let mut start: usize = n - budget;
    proof {
        encode_utf8_valid_utf8(s@);
        is_char_boundary_start_end_of_seq(encode_utf8(s@));
    }
    while start < n && !s.is_char_boundary(start)
        invariant
            n == byte_len(s@),
            budget < n,
            n - budget <= start <= n,
            forall|j: int|
                n - budget <= j < start ==> !#[trigger] is_char_boundary(encode_utf8(s@), j),
        decreases n - start,
    {
        start += 1;
    }
    let ghost k = 0int;
    proof {
        encode_utf8_valid_utf8(s@);
        is_char_boundary_start_end_of_seq(encode_utf8(s@));
        let at = lemma_boundary_is_offset(s@, start as int);
        k = at;
        lemma_encode_split(s@, k);
        if k > 0 {
            lemma_offset_is_boundary(s@, k - 1);
            lemma_offset_monotone(s@, k - 1, k);
            lemma_encode_split(s@, k - 1);
        }
        lemma_suffix_within(s@, budget as nat, k);
    }
    let (_head, tail) = split_str(s, start, Ghost(k));
    tail
}

/// The leading whole lines of `s` that stay within `max_lines` lines and `max_bytes` bytes.
pub open spec fn head_kept(s: Seq<char>, max_lines: nat, max_bytes: nat) -> Seq<char>
    decreases max_lines,
{
    if s.len() == 0 || max_lines == 0 || byte_len(first_line(s)) > max_bytes {
        Seq::empty()
    } else {
        first_line(s) + head_kept(
            after_line(s),
            (max_lines - 1) as nat,
            (max_bytes - byte_len(first_line(s))) as nat,
        )
    }
}

/// What [`truncate_head`] makes of `s`.
pub open spec fn head_of(s: Seq<char>, max_lines: nat, max_bytes: nat) -> TruncatedView {
    let kept = head_kept(s, max_lines, max_bytes);
    TruncatedView {
        text: kept,
        dropped_lines: (line_count(s) - line_count(kept)) as nat,
        dropped_bytes: (byte_len(s) - byte_len(kept)) as nat,
        first_line_exceeds_limit: s.len() > 0 && kept.len() == 0,
    }
}

/// What the head limit keeps is a run of whole leading lines within both limits.
pub proof fn lemma_head_kept(s: Seq<char>, max_lines: nat, max_bytes: nat)
    ensures
        head_kept(s, max_lines, max_bytes).len() <= s.len(),
        head_kept(s, max_lines, max_bytes) == s.take(
            head_kept(s, max_lines, max_bytes).len() as int,
        ),
        byte_len(head_kept(s, max_lines, max_bytes)) <= max_bytes,
        byte_len(head_kept(s, max_lines, max_bytes)) <= byte_len(s),
        line_count(head_kept(s, max_lines, max_bytes)) <= max_lines,
        lines(head_kept(s, max_lines, max_bytes)) == lines(s).take(
            line_count(head_kept(s, max_lines, max_bytes)) as int,
        ),
        line_count(head_kept(s, max_lines, max_bytes)) <= line_count(s),
    decreases max_lines,
{
    let kept = head_kept(s, max_lines, max_bytes);
    lemma_lines(Seq::<char>::empty());
    if s.len() == 0 || max_lines == 0 || byte_len(first_line(s)) > max_bytes {
        assert(s.take(0) =~= Seq::<char>::empty());
        assert(lines(s).take(0) =~= Seq::<Seq<char>>::empty());
    } else {
        let line = first_line(s);
        let rest = after_line(s);
        let left = (max_bytes - byte_len(line)) as nat;
        let tail = head_kept(rest, (max_lines - 1) as nat, left);
        lemma_head_kept(rest, (max_lines - 1) as nat, left);
        lemma_first_line(s);
        lemma_lines(s);
        lemma_encode_concat(line, tail);
        assert(kept =~= s.take(kept.len() as int));
        lemma_single_line(line);
        if tail.len() == 0 {
            assert(kept =~= line);
            assert(lines(kept) =~= lines(s).take(1));
        } else {
            lemma_lines_concat(line, tail);
            assert(lines(kept) =~= seq![line] + lines(tail));
            assert(lines(kept) =~= lines(s).take(line_count(kept) as int));
        }
    }
}

/// The head limit keeps as many lines as it may: where it keeps fewer than all, the next line is
/// over one of the limits.
pub proof fn lemma_head_kept_is_longest(s: Seq<char>, max_lines: nat, max_bytes: nat)
    ensures
        ({
            let kept = head_kept(s, max_lines, max_bytes);
            let rest = s.skip(kept.len() as int);
            rest.len() > 0 ==> line_count(kept) == max_lines || byte_len(kept + first_line(rest))
                > max_bytes
        }),
    decreases max_lines,
{
    let kept = head_kept(s, max_lines, max_bytes);
    lemma_lines(Seq::<char>::empty());
    if s.len() == 0 || max_lines == 0 || byte_len(first_line(s)) > max_bytes {
        assert(s.skip(0) =~= s);
        assert(kept + first_line(s) =~= first_line(s));
    } else {
        let line = first_line(s);
        let rest = after_line(s);
        let left = (max_bytes - byte_len(line)) as nat;
        let tail = head_kept(rest, (max_lines - 1) as nat, left);
        lemma_head_kept_is_longest(rest, (max_lines - 1) as nat, left);
        lemma_head_kept(rest, (max_lines - 1) as nat, left);
        lemma_first_line(s);
        lemma_single_line(line);
        assert(s.skip(kept.len() as int) =~= rest.skip(tail.len() as int));
        let after = rest.skip(tail.len() as int);
        if after.len() > 0 {
            assert(rest.len() > 0);
            lemma_lines_concat(line, tail);
            assert(kept + first_line(after) =~= line + (tail + first_line(after)));
            lemma_encode_concat(line, tail + first_line(after));
        }
    }
}

/// Keeps the head. Only whole lines are kept: where the first line is over the limits by itself,
/// nothing is left and `first_line_exceeds_limit` is set.
#[must_use]
pub fn truncate_head(input: &str, limits: &TruncateLimits) -> (r: Truncated)
    ensures
        r@ == head_of(input@, limits.max_lines as nat, limits.max_bytes as nat),
{
    let total_bytes = str_len(input);
    let mut rest = input;
    let mut kept_lines: usize = 0;
    let mut kept_bytes: usize = 0;
    let ghost k = 0int;
    let ghost ml = limits.max_lines as nat;
    let ghost mb = limits.max_bytes as nat;
    proof {
        assert(input@.skip(0) =~= input@);
        assert(input@.take(0) =~= Seq::<char>::empty());
        assert(input@.take(0) + head_kept(input@, ml, mb) =~= head_kept(input@, ml, mb));
        lemma_lines(input@.take(0));
        lemma_lines_at_most_bytes(input@);
    }
    while !rest.is_empty()
        invariant
            0 <= k <= input@.len(),
            rest@ == input@.skip(k),
            total_bytes == byte_len(input@),
            kept_bytes == byte_len(input@.take(k)),
            kept_bytes + byte_len(rest@) == total_bytes,
            kept_lines == line_count(input@.take(k)),
            line_count(input@) == kept_lines + line_count(rest@),
            line_count(input@) <= total_bytes,
            kept_lines <= limits.max_lines,
            kept_bytes <= limits.max_bytes,
            k == 0 || k == input@.len() || input@[k - 1] == '\n',
            ml == limits.max_lines,
            mb == limits.max_bytes,
            head_kept(input@, ml, mb) == input@.take(k) + head_kept(
                rest@,
                (ml - kept_lines) as nat,
                (mb - kept_bytes) as nat,
            ),
        decreases rest@.len(),
    {
        let (line, tail) = next_line(rest);
        let line_bytes = str_len(line);
        proof {
            lemma_first_line(rest@);
            lemma_lines(rest@);
        }
        if kept_lines >= limits.max_lines || line_bytes > limits.max_bytes - kept_bytes {
            let (head, _rest) = split_str(input, kept_bytes, Ghost(k));
            assert(input@.take(k) + Seq::<char>::empty() =~= input@.take(k));
            let total_lines = count_lines(input);
            return Truncated {
                text: head.to_owned(),
                dropped_lines: total_lines - kept_lines,
                dropped_bytes: total_bytes - kept_bytes,
                first_line_exceeds_limit: kept_lines == 0,
            };
        }
        proof {
            let n = first_line_len(rest@) as int;
            let a = input@.take(k);
            assert(a + first_line(rest@) =~= input@.take(k + n));
            lemma_encode_concat(a, first_line(rest@));
            lemma_single_line(first_line(rest@));
            lemma_lines_concat(a, first_line(rest@));
            let t = head_kept(
                tail@,
                (ml - kept_lines - 1) as nat,
                (mb - kept_bytes - line_bytes) as nat,
            );
            assert(a + (first_line(rest@) + t) =~= input@.take(k + n) + t);
            assert(tail@ =~= input@.skip(k + n));
            k = k + n;
        }
        kept_bytes += line_bytes;
        kept_lines += 1;
        rest = tail;
    }
    proof {
        assert(k == input@.len());
        assert(input@.take(k) =~= input@);
        assert(input@ + Seq::<char>::empty() =~= input@);
    }
    Truncated {
        text: input.to_owned(),
        dropped_lines: 0,
        dropped_bytes: 0,
        first_line_exceeds_limit: false,
    }
}

/// `s` without its first `n` lines.
pub open spec fn drop_lines(s: Seq<char>, n: nat) -> Seq<char>
    decreases n,
{
    if n == 0 || s.len() == 0 {
        s
    } else {
        drop_lines(after_line(s), (n - 1) as nat)
    }
}

/// How many leading lines of `s` lie as a whole within its first `bytes` bytes.
pub open spec fn whole_lines_within(s: Seq<char>, bytes: nat) -> nat
    decreases s.len(),
{
    if s.len() == 0 || byte_len(first_line(s)) > bytes {
        0
    } else {
        proof {
            lemma_first_line(s);
        }
        1 + whole_lines_within(after_line(s), (bytes - byte_len(first_line(s))) as nat)
    }
}

/// How many lines are over a limit of `max_lines`.
pub open spec fn surplus(n: nat, max: nat) -> nat {
    if n > max {
        (n - max) as nat
    } else {
        0
    }
}

/// What [`truncate_tail`] makes of `s`.
pub open spec fn tail_of(s: Seq<char>, max_lines: nat, max_bytes: nat) -> TruncatedView {
    let gone = surplus(line_count(s), max_lines);
    let candidate = drop_lines(s, gone);
    let kept = suffix_within(candidate, max_bytes);
    TruncatedView {
        text: kept,
        dropped_lines: gone + whole_lines_within(
            candidate,
            (byte_len(candidate) - byte_len(kept)) as nat,
        ),
        dropped_bytes: (byte_len(s) - byte_len(kept)) as nat,
        first_line_exceeds_limit: false,
    }
}

proof fn lemma_whole_lines_within(s: Seq<char>, bytes: nat)
    ensures
        whole_lines_within(s, bytes) <= line_count(s),
        bytes == 0 ==> whole_lines_within(s, bytes) == 0,
    decreases s.len(),
{
    lemma_lines(s);
    lemma_first_line(s);
    if s.len() > 0 {
        lemma_offset_monotone(s, 0, first_line_len(s) as int);
        assert(s.take(0) =~= Seq::<char>::empty());
        if byte_len(first_line(s)) <= bytes {
            lemma_whole_lines_within(after_line(s), (bytes - byte_len(first_line(s))) as nat);
        }
    }
}

pub proof fn lemma_drop_lines(s: Seq<char>, n: nat)
    requires
        n <= line_count(s),
    ensures
        drop_lines(s, n).len() <= s.len(),
        drop_lines(s, n) == s.skip(s.len() - drop_lines(s, n).len()),
        line_count(drop_lines(s, n)) == line_count(s) - n,
        lines(drop_lines(s, n)) == lines(s).skip(n as int),
    decreases n,
{
    lemma_lines(s);
    lemma_first_line(s);
    if n == 0 || s.len() == 0 {
        assert(s.skip(0) =~= s);
        assert(lines(s).skip(0) =~= lines(s));
    } else {
        let t = after_line(s);
        lemma_drop_lines(t, (n - 1) as nat);
        let r = drop_lines(t, (n - 1) as nat);
        assert(t.skip(t.len() - r.len()) =~= s.skip(s.len() - r.len()));
        assert(lines(t).skip(n - 1) =~= lines(s).skip(n as int));
    }
}

/// What the tail limit keeps is a suffix within both limits.
pub proof fn lemma_tail_of(s: Seq<char>, max_lines: nat, max_bytes: nat)
    ensures
        ({
            let kept = tail_of(s, max_lines, max_bytes).text;
            &&& kept.len() <= s.len()
            &&& kept == s.skip(s.len() - kept.len())
            &&& byte_len(kept) <= max_bytes
            &&& byte_len(kept) <= byte_len(s)
            &&& line_count(kept) <= max_lines
            &&& line_count(kept) <= line_count(s)
        }),
{
    let gone = surplus(line_count(s), max_lines);
    let candidate = drop_lines(s, gone);
    let kept = suffix_within(candidate, max_bytes);
    lemma_drop_lines(s, gone);
    lemma_within(candidate, max_bytes);
    assert(candidate.skip(candidate.len() - kept.len()) =~= s.skip(s.len() - kept.len()));
    lemma_encode_split(s, s.len() - kept.len());
    lemma_suffix_lines(candidate, candidate.len() - kept.len());
}

/// A suffix has no more lines than the text that it ends.
proof fn lemma_suffix_lines(s: Seq<char>, k: int)
    requires
        0 <= k <= s.len(),
    ensures
        line_count(s.skip(k)) <= line_count(s),
    decreases s.len(),
{
    lemma_lines(s);
    lemma_first_line(s);
    if k == 0 {
        assert(s.skip(0) =~= s);
    } else if k >= first_line_len(s) {
        let n = first_line_len(s) as int;
        lemma_suffix_lines(after_line(s), k - n);
        assert(after_line(s).skip(k - n) =~= s.skip(k));
    } else {
        let n = first_line_len(s) as int;
        let a = s.skip(k).take(n - k);
        assert(a + after_line(s) =~= s.skip(k));
        lemma_single_line(a);
        if n < s.len() {
            lemma_lines_concat(a, after_line(s));
        } else {
            assert(after_line(s).len() == 0);
            assert(s.skip(k) =~= a);
        }
    }
}

/// Keeps the tail. Where the bytes are the tighter limit, the first line that is left may be the
/// end of a longer one.
pub fn truncate_tail(input: &str, limits: &TruncateLimits) -> (r: Truncated)
    ensures
        r@ == tail_of(input@, limits.max_lines as nat, limits.max_bytes as nat),
{
    let total_bytes = str_len(input);
    let total_lines = count_lines(input);
    let gone: usize = if total_lines > limits.max_lines {
        total_lines - limits.max_lines
    } else {
        0
    };
    let mut candidate = input;
    let mut left: usize = gone;
    while left > 0
        invariant
            left <= line_count(candidate@),
            drop_lines(input@, gone as nat) == drop_lines(candidate@, left as nat),
            byte_len(candidate@) <= total_bytes,
            line_count(candidate@) - left == line_count(input@) - gone,
        decreases left,
    {
        proof {
            lemma_lines(candidate@);
            lemma_first_line(candidate@);
        }
        let (_line, tail) = next_line(candidate);
        candidate = tail;
        left -= 1;
    }
    let kept = take_suffix_within(candidate, limits.max_bytes);
    proof {
        lemma_within(candidate@, limits.max_bytes as nat);
        lemma_encode_split(candidate@, candidate@.len() - kept@.len());
    }
    let offset: usize = str_len(candidate) - str_len(kept);
    let mut rest = candidate;
    let mut room: usize = offset;
    let mut cut: usize = 0;
    let mut more = true;
    proof {
        lemma_whole_lines_within(candidate@, offset as nat);
    }
    while more && !rest.is_empty()
        invariant
            whole_lines_within(candidate@, offset as nat) == cut + if more {
                whole_lines_within(rest@, room as nat)
            } else {
                0
            },
            whole_lines_within(candidate@, offset as nat) <= line_count(candidate@),
            line_count(candidate@) <= total_lines,
        decreases
            rest@.len() + if more {
                1nat
            } else {
                0nat
            },
    {
        proof {
            lemma_first_line(rest@);
            lemma_whole_lines_within(after_line(rest@), 0);
        }
        let (line, tail) = next_line(rest);
        let n = str_len(line);
        if n <= room {
            room -= n;
            cut += 1;
            rest = tail;
        } else {
            more = false;
        }
    }
    Truncated {
        text: kept.to_owned(),
        dropped_lines: gone + cut,
        dropped_bytes: total_bytes - str_len(kept),
        first_line_exceeds_limit: false,
    }
}

/// The note that stands for lines and bytes left out of the middle of a text.
pub open spec fn omission(dropped_lines: nat, dropped_bytes: nat) -> Seq<char> {
    "\n… 省略 "@ + dec(dropped_lines) + " 行 / "@ + dec(dropped_bytes) + " 字节 …\n"@
}

pub(crate) fn push_omission(out: &mut String, dropped_lines: usize, dropped_bytes: usize)
    ensures
        final(out)@ == old(out)@ + omission(dropped_lines as nat, dropped_bytes as nat),
{
    out.append("\n… 省略 ");
    push_dec(out, dropped_lines as u64);
    out.append(" 行 / ");
    push_dec(out, dropped_bytes as u64);
    out.append(" 字节 …\n");
    assert(out@ =~= old(out)@ + omission(dropped_lines as nat, dropped_bytes as nat));
}

/// What [`enforce_inline_byte_cap`] makes of `s`: 60 % of the bytes for the head, 25 % for the
/// tail and a note between them; where that is over `max_bytes`, the head alone.
pub open spec fn inline_capped(s: Seq<char>, max_bytes: nat) -> Seq<char> {
    if byte_len(s) <= max_bytes {
        s
    } else {
        let head = prefix_within(s, head_share(max_bytes));
        let tail = suffix_within(s, max_bytes / 4);
        let dropped = surplus(byte_len(s), byte_len(head) + byte_len(tail));
        let joined = head + "…(省略 "@ + dec(dropped) + " 字节)…"@ + tail;
        if byte_len(joined) <= max_bytes {
            joined
        } else {
            prefix_within(s, max_bytes)
        }
    }
}

/// 60 % of `max_bytes`, computed without leaving the range of `usize`.
pub open spec fn head_share(max_bytes: nat) -> nat {
    if max_bytes * 3 > usize::MAX {
        (usize::MAX / 5) as nat
    } else {
        max_bytes * 3 / 5
    }
}

/// The cap holds for every text and every limit.
pub proof fn lemma_inline_cap_holds(s: Seq<char>, max_bytes: nat)
    ensures
        byte_len(inline_capped(s, max_bytes)) <= max_bytes,
{
    lemma_within(s, max_bytes);
}

/// Narrows `input` to at most `max_bytes` bytes, with a note in the middle where there is room
/// for one.
#[must_use]
pub fn enforce_inline_byte_cap(input: &str, max_bytes: usize) -> (r: String)
    ensures
        r@ == inline_capped(input@, max_bytes as nat),
        byte_len(r@) <= max_bytes,
{
    proof {
        lemma_inline_cap_holds(input@, max_bytes as nat);
    }
    let total = str_len(input);
    if total <= max_bytes {
        return input.to_owned();
    }
    let triple: usize = if max_bytes > usize::MAX / 3 {
        usize::MAX
    } else {
        max_bytes * 3
    };
    let head = take_prefix_within(input, triple / 5);
    let tail = take_suffix_within(input, max_bytes / 4);
    proof {
        lemma_within(input@, head_share(max_bytes as nat));
        lemma_within(input@, (max_bytes / 4) as nat);
    }
    let shown: usize = str_len(head) + str_len(tail);
    let dropped: usize = if total > shown {
        total - shown
    } else {
        0
    };
    let mut joined = String::new();
    joined.append(head);
    joined.append("…(省略 ");
    push_dec(&mut joined, dropped as u64);
    joined.append(" 字节)…");
    joined.append(tail);
    assert(joined@ =~= head@ + "…(省略 "@ + dec(dropped as nat) + " 字节)…"@ + tail@);
    if str_len(joined.as_str()) > max_bytes {
        return take_prefix_within(input, max_bytes).to_owned();
    }
    joined
}

/// What [`truncate_middle`] makes of `s`.
pub open spec fn middle_of(s: Seq<char>, max_lines: nat, max_bytes: nat) -> TruncatedView {
    if line_count(s) <= 1 {
        let text = inline_capped(s, max_bytes);
        TruncatedView {
            text,
            dropped_lines: 0,
            dropped_bytes: surplus(byte_len(s), byte_len(text)),
            first_line_exceeds_limit: false,
        }
    } else if byte_len(s) <= max_bytes && line_count(s) <= max_lines {
        TruncatedView {
            text: s,
            dropped_lines: 0,
            dropped_bytes: 0,
            first_line_exceeds_limit: false,
        }
    } else {
        let head = head_of(s, max_lines / 2, max_bytes / 2).text;
        let tail = tail_of(
            s,
            (max_lines - max_lines / 2) as nat,
            (max_bytes - max_bytes / 2) as nat,
        ).text;
        if line_count(head) + line_count(tail) >= line_count(s) || byte_len(head) + byte_len(tail)
            >= byte_len(s) {
            head_of(s, max_lines, max_bytes)
        } else {
            let dropped_lines = (line_count(s) - line_count(head) - line_count(tail)) as nat;
            let dropped_bytes = (byte_len(s) - byte_len(head) - byte_len(tail)) as nat;
            TruncatedView {
                text: trim_end_of(head, '\n') + omission(dropped_lines, dropped_bytes)
                    + trim_start_of(tail, '\n'),
                dropped_lines,
                dropped_bytes,
                first_line_exceeds_limit: false,
            }
        }
    }
}

/// Keeps half of the limits at the head and the rest at the tail, with a note between them. A
/// text of one line is cut by [`enforce_inline_byte_cap`] instead.
#[must_use]
pub fn truncate_middle(input: &str, limits: &TruncateLimits) -> (r: Truncated)
    ensures
        r@ == middle_of(input@, limits.max_lines as nat, limits.max_bytes as nat),
{
    let total_bytes = str_len(input);
    let total_lines = count_lines(input);
    if total_lines <= 1 {
        let text = enforce_inline_byte_cap(input, limits.max_bytes);
        let n = str_len(text.as_str());
        let dropped_bytes: usize = if total_bytes > n {
            total_bytes - n
        } else {
            0
        };
        return Truncated {
            text,
            dropped_lines: 0,
            dropped_bytes,
            first_line_exceeds_limit: false,
        };
    }
    if total_bytes <= limits.max_bytes && total_lines <= limits.max_lines {
        return Truncated {
            text: input.to_owned(),
            dropped_lines: 0,
            dropped_bytes: 0,
            first_line_exceeds_limit: false,
        };
    }
    let head_limits = TruncateLimits {
        max_lines: limits.max_lines / 2,
        max_bytes: limits.max_bytes / 2,
        max_columns: limits.max_columns,
    };
    let tail_limits = TruncateLimits {
        max_lines: limits.max_lines - head_limits.max_lines,
        max_bytes: limits.max_bytes - head_limits.max_bytes,
        max_columns: limits.max_columns,
    };
    let head = truncate_head(input, &head_limits);
    let tail = truncate_tail(input, &tail_limits);
    let head_lines = count_lines(head.text.as_str());
    let tail_lines = count_lines(tail.text.as_str());
    let head_bytes = str_len(head.text.as_str());
    let tail_bytes = str_len(tail.text.as_str());
    proof {
        lemma_head_kept(input@, head_limits.max_lines as nat, head_limits.max_bytes as nat);
        lemma_tail_of(input@, tail_limits.max_lines as nat, tail_limits.max_bytes as nat);
    }
    if head_lines >= total_lines - tail_lines || head_bytes >= total_bytes - tail_bytes {
        return truncate_head(input, limits);
    }
    let dropped_lines: usize = total_lines - head_lines - tail_lines;
    let dropped_bytes: usize = total_bytes - head_bytes - tail_bytes;
    let h = chars_of(head.text.as_str());
    let t = chars_of(tail.text.as_str());
    let he = trimmed_end(h.as_slice(), '\n');
    let ts = trimmed_start(t.as_slice(), '\n');
    let mut text = String::new();
    push_chars(&mut text, vstd::slice::slice_subrange(h.as_slice(), 0, he));
    push_omission(&mut text, dropped_lines, dropped_bytes);
    push_chars(&mut text, vstd::slice::slice_subrange(t.as_slice(), ts, t.len()));
    proof {
        assert(h@.subrange(0, he as int) =~= h@.take(he as int));
        assert(t@.subrange(ts as int, t@.len() as int) =~= t@.skip(ts as int));
        assert(text@ =~= trim_end_of(h@, '\n') + omission(
            dropped_lines as nat,
            dropped_bytes as nat,
        ) + trim_start_of(t@, '\n'));
    }
    Truncated { text, dropped_lines, dropped_bytes, first_line_exceeds_limit: false }
}

/// One line cut to `max_columns` columns, its line break kept.
pub open spec fn capped_line(line: Seq<char>, max_columns: nat) -> Seq<char> {
    if line.len() > 0 && line.last() == '\n' {
        truncated_to_width(line.drop_last(), max_columns, "…"@).push('\n')
    } else {
        truncated_to_width(line, max_columns, "…"@)
    }
}

/// `s` with each line cut to `max_columns` columns.
pub open spec fn capped_lines(s: Seq<char>, max_columns: nat) -> Seq<char>
    decreases s.len(),
{
    if s.len() == 0 {
        s
    } else {
        proof {
            lemma_first_line(s);
        }
        capped_line(first_line(s), max_columns) + capped_lines(after_line(s), max_columns)
    }
}

/// Cuts each line to `max_columns` display columns; a line that is cut ends with `…`.
#[must_use]
pub fn cap_columns(input: &str, max_columns: usize) -> (r: String)
    ensures
        r@ == capped_lines(input@, max_columns as nat),
{
    let mut out = String::new();
    let mut rest = input;
    assert(out@ + capped_lines(input@, max_columns as nat) =~= capped_lines(
        input@,
        max_columns as nat,
    ));
    while !rest.is_empty()
        invariant
            capped_lines(input@, max_columns as nat) == out@ + capped_lines(
                rest@,
                max_columns as nat,
            ),
        decreases rest@.len(),
    {
        let (line, tail) = next_line(rest);
        proof {
            lemma_first_line(rest@);
        }
        let (content, terminated) = split_newline(line);
        let capped = truncate_to_width(content, max_columns, "…");
        let ghost before = out@;
        out.append(capped.as_str());
        if terminated {
            out.push('\n');
        }
        proof {
            assert(out@ =~= before + capped_line(line@, max_columns as nat));
            let t = capped_lines(tail@, max_columns as nat);
            assert(before + (capped_line(line@, max_columns as nat) + t) =~= out@ + t);
        }
        rest = tail;
    }
    assert(out@ + rest@ =~= out@);
    out
}

/// A line without its line break.
pub open spec fn line_content(line: Seq<char>) -> Seq<char> {
    if line.len() > 0 && line.last() == '\n' {
        line.drop_last()
    } else {
        line
    }
}

proof fn lemma_cut_has_no_line_break(s: Seq<char>, max: nat)
    requires
        !s.contains('\n'),
    ensures
        !truncated_to_width(s, max, "…"@).contains('\n'),
        columns(truncated_to_width(s, max, "…"@)) <= max,
{
    reveal_strlit("…");
    let dots = "…"@;
    assert(dots.len() == 1 && dots[0] == '…');
    let r = truncated_to_width(s, max, dots);
    assert(!dots.contains('\u{1b}'));
    lemma_truncated_fits(s, max, dots);
    if max > 0 && columns(s) > max {
        let budget = if columns(dots) <= max {
            (max - columns(dots)) as nat
        } else {
            0
        };
        let kept = fitting(s, budget);
        lemma_fitting(Scan::Text, s, budget);
        assert forall|i: int| 0 <= i < r.len() implies r[i] != '\n' by {
            if i < kept.len() {
                assert(r[i] == kept[i]);
                assert(kept[i] == s.take(kept.len() as int)[i]);
                assert(s.contains(s[i]));
            } else {
                assert(r[i] == dots[i - kept.len()]);
            }
        }
    }
}

/// No line takes more columns than the limit, once each line was cut to it.
pub proof fn lemma_columns_hold(s: Seq<char>, max: nat, k: int)
    requires
        0 <= k < line_count(capped_lines(s, max)),
    ensures
        columns(line_content(lines(capped_lines(s, max))[k])) <= max,
    decreases s.len(),
{
    lemma_first_line(s);
    if s.len() > 0 {
        let first = first_line(s);
        let rest = capped_lines(after_line(s), max);
        let content = line_content(first);
        let cut = truncated_to_width(content, max, "…"@);
        let capped = capped_line(first, max);
        assert(!content.contains('\n')) by {
            assert forall|i: int| 0 <= i < content.len() implies content[i] != '\n' by {
                assert(content[i] == s[i]);
            }
        }
        lemma_cut_has_no_line_break(content, max);
        if first.last() == '\n' {
            assert(capped == cut.push('\n'));
            assert forall|i: int| 0 <= i < capped.len() - 1 implies capped[i] != '\n' by {
                assert(capped[i] == cut[i]);
                assert(cut.contains(cut[i]));
            }
            lemma_single_line(capped);
            lemma_lines_concat(capped, rest);
            assert(capped.drop_last() =~= cut);
            if k > 0 {
                lemma_columns_hold(after_line(s), max, k - 1);
            }
        } else {
            assert(after_line(s).len() == 0);
            assert(capped + rest =~= cut);
            lemma_lines(cut);
            if cut.len() > 0 {
                assert forall|i: int| 0 <= i < cut.len() implies cut[i] != '\n' by {
                    assert(cut.contains(cut[i]));
                }
                lemma_single_line(cut);
            }
        }
    } else {
        lemma_lines(s);
    }
}

/// A line of a text that is not empty, cut: the cut line, and whether anything follows it.
proof fn lemma_first_capped(s: Seq<char>, max: nat)
    requires
        s.len() > 0,
    ensures
        ({
            let content = line_content(first_line(s));
            let cut = truncated_to_width(content, max, "…"@);
            &&& lacks(content, '\n')
            &&& lacks(cut, '\n')
            &&& columns(cut) <= max
            &&& if first_line(s).last() == '\n' {
                &&& s == content.push('\n') + after_line(s)
                &&& capped_lines(s, max) == cut.push('\n') + capped_lines(after_line(s), max)
            } else {
                &&& s == content
                &&& capped_lines(s, max) == cut
            }
        }),
{
    lemma_first_line(s);
    let first = first_line(s);
    let content = line_content(first);
    let cut = truncated_to_width(content, max, "…"@);
    assert forall|i: int| 0 <= i < content.len() implies content[i] != '\n' by {
        assert(content[i] == s[i]);
    }
    lemma_cut_has_no_line_break(content, max);
    assert forall|i: int| 0 <= i < cut.len() implies cut[i] != '\n' by {
        assert(cut.contains(cut[i]));
    }
    if first.last() == '\n' {
        assert(content.push('\n') =~= first);
    } else {
        assert(after_line(s).len() == 0);
        assert(s =~= content);
        assert(capped_lines(after_line(s), max).len() == 0);
        assert(capped_line(first, max) == cut);
        assert(capped_lines(s, max) =~= cut);
    }
}

/// Cutting lines leaves the line breaks in their places: each line is cut by itself, and where there
/// are columns at all one that takes no more than `max` of them stays as it is.
pub proof fn lemma_line_breaks_stay(s: Seq<char>, max: nat)
    ensures
        split_on(capped_lines(s, max), '\n') == Seq::new(
            split_on(s, '\n').len(),
            |i: int| truncated_to_width(split_on(s, '\n')[i], max, "…"@),
        ),
        max > 0 ==> forall|i: int|
            0 <= i < split_on(s, '\n').len() && columns(#[trigger] split_on(s, '\n')[i]) <= max
                ==> split_on(capped_lines(s, max), '\n')[i] == split_on(s, '\n')[i],
    decreases s.len(),
{
    let a = split_on(s, '\n');
    let b = split_on(capped_lines(s, max), '\n');
    let want = Seq::new(a.len(), |i: int| truncated_to_width(a[i], max, "…"@));
    if s.len() == 0 {
        assert(truncated_to_width(Seq::empty(), max, "…"@) =~= Seq::<char>::empty());
        assert(a =~= seq![Seq::<char>::empty()]);
        assert(b =~= want);
    } else {
        lemma_first_line(s);
        lemma_first_capped(s, max);
        let content = line_content(first_line(s));
        let cut = truncated_to_width(content, max, "…"@);
        if first_line(s).last() == '\n' {
            lemma_line_breaks_stay(after_line(s), max);
            lemma_split_first(content, after_line(s), '\n');
            lemma_split_first(cut, capped_lines(after_line(s), max), '\n');
        } else {
            lemma_split_none(content, '\n');
            lemma_split_none(cut, '\n');
        }
        assert(b =~= want);
    }
}

/// Lines that were cut stay as they are when they are cut again.
pub proof fn lemma_cut_twice(s: Seq<char>, max: nat)
    ensures
        capped_lines(capped_lines(s, max), max) == capped_lines(s, max),
    decreases s.len(),
{
    if s.len() > 0 {
        lemma_first_line(s);
        lemma_first_capped(s, max);
        let cut = truncated_to_width(line_content(first_line(s)), max, "…"@);
        let r = capped_lines(s, max);
        assert(truncated_to_width(cut, max, "…"@) =~= cut);
        if first_line(s).last() == '\n' {
            let rest = capped_lines(after_line(s), max);
            let line = cut.push('\n');
            lemma_cut_twice(after_line(s), max);
            assert forall|i: int| 0 <= i < line.len() - 1 implies line[i] != '\n' by {
                assert(line[i] == cut[i]);
            }
            lemma_single_line(line);
            lemma_first_line_of_concat(line, rest);
            assert(first_line(r) =~= line);
            assert(after_line(r) =~= rest);
            assert(line.drop_last() =~= cut);
        } else if r.len() > 0 {
            lemma_single_line(r);
            assert(first_line(r) =~= r);
            assert(after_line(r).len() == 0);
            assert(capped_lines(after_line(r), max).len() == 0);
            assert(r.last() != '\n');
            assert(capped_line(r, max) == cut);
            assert(capped_lines(r, max) =~= cut);
        }
    }
}

} // verus!
