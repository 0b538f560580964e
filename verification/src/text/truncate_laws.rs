//! What is kept of a text that is too long, and what is told of the rest.

use vstd::prelude::*;

use crate::strings::{
    byte_len, dec, lacks, lemma_encode_concat, lemma_split_first, lemma_split_none, split_on,
    trim_end_of, trim_start_of,
};
use crate::text::truncate::{
    after_line, drop_lines, first_line, first_line_len, head_of, head_share, inline_capped,
    lemma_drop_lines, lemma_first_line, lemma_head_kept, lemma_lines, lemma_tail_of, lemma_within,
    line_bodies, line_body, line_count, lines, middle_of, prefix_within, suffix_within, surplus,
    tail_of, whole_lines_within,
};

verus! {

broadcast use vstd::seq::group_seq_axioms;

/// The lines of a text are what stands between its line breaks; behind one at its end there is no
/// further line.
pub proof fn lemma_lines_are_between_breaks(s: Seq<char>)
    requires
        lacks(s, '\r'),
    ensures
        s.len() == 0 ==> line_bodies(s).len() == 0,
        s.len() > 0 && s.last() != '\n' ==> line_bodies(s) == split_on(s, '\n'),
        s.len() > 0 && s.last() == '\n' ==> line_bodies(s) == split_on(s, '\n').drop_last(),
    decreases s.len(),
{
    lemma_lines(s);
    lemma_first_line(s);
    if s.len() > 0 {
        let n = first_line_len(s) as int;
        let first = first_line(s);
        let rest = after_line(s);
        assert(lacks(rest, '\r')) by {
            assert forall|i: int| 0 <= i < rest.len() implies rest[i] != '\r' by {
                assert(rest[i] == s[n + i]);
            }
        }
        lemma_lines_are_between_breaks(rest);
        let bodies = line_bodies(s);
        assert(bodies =~= seq![line_body(first)] + line_bodies(rest));
        assert(first.last() == s[n - 1]);
        if s[n - 1] == '\n' {
            let a = first.drop_last();
            assert(a =~= s.take(n - 1));
            assert forall|i: int| 0 <= i < a.len() implies a[i] != '\n' by {
                assert(a[i] == s[i]);
            }
            if a.len() > 0 {
                assert(a.last() == s[n - 2]);
            }
            assert(line_body(first) == a);
            lemma_split_first(a, rest, '\n');
            assert(s =~= a.push('\n') + rest);
            if rest.len() == 0 {
                assert(rest =~= Seq::<char>::empty());
                assert(split_on(rest, '\n') =~= seq![Seq::<char>::empty()]);
                assert(split_on(s, '\n').drop_last() =~= seq![a]);
                assert(s.last() == '\n');
                assert(bodies =~= seq![a]);
            } else {
                assert(s.last() == rest.last());
                if s.last() == '\n' {
                    crate::strings::lemma_split_some(rest, '\n');
                    assert(split_on(s, '\n').drop_last() =~= seq![a] + split_on(rest, '\n').drop_last());
                }
            }
        } else {
            assert(n == s.len());
            assert(first =~= s);
            assert forall|i: int| 0 <= i < s.len() implies s[i] != '\n' by {}
            lemma_split_none(s, '\n');
            assert(rest.len() == 0);
            assert(bodies =~= seq![s]);
        }
    }
}

/// Of the end of a text as much is kept as may be: where anything is left out, one more character would
/// be too many bytes, or as many lines are kept as there may be. What is left out is counted.
pub proof fn lemma_tail_is_longest(s: Seq<char>, max_lines: nat, max_bytes: nat)
    ensures
        ({
            let r = tail_of(s, max_lines, max_bytes);
            let kept = r.text;
            &&& kept.len() <= s.len()
            &&& kept == s.skip(s.len() - kept.len())
            &&& r.dropped_bytes + byte_len(kept) == byte_len(s)
            &&& kept.len() < s.len() ==> byte_len(s.skip(s.len() - kept.len() - 1)) > max_bytes
                || line_count(kept) == max_lines
            &&& line_count(s) <= max_lines && byte_len(s) <= max_bytes ==> kept == s && r.dropped_lines
                == 0
        }),
{
    lemma_tail_of(s, max_lines, max_bytes);
    let gone = surplus(line_count(s), max_lines);
    let candidate = drop_lines(s, gone);
    let kept = suffix_within(candidate, max_bytes);
    lemma_drop_lines(s, gone);
    lemma_within(candidate, max_bytes);
    if kept.len() < candidate.len() {
        assert(candidate.skip(candidate.len() - kept.len() - 1) =~= s.skip(s.len() - kept.len() - 1));
    } else {
        assert(candidate.skip(0) =~= candidate);
        assert(kept =~= candidate);
        if kept.len() < s.len() {
            assert(gone > 0) by {
                if gone == 0 {
                    assert(s.skip(0) =~= s);
                }
            }
        }
    }
    if line_count(s) <= max_lines && byte_len(s) <= max_bytes {
        assert(kept == s);
        if s.len() > 0 {
            lemma_first_line(s);
            lemma_nonempty_bytes(first_line(s));
        }
    }
}

proof fn lemma_nonempty_bytes(s: Seq<char>)
    ensures
        s.len() > 0 ==> byte_len(s) > 0,
{
    if s.len() > 0 {
        let a = s.drop_last();
        crate::strings::lemma_encode_push(a, s.last());
        assert(s =~= a.push(s.last()));
    }
}

proof fn lemma_ends_do_not_meet(s: Seq<char>, a: int, b: int)
    requires
        0 <= a <= s.len(),
        0 <= b <= s.len(),
        byte_len(s.take(a)) + byte_len(s.skip(b)) < byte_len(s),
    ensures
        a < b,
        byte_len(s.subrange(a, b)) == byte_len(s) - byte_len(s.take(a)) - byte_len(s.skip(b)),
{
    assert(s.take(a) + s.skip(a) =~= s);
    lemma_encode_concat(s.take(a), s.skip(a));
    if b <= a {
        assert(s.skip(b) =~= s.subrange(b, a) + s.skip(a));
        lemma_encode_concat(s.subrange(b, a), s.skip(a));
    } else {
        assert(s.skip(a) =~= s.subrange(a, b) + s.skip(b));
        lemma_encode_concat(s.subrange(a, b), s.skip(b));
    }
}

/// The pieces of a text: its start, what is left out, and its end.
pub open spec fn is_parted(s: Seq<char>, a: Seq<char>, b: Seq<char>, c: Seq<char>) -> bool {
    s == a + b + c
}

/// A text within the limit stays as it is. Of a longer one the middle is left out, and how many bytes
/// that were stands in its place; where there is no room for that note, the end is left out.
pub proof fn lemma_middle_of_a_line_is_left_out(s: Seq<char>, max_bytes: nat)
    requires
        byte_len(s) <= usize::MAX,
    ensures
        byte_len(s) <= max_bytes ==> inline_capped(s, max_bytes) == s,
        byte_len(s) > max_bytes ==> {
            ||| exists|a: Seq<char>, b: Seq<char>, c: Seq<char>| #[trigger]
                is_parted(s, a, b, c) && b.len() > 0 && inline_capped(s, max_bytes) == a + "…(省略 "@
                    + dec(byte_len(b)) + " 字节)…"@ + c
            ||| inline_capped(s, max_bytes) == prefix_within(s, max_bytes)
        },
        byte_len(s) > max_bytes && 3 * max_bytes <= usize::MAX ==> {
            let a = prefix_within(s, 3 * max_bytes / 5);
            let c = suffix_within(s, max_bytes / 4);
            let marked = a + "…(省略 "@ + dec((byte_len(s) - byte_len(a) - byte_len(c)) as nat)
                + " 字节)…"@ + c;
            byte_len(marked) <= max_bytes ==> inline_capped(s, max_bytes) == marked
        },
{
    if byte_len(s) > max_bytes {
        let head = prefix_within(s, head_share(max_bytes));
        let tail = suffix_within(s, max_bytes / 4);
        lemma_within(s, head_share(max_bytes));
        lemma_within(s, max_bytes / 4);
        let i = head.len() as int;
        let j = s.len() - tail.len();
        assert(byte_len(head) + byte_len(tail) < byte_len(s));
        lemma_ends_do_not_meet(s, i, j);
        let b = s.subrange(i, j);
        assert(s =~= head + b + tail);
        assert(is_parted(s, head, b, tail));
    }
}

/// A text of several lines within the limits stays as it is. Of a longer one the middle is left out,
/// with how many lines and bytes that were in its place, or else, where both halves meet, the end.
pub proof fn lemma_middle_is_left_out(s: Seq<char>, max_lines: nat, max_bytes: nat)
    requires
        line_count(s) > 1,
    ensures
        byte_len(s) <= max_bytes && line_count(s) <= max_lines ==> middle_of(s, max_lines, max_bytes).text
            == s,
        byte_len(s) > max_bytes || line_count(s) > max_lines ==> {
            let r = middle_of(s, max_lines, max_bytes);
            ||| exists|a: Seq<char>, b: Seq<char>, c: Seq<char>| #[trigger]
                is_parted(s, a, b, c) && b.len() > 0 && byte_len(a) <= max_bytes / 2 && byte_len(c)
                    <= max_bytes - max_bytes / 2 && r.dropped_bytes == byte_len(b)
                    && r.dropped_lines + line_count(a) + line_count(c) == line_count(s) && r.text
                    == trim_end_of(a, '\n') + "\n… 省略 "@ + dec(r.dropped_lines) + " 行 / "@ + dec(
                    byte_len(b),
                ) + " 字节 …\n"@ + trim_start_of(c, '\n')
            ||| r == head_of(s, max_lines, max_bytes)
        },
        byte_len(s) > max_bytes || line_count(s) > max_lines ==> {
            let r = middle_of(s, max_lines, max_bytes);
            let a = head_of(s, max_lines / 2, max_bytes / 2).text;
            let c = tail_of(
                s,
                (max_lines - max_lines / 2) as nat,
                (max_bytes - max_bytes / 2) as nat,
            ).text;
            line_count(a) + line_count(c) < line_count(s) && byte_len(a) + byte_len(c) < byte_len(s)
                ==> r.text == trim_end_of(a, '\n') + "\n… 省略 "@ + dec(r.dropped_lines) + " 行 / "@
                + dec(r.dropped_bytes) + " 字节 …\n"@ + trim_start_of(c, '\n')
        },
{
    if byte_len(s) > max_bytes || line_count(s) > max_lines {
        let head = head_of(s, max_lines / 2, max_bytes / 2).text;
        let tail = tail_of(
            s,
            (max_lines - max_lines / 2) as nat,
            (max_bytes - max_bytes / 2) as nat,
        ).text;
        lemma_head_kept(s, max_lines / 2, max_bytes / 2);
        lemma_tail_of(
            s,
            (max_lines - max_lines / 2) as nat,
            (max_bytes - max_bytes / 2) as nat,
        );
        let r = middle_of(s, max_lines, max_bytes);
        if !(line_count(head) + line_count(tail) >= line_count(s) || byte_len(head) + byte_len(tail)
            >= byte_len(s)) {
            let i = head.len() as int;
            let j = s.len() - tail.len();
            lemma_ends_do_not_meet(s, i, j);
            let b = s.subrange(i, j);
            assert(s =~= head + b + tail);
            assert(is_parted(s, head, b, tail));
            assert(r.text =~= trim_end_of(head, '\n') + "\n… 省略 "@ + dec(r.dropped_lines) + " 行 / "@ + dec(
                byte_len(b),
            ) + " 字节 …\n"@ + trim_start_of(tail, '\n'));
        }
    }
}

// How many lines are left out

/// How many line breaks a text has.
pub open spec fn line_breaks(s: Seq<char>) -> nat {
    s.filter(|c: char| c == '\n').len()
}

proof fn lemma_line_breaks(a: Seq<char>, b: Seq<char>)
    ensures
        line_breaks(a + b) == line_breaks(a) + line_breaks(b),
{
    Seq::filter_distributes_over_add(a, b, |c: char| c == '\n');
}

proof fn lemma_no_line_break(s: Seq<char>)
    requires
        lacks(s, '\n'),
    ensures
        line_breaks(s) == 0,
    decreases s.len(),
{
    reveal(Seq::filter);
    if s.len() > 0 {
        assert(lacks(s.drop_last(), '\n'));
        lemma_no_line_break(s.drop_last());
    }
}

proof fn lemma_one_line_break(s: Seq<char>)
    requires
        s.len() > 0,
        s.last() == '\n',
        lacks(s.drop_last(), '\n'),
    ensures
        line_breaks(s) == 1,
{
    lemma_no_line_break(s.drop_last());
    reveal(Seq::filter);
    assert(line_breaks(s) == line_breaks(s.drop_last()) + 1);
}

proof fn lemma_whole_lines(s: Seq<char>, m: int)
    requires
        0 <= m < s.len(),
    ensures
        whole_lines_within(s, byte_len(s.take(m))) == line_breaks(s.take(m)),
    decreases s.len(),
{
    lemma_first_line(s);
    let first = first_line(s);
    let rest = after_line(s);
    let k = first.len() as int;
    let front = s.take(m);
    if m >= k {
        let part = rest.take(m - k);
        assert(front =~= first + part);
        lemma_encode_concat(first, part);
        lemma_line_breaks(first, part);
        assert(lacks(first.drop_last(), '\n')) by {
            assert forall|i: int| 0 <= i < k - 1 implies first.drop_last()[i] != '\n' by {
                assert(first[i] == s[i]);
            }
        }
        lemma_one_line_break(first);
        lemma_whole_lines(rest, m - k);
    } else {
        let part = first.skip(m);
        assert(first =~= front + part);
        lemma_encode_concat(front, part);
        lemma_nonempty_bytes(part);
        assert(lacks(front, '\n')) by {
            assert forall|i: int| 0 <= i < m implies front[i] != '\n' by {
                assert(front[i] == s[i]);
            }
        }
        lemma_no_line_break(front);
    }
}

proof fn lemma_dropped_lines(s: Seq<char>, n: nat)
    requires
        n < line_count(s),
    ensures
        drop_lines(s, n).len() > 0,
        line_breaks(s.take(s.len() - drop_lines(s, n).len())) == n,
    decreases n,
{
    lemma_lines(s);
    lemma_drop_lines(s, n);
    let kept = drop_lines(s, n);
    if n == 0 {
        assert(s.take(0) =~= Seq::<char>::empty());
        lemma_no_line_break(s.take(0));
        assert(line_count(s) > 0);
    } else {
        lemma_first_line(s);
        let first = first_line(s);
        let rest = after_line(s);
        lemma_lines(rest);
        lemma_dropped_lines(rest, (n - 1) as nat);
        lemma_drop_lines(rest, (n - 1) as nat);
        let part = rest.take(rest.len() - kept.len());
        assert(s.take(s.len() - kept.len()) =~= first + part);
        lemma_line_breaks(first, part);
        assert(rest.len() > 0);
        assert(lacks(first.drop_last(), '\n')) by {
            assert forall|i: int| 0 <= i < first.len() - 1 implies first.drop_last()[i] != '\n' by {
                assert(first[i] == s[i]);
            }
        }
        lemma_one_line_break(first);
    }
}

/// Where the end of a text is kept, as many lines are told to be left out as have their line break in
/// the part that is left out.
pub proof fn lemma_lines_left_out_are_counted(s: Seq<char>, max_lines: nat, max_bytes: nat)
    ensures
        ({
            let r = tail_of(s, max_lines, max_bytes);
            r.text.len() > 0 ==> r.dropped_lines == line_breaks(s.take(s.len() - r.text.len()))
        }),
{
    let gone = surplus(line_count(s), max_lines);
    let candidate = drop_lines(s, gone);
    let kept = suffix_within(candidate, max_bytes);
    lemma_within(candidate, max_bytes);
    lemma_drop_lines(s, gone);
    if kept.len() > 0 {
        lemma_lines(candidate);
        lemma_lines(Seq::<char>::empty());
        assert(gone < line_count(s)) by {
            if gone == line_count(s) {
                assert(line_count(candidate) == 0);
            }
        }
        lemma_dropped_lines(s, gone);
        let m = candidate.len() - kept.len();
        let front = s.take(s.len() - candidate.len());
        let part = candidate.take(m);
        lemma_whole_lines(candidate, m);
        assert(candidate =~= part + kept);
        lemma_encode_concat(part, kept);
        assert(s.take(s.len() - kept.len()) =~= front + part);
        lemma_line_breaks(front, part);
    }
}

// Carriage returns

/// A carriage return before a line break belongs to that and not to the line.
pub proof fn lemma_return_belongs_to_the_break(line: Seq<char>, rest: Seq<char>)
    requires
        lacks(line, '\n'),
    ensures
        line_bodies(line + seq!['\r', '\n'] + rest) == seq![line] + line_bodies(rest),
        line.len() == 0 || line.last() != '\r' ==> line_bodies(line + seq!['\n'] + rest) == seq![line]
            + line_bodies(rest),
{
    let a = line + seq!['\r', '\n'];
    let b = line + seq!['\n'];
    lemma_first_of_lines(a, rest);
    lemma_first_of_lines(b, rest);
    assert(a.drop_last() =~= line.push('\r'));
    assert(a.drop_last().drop_last() =~= line);
    assert(b.drop_last() =~= line);
    assert(line_bodies(a + rest) =~= seq![line] + line_bodies(rest));
    if line.len() == 0 || line.last() != '\r' {
        assert(line_bodies(b + rest) =~= seq![line] + line_bodies(rest));
    }
}

proof fn lemma_first_of_lines(line: Seq<char>, rest: Seq<char>)
    requires
        line.len() > 0,
        line.last() == '\n',
        lacks(line.drop_last(), '\n'),
    ensures
        lines(line + rest) == seq![line] + lines(rest),
{
    let s = line + rest;
    lemma_lines(s);
    lemma_first_line(s);
    let n = first_line_len(s) as int;
    let k = line.len() as int;
    assert(s[k - 1] == '\n');
    assert(n == k) by {
        if n < k {
            assert(first_line(s).last() == s[n - 1]);
            assert(s[n - 1] == line.drop_last()[n - 1]);
        } else if n > k {
            assert(first_line(s)[k - 1] == s[k - 1]);
        }
    }
    assert(first_line(s) =~= line);
    assert(after_line(s) =~= rest);
}

} // verus!
