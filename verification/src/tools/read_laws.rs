//! What is shown of the lines that are asked for.

use vstd::prelude::*;

use crate::strings::{byte_len, dec, holds, joined, lemma_holds};
use crate::text::truncate::line_bodies;
use crate::tools::read::{
    asked_start, byte_budget, least_start, lemma_range_at, lemma_scan_range, numbered, opt_nat,
    out_of_bounds_text, page_cap, page_limits, page_of, page_target, range_at, range_block,
    range_blocks, range_caps, ranges_limits, read_page, read_ranges, read_selected, scan_line,
    scan_of, scanned, shown, sum_of,
};
use crate::tools::selector::{is_canonical, LineRange, Selector};

verus! {

broadcast use vstd::seq::group_seq_axioms;

// One range

/// How many bytes lines have, each with a line break.
pub open spec fn weight(l: Seq<Seq<char>>) -> nat
    decreases l.len(),
{
    if l.len() == 0 {
        0
    } else {
        weight(l.drop_last()) + byte_len(l.last()) + 1
    }
}

/// The lesser of two numbers.
pub open spec fn least(a: int, b: int) -> int {
    if a <= b {
        a
    } else {
        b
    }
}

/// The greater of two numbers.
pub open spec fn most(a: int, b: int) -> int {
    if a >= b {
        a
    } else {
        b
    }
}

/// The first line that is shown for a range: the one before it, unless the range starts at the first
/// line or the lines are shown as they are.
pub open spec fn first_shown(start: int, raw: bool) -> int {
    if raw || start <= 1 {
        most(start, 1)
    } else {
        start - 1
    }
}

/// How many lines are shown for a range at most: up to its end, and three more unless the lines are
/// shown as they are; without an end, a page. In no case more than three thousand.
pub open spec fn most_shown(start: int, end: Option<nat>, raw: bool, page: nat) -> int {
    let from = first_shown(start, raw);
    least(
        3000,
        match end {
            Some(e) => most(e as int, most(start, 1)) + (if raw {
                0int
            } else {
                3
            }) - from + 1,
            None => page + most(start, 1) - from,
        },
    )
}

/// How many bytes are shown before nothing more is: fifty thousand, or 512 a line.
pub open spec fn bytes_shown(lines: int) -> int {
    most(50_000, 512 * lines)
}

/// Whether so many lines are the most that fit: the last of them starts within the bytes, and there
/// is no other that could be shown.
pub open spec fn is_all_that_fits(l: Seq<Seq<char>>, from: int, lines: int, m: int) -> bool {
    &&& 0 <= m <= lines
    &&& from - 1 + m <= l.len()
    &&& m > 0 ==> weight(l.subrange(from - 1, from - 1 + m - 1)) < bytes_shown(lines)
    &&& {
        ||| m == lines
        ||| from - 1 + m == l.len()
        ||| weight(l.subrange(from - 1, from - 1 + m)) >= bytes_shown(lines)
    }
}

/// The lines from `from` to `to` of a text as they are shown, and how to go on behind them.
pub open spec fn lines_shown(l: Seq<Seq<char>>, from: int, to: int, raw: bool) -> Seq<char> {
    let body = if raw {
        joined(l.subrange(from - 1, to), "\n"@)
    } else {
        joined(
            Seq::new((to - from + 1) as nat, |i: int| dec((from + i) as nat) + ":"@ + l[from - 1 + i]),
            "\n"@,
        )
    };
    if to < l.len() {
        body + "\n\n"@ + "[还有 "@ + dec((l.len() - to) as nat) + " 行。用 :"@ + dec((to + 1) as nat)
            + " 继续]"@
    } else {
        body
    }
}

proof fn lemma_weight_push(l: Seq<Seq<char>>, a: int, b: int)
    requires
        0 <= a <= b < l.len(),
    ensures
        weight(l.subrange(a, b + 1)) == weight(l.subrange(a, b)) + byte_len(l[b]) + 1,
{
    assert(l.subrange(a, b + 1).drop_last() =~= l.subrange(a, b));
}

proof fn lemma_weight_grows(l: Seq<Seq<char>>, a: int, b: int, c: int)
    requires
        0 <= a <= b <= c <= l.len(),
    ensures
        weight(l.subrange(a, b)) + (c - b) <= weight(l.subrange(a, c)),
    decreases c - b,
{
    if b < c {
        lemma_weight_grows(l, a, b, c - 1);
        lemma_weight_push(l, a, c - 1);
    }
}

proof fn lemma_scan_of_one(t: LineRange, cap: nat, l: Seq<Seq<char>>, n: nat)
    requires
        1 <= t.start,
        cap > 0,
        t.end is Some ==> t.end->0 == t.start + cap - 1,
        t.end is None ==> l.len() < t.start + cap,
        n <= l.len(),
    ensures
        ({
            let s = scan_of(seq![t], page_limits(cap), l, n);
            let m = s.windows[0].len() as int;
            let from = t.start as int;
            let budget = byte_budget(cap);
            &&& s.windows.len() == 1
            &&& s.lines == m
            &&& m <= cap
            &&& n < from ==> m == 0
            &&& n >= from ==> from - 1 + m <= n
            &&& n >= from ==> s.windows[0] == l.subrange(from - 1, from - 1 + m)
            &&& s.bytes == weight(s.windows[0])
            &&& n >= from && m > 0 ==> weight(l.subrange(from - 1, from - 1 + m - 1)) < budget
            &&& n >= from ==> (s.bytes >= budget || m == cap || from - 1 + m == n)
        }),
    decreases n,
{
    let ts = seq![t];
    let from = t.start as int;
    if n > 0 {
        lemma_scan_of_one(t, cap, l, (n - 1) as nat);
        let before = scan_of(ts, page_limits(cap), l, (n - 1) as nat);
        let s = scan_of(ts, page_limits(cap), l, n);
        lemma_scan_range(ts, page_limits(cap), l, (n - 1) as nat);
        lemma_range_at(ts, before.range, n);
        assert(s == scan_line(ts, page_limits(cap), before, n, l[n - 1]));
        let w = before.windows[0];
        let k = range_at(ts, before.range, n);
        if n >= from {
            if n == from {
                assert(w =~= l.subrange(from - 1, from - 1));
                assert(weight(w) == 0);
            }
            if k == 0 && !(before.lines >= cap || before.bytes >= byte_budget(cap)) {
                assert(from - 1 + w.len() == n - 1);
                assert(s.windows[0] == w.push(l[n - 1]));
                assert(w.push(l[n - 1]) =~= l.subrange(from - 1, n as int));
                lemma_weight_push(l, from - 1, n - 1);
            } else {
                assert(s.windows[0] == w);
                if k > 0 {
                    assert(ts[0].end is Some && n > t.end->0);
                }
            }
        } else {
            assert(k == 0);
            assert(s.windows[0] == w);
        }
    } else {
        assert(scan_of(ts, page_limits(cap), l, 0).windows[0] =~= Seq::<Seq<char>>::empty());
    }
}

/// What is shown for a range are as many of the lines that were asked for, from the first one or its
/// context on, as there are and as the limits allow, and behind them how to go on where the text
/// does.
pub proof fn lemma_all_that_fits_is_shown(
    text: Seq<char>,
    start: nat,
    end: Option<nat>,
    raw: bool,
    page: nat,
)
    requires
        most(start as int, 1) <= line_bodies(text).len() <= usize::MAX,
        end is None ==> page > 0,
    ensures
        exists|m: int|
            {
                &&& m > 0
                &&& #[trigger] is_all_that_fits(
                    line_bodies(text),
                    first_shown(start as int, raw),
                    most_shown(start as int, end, raw, page),
                    m,
                )
                &&& read_page(text, start, end, raw, page) == Ok::<Seq<char>, Seq<char>>(
                    lines_shown(
                        line_bodies(text),
                        first_shown(start as int, raw),
                        first_shown(start as int, raw) + m - 1,
                        raw,
                    ),
                )
            },
{
    let l = line_bodies(text);
    let t = page_target(start, end, raw, page);
    let cap = page_cap(start, end, raw, page);
    let from = first_shown(start as int, raw);
    let lines = most_shown(start as int, end, raw, page);
    assert(cap == lines);
    assert(t.start == from);
    lemma_scan_of_one(t, cap, l, l.len());
    let window = scanned(seq![t], page_limits(cap), text).windows[0];
    let m = window.len() as int;
    assert(byte_budget(cap) == bytes_shown(lines));
    if m == 0 {
        assert(weight(window) == 0);
    }
    assert(is_all_that_fits(l, from, lines, m));
    let last = from + m - 1;
    if raw {
        assert(shown(window, from as nat, raw) == joined(l.subrange(from - 1, last), "\n"@));
    } else {
        assert(numbered(window, from as nat) =~= Seq::new(
            (last - from + 1) as nat,
            |i: int| dec((from + i) as nat) + ":"@ + l[from - 1 + i],
        ));
    }
    assert(page_of(text, start, end, raw, page, window) is Ok);
    assert(page_of(text, start, end, raw, page, window)->Ok_0 =~= lines_shown(l, from, last, raw));
}

/// Where a range starts in the text and is within the limits of lines and bytes, all its lines are
/// shown, from the first to the last: just these where they are shown as they are, else with the line
/// before them and the three behind, each under its number.
pub proof fn lemma_range_is_shown(text: Seq<char>, start: nat, end: nat, raw: bool, page: nat)
    requires
        1 <= start <= end,
        start <= line_bodies(text).len() <= usize::MAX,
        end - start + 1 + (if raw {
            0int
        } else if start == 1 {
            3
        } else {
            4
        }) <= 3000,
        ({
            let from = first_shown(start as int, raw);
            let to = least(line_bodies(text).len() as int, if raw {
                end as int
            } else {
                end as int + 3
            });
            weight(line_bodies(text).subrange(from - 1, to)) <= 50_000
        }),
    ensures
        raw ==> read_page(text, start, Some(end), raw, page) == Ok::<Seq<char>, Seq<char>>(
            lines_shown(
                line_bodies(text),
                start as int,
                least(line_bodies(text).len() as int, end as int),
                true,
            ),
        ),
        !raw ==> read_page(text, start, Some(end), raw, page) == Ok::<Seq<char>, Seq<char>>(
            lines_shown(
                line_bodies(text),
                if start == 1 {
                    1
                } else {
                    start - 1
                },
                least(line_bodies(text).len() as int, end as int + 3),
                false,
            ),
        ),
{
    let l = line_bodies(text);
    let from = first_shown(start as int, raw);
    let lines = most_shown(start as int, Some(end), raw, page);
    let to = least(l.len() as int, if raw {
        end as int
    } else {
        end as int + 3
    });
    lemma_all_that_fits_is_shown(text, start, Some(end), raw, page);
    let m = choose|m: int|
        {
            &&& m > 0
            &&& #[trigger] is_all_that_fits(l, from, lines, m)
            &&& read_page(text, start, Some(end), raw, page) == Ok::<Seq<char>, Seq<char>>(
                lines_shown(l, from, from + m - 1, raw),
            )
        };
    lemma_weight_grows(l, from - 1, from - 1 + m, to);
    assert(from - 1 + m == to);
}

/// A whole text that fits on a page is shown from its first line to its last: as it is, or each line
/// under its number.
pub proof fn lemma_whole_text_is_shown(text: Seq<char>, page: nat)
    requires
        0 < line_bodies(text).len() <= page,
        line_bodies(text).len() <= 3000,
        weight(line_bodies(text)) <= 50_000,
    ensures
        read_selected(text, Selector::Raw, page) == Ok::<Seq<char>, Seq<char>>(
            joined(line_bodies(text), "\n"@),
        ),
        read_selected(text, Selector::Absent, page) == Ok::<Seq<char>, Seq<char>>(
            joined(
                Seq::new(
                    line_bodies(text).len(),
                    |i: int| dec((i + 1) as nat) + ":"@ + line_bodies(text)[i],
                ),
                "\n"@,
            ),
        ),
{
    let l = line_bodies(text);
    let raw = read_page(text, 1, None, true, page);
    let plain = read_page(text, 1, None, false, page);
    lemma_all_that_fits_is_shown(text, 1, None, true, page);
    lemma_all_that_fits_is_shown(text, 1, None, false, page);
    let a = choose|m: int|
        {
            &&& m > 0
            &&& #[trigger] is_all_that_fits(l, 1, most_shown(1, None, true, page), m)
            &&& raw == Ok::<Seq<char>, Seq<char>>(lines_shown(l, 1, m, true))
        };
    let b = choose|m: int|
        {
            &&& m > 0
            &&& #[trigger] is_all_that_fits(l, 1, most_shown(1, None, false, page), m)
            &&& plain == Ok::<Seq<char>, Seq<char>>(lines_shown(l, 1, m, false))
        };
    assert(l.subrange(0, l.len() as int) =~= l);
    lemma_weight_grows(l, 0, a, l.len() as int);
    lemma_weight_grows(l, 0, b, l.len() as int);
    assert(a == l.len() && b == l.len());
    assert(Seq::new(l.len(), |i: int| dec((i + 1) as nat) + ":"@ + l[i]) =~= Seq::new(
        (b - 1 + 1) as nat,
        |i: int| dec((1 + i) as nat) + ":"@ + l[1 - 1 + i],
    ));
}

/// A selector with a single range shows that range; one with more shows each of them.
pub proof fn lemma_selector_is_obeyed(text: Seq<char>, ranges: Vec<LineRange>, raw: bool, page: nat)
    ensures
        ranges@.len() == 1 ==> read_selected(text, Selector::Lines { ranges, raw }, page) == read_page(
            text,
            ranges@[0].start as nat,
            opt_nat(ranges@[0].end),
            raw,
            page,
        ),
        ranges@.len() != 1 ==> read_selected(text, Selector::Lines { ranges, raw }, page)
            == read_ranges(text, ranges@, raw, page),
{
}

/// A range behind the end of a text shows nothing: what is said instead names the line that was asked
/// for and how many there are.
pub proof fn lemma_nothing_behind_the_end(
    text: Seq<char>,
    start: nat,
    end: Option<nat>,
    raw: bool,
    page: nat,
)
    requires
        start > line_bodies(text).len(),
    ensures
        read_page(text, start, end, raw, page) matches Err(e) && holds(
            e,
            "第 "@ + dec(start) + " 行超出文件末尾（共 "@ + dec(line_bodies(text).len()) + " 行）。"@,
        ),
{
    let total = line_bodies(text).len();
    let e = out_of_bounds_text(start, total);
    assert(asked_start(start) == start);
    let said = "第 "@ + dec(start) + " 行超出文件末尾（共 "@ + dec(total) + " 行）。"@;
    let rest = if total == 0 {
        "该文件为空。"@
    } else {
        "用 :1 从头读，或 :"@ + dec(total) + " 读最后一行。"@
    };
    assert(e =~= Seq::<char>::empty() + said + rest);
    lemma_holds(Seq::empty(), said, rest);
}

// Several ranges

/// How many lines a range asks for; without an end, a page.
pub open spec fn range_len(t: LineRange, page: nat) -> nat {
    match t.end {
        Some(e) => (e - t.start + 1) as nat,
        None => page,
    }
}

/// Whether a range asks for a line.
pub open spec fn asks_for(t: LineRange, page: nat, n: nat) -> bool {
    t.start <= n < t.start + range_len(t, page)
}

/// Whether one of several ranges asks for a line.
pub open spec fn is_asked_for(ranges: Seq<LineRange>, page: nat, n: nat) -> bool {
    exists|i: int| 0 <= i < ranges.len() && asks_for(#[trigger] ranges[i], page, n)
}

/// How many of the first `n` lines are asked for.
pub open spec fn lines_asked_for(ranges: Seq<LineRange>, page: nat, n: nat) -> nat
    decreases n,
{
    if n == 0 {
        0
    } else {
        lines_asked_for(ranges, page, (n - 1) as nat) + if is_asked_for(ranges, page, n) {
            1nat
        } else {
            0nat
        }
    }
}

/// How many bytes those of the first `n` lines have that are asked for, each with a line break.
pub open spec fn bytes_asked_for(ranges: Seq<LineRange>, page: nat, l: Seq<Seq<char>>, n: nat) -> nat
    decreases n,
{
    if n == 0 {
        0
    } else {
        bytes_asked_for(ranges, page, l, (n - 1) as nat) + if is_asked_for(ranges, page, n) {
            byte_len(l[n - 1]) + 1
        } else {
            0
        }
    }
}

/// The last of the first `n` lines that a range asks for, or the one before it.
pub open spec fn reaches(t: LineRange, page: nat, n: int) -> int {
    most(t.start - 1, least(n, t.start + range_len(t, page) - 1))
}

proof fn lemma_asked_grows(ranges: Seq<LineRange>, page: nat, l: Seq<Seq<char>>, a: nat, b: nat)
    requires
        a <= b,
    ensures
        lines_asked_for(ranges, page, a) <= lines_asked_for(ranges, page, b),
        bytes_asked_for(ranges, page, l, a) <= bytes_asked_for(ranges, page, l, b),
    decreases b,
{
    if a < b {
        lemma_asked_grows(ranges, page, l, a, (b - 1) as nat);
    }
}

proof fn lemma_asked_of_last(ranges: Seq<LineRange>, page: nat, n: nat)
    requires
        ranges.len() > 0,
        ranges.last().start >= 1,
    ensures
        lines_asked_for(ranges, page, n) <= lines_asked_for(ranges.drop_last(), page, n) + (reaches(
            ranges.last(),
            page,
            n as int,
        ) - (ranges.last().start - 1)),
    decreases n,
{
    if n > 0 {
        lemma_asked_of_last(ranges, page, (n - 1) as nat);
        let front = ranges.drop_last();
        if is_asked_for(ranges, page, n) && !asks_for(ranges.last(), page, n) {
            let i = choose|i: int| 0 <= i < ranges.len() && asks_for(#[trigger] ranges[i], page, n);
            assert(i < front.len());
            assert(asks_for(front[i], page, n));
            assert(is_asked_for(front, page, n));
        }
    }
}

proof fn lemma_asked_at_most(ranges: Seq<LineRange>, page: nat, n: nat)
    requires
        forall|i: int|
            0 <= i < ranges.len() ==> 1 <= (#[trigger] ranges[i]).start && (ranges[i].end is Some
                ==> ranges[i].start <= ranges[i].end->0),
    ensures
        lines_asked_for(ranges, page, n) <= sum_of(range_caps(ranges, page)),
    decreases ranges.len(),
{
    let caps = range_caps(ranges, page);
    if ranges.len() > 0 {
        let front = ranges.drop_last();
        assert forall|i: int| 0 <= i < front.len() implies 1 <= (#[trigger] front[i]).start && (
        front[i].end is Some ==> front[i].start <= front[i].end->0) by {
            assert(front[i] == ranges[i]);
        }
        lemma_asked_at_most(front, page, n);
        lemma_asked_of_last(ranges, page, n);
        assert(caps.drop_last() =~= range_caps(front, page));
        assert(caps.last() == range_len(ranges.last(), page));
    } else {
        lemma_none_asked(ranges, page, n);
    }
}

proof fn lemma_none_asked(ranges: Seq<LineRange>, page: nat, n: nat)
    requires
        ranges.len() == 0,
    ensures
        lines_asked_for(ranges, page, n) == 0,
    decreases n,
{
    if n > 0 {
        lemma_none_asked(ranges, page, (n - 1) as nat);
    }
}

proof fn lemma_scan_of_all(ranges: Seq<LineRange>, page: nat, l: Seq<Seq<char>>, n: nat)
    requires
        is_canonical(ranges),
        page > 0,
        page <= usize::MAX,
        n <= l.len(),
        lines_asked_for(ranges, page, l.len()) <= 3000,
        bytes_asked_for(ranges, page, l, l.len()) <= 50_000,
    ensures
        ({
            let s = scan_of(ranges, ranges_limits(ranges, page), l, n);
            &&& s.windows.len() == ranges.len()
            &&& s.lines == lines_asked_for(ranges, page, n)
            &&& s.bytes == bytes_asked_for(ranges, page, l, n)
            &&& forall|i: int|
                0 <= i < ranges.len() ==> #[trigger] s.windows[i].len() == reaches(
                    ranges[i],
                    page,
                    n as int,
                ) - (ranges[i].start - 1)
            &&& forall|i: int|
                0 <= i < ranges.len() && ranges[i].start <= n ==> #[trigger] s.windows[i] == l.subrange(
                    ranges[i].start - 1,
                    reaches(ranges[i], page, n as int),
                )
        }),
    decreases n,
{
    let limits = ranges_limits(ranges, page);
    if n > 0 {
        let b = (n - 1) as nat;
        lemma_scan_of_all(ranges, page, l, b);
        let before = scan_of(ranges, limits, l, b);
        let s = scan_of(ranges, limits, l, n);
        lemma_scan_range(ranges, limits, l, b);
        lemma_range_at(ranges, before.range, n);
        assert(s == scan_line(ranges, limits, before, n, l[n - 1]));
        let k = range_at(ranges, before.range, n) as int;
        lemma_asked_grows(ranges, page, l, n, l.len());
        lemma_asked_at_most(ranges, page, l.len());
        if is_asked_for(ranges, page, n) {
            let i = choose|i: int| 0 <= i < ranges.len() && asks_for(#[trigger] ranges[i], page, n);
            assert(k == i) by {
                if k < i {
                    assert(ranges[k].end is Some && ranges[k].end->0 + 1 < ranges[i].start);
                }
                if k > i {
                    assert(ranges[i].end is Some && n > ranges[i].end->0);
                }
            }
            assert(before.windows[k].len() == n - ranges[k].start);
            assert(range_caps(ranges, page)[k] == range_len(ranges[k], page));
            assert(s.windows == before.windows.update(k, before.windows[k].push(l[n - 1])));
            assert forall|j: int| 0 <= j < ranges.len() && ranges[j].start <= n implies #[trigger] s.windows[j]
                == l.subrange(ranges[j].start - 1, reaches(ranges[j], page, n as int)) by {
                if j == k {
                    if ranges[j].start <= b {
                        assert(before.windows[j] == l.subrange(
                            ranges[j].start - 1,
                            reaches(ranges[j], page, b as int),
                        ));
                    }
                    assert(s.windows[j] =~= l.subrange(ranges[j].start - 1, n as int));
                } else {
                    assert(!asks_for(ranges[j], page, n)) by {
                        if j < k {
                            assert(ranges[j].end is Some && ranges[j].end->0 + 1 < ranges[k].start);
                        } else {
                            assert(ranges[k].end is Some && ranges[k].end->0 + 1 < ranges[j].start);
                        }
                    }
                    assert(ranges[j].start <= b);
                    assert(s.windows[j] == before.windows[j]);
                }
            }
            assert forall|j: int| 0 <= j < ranges.len() implies #[trigger] s.windows[j].len() == reaches(
                ranges[j],
                page,
                n as int,
            ) - (ranges[j].start - 1) by {
                if j != k {
                    assert(!asks_for(ranges[j], page, n)) by {
                        if j < k {
                            assert(ranges[j].end is Some && ranges[j].end->0 + 1 < ranges[k].start);
                        } else {
                            assert(ranges[k].end is Some && ranges[k].end->0 + 1 < ranges[j].start);
                        }
                    }
                    assert(s.windows[j] == before.windows[j]);
                }
            }
        } else {
            assert(s.windows == before.windows) by {
                if k < ranges.len() && n >= ranges[k].start {
                    assert(!asks_for(ranges[k], page, n));
                    assert(before.windows[k].len() == reaches(ranges[k], page, b as int) - (
                    ranges[k].start - 1));
                    assert(range_caps(ranges, page)[k] == range_len(ranges[k], page));
                }
            }
            assert(s.lines == before.lines && s.bytes == before.bytes);
            assert forall|j: int| 0 <= j < ranges.len() implies #[trigger] s.windows[j].len() == reaches(
                ranges[j],
                page,
                n as int,
            ) - (ranges[j].start - 1) by {
                assert(!asks_for(ranges[j], page, n));
            }
            assert forall|j: int| 0 <= j < ranges.len() && ranges[j].start <= n implies #[trigger] s.windows[j]
                == l.subrange(ranges[j].start - 1, reaches(ranges[j], page, n as int)) by {
                assert(!asks_for(ranges[j], page, n));
                assert(ranges[j].start <= b);
            }
        }
    } else {
        let s = scan_of(ranges, limits, l, 0);
        assert forall|i: int| 0 <= i < ranges.len() implies #[trigger] s.windows[i].len() == reaches(
            ranges[i],
            page,
            0,
        ) - (ranges[i].start - 1) by {
            assert(ranges[i].start >= 1);
        }
    }
}

/// A range of several as it is shown: its lines, each under its number and all under a heading,
/// unless they are shown as they are.
pub open spec fn block_shown(t: LineRange, page: nat, l: Seq<Seq<char>>, raw: bool) -> Seq<char> {
    let to = reaches(t, page, l.len() as int);
    let heading = "--- 第 "@ + dec(t.start as nat) + "-"@ + match t.end {
        Some(e) => dec(e as nat),
        None => "EOF"@,
    };
    if t.start > l.len() {
        heading + " 行（超出文件末尾，共 "@ + dec(l.len()) + " 行）---"@
    } else if raw {
        joined(l.subrange(t.start - 1, to), "\n"@)
    } else {
        heading + " 行 ---\n"@ + joined(
            Seq::new(
                (to - t.start + 1) as nat,
                |i: int| dec((t.start + i) as nat) + ":"@ + l[t.start - 1 + i],
            ),
            "\n"@,
        )
    }
}

proof fn lemma_least_start(ranges: Seq<LineRange>)
    requires
        is_canonical(ranges),
        ranges.len() > 0,
    ensures
        least_start(ranges) == ranges[0].start,
    decreases ranges.len(),
{
    if ranges.len() > 1 {
        let front = ranges.drop_last();
        assert(is_canonical(front)) by {
            assert forall|i: int| 0 <= i < front.len() implies front[i] == ranges[i] by {}
        }
        lemma_least_start(front);
        assert(ranges[0].end is Some && ranges[0].end->0 + 1 < ranges.last().start);
    }
}

proof fn lemma_blocks_joined(
    ranges: Seq<LineRange>,
    windows: Seq<Seq<Seq<char>>>,
    raw: bool,
    total: nat,
    blocks: Seq<Seq<char>>,
    n: int,
)
    requires
        0 <= n <= ranges.len(),
        blocks.len() == ranges.len(),
        forall|i: int|
            0 <= i < ranges.len() ==> #[trigger] blocks[i] == range_block(
                ranges[i],
                windows[i],
                raw,
                total,
            ) && blocks[i].len() > 0,
    ensures
        range_blocks(ranges, windows, raw, total, n) == joined(blocks.take(n), "\n\n"@),
        n > 0 ==> range_blocks(ranges, windows, raw, total, n).len() > 0,
    decreases n,
{
    if n > 0 {
        lemma_blocks_joined(ranges, windows, raw, total, blocks, n - 1);
        assert(blocks.take(n).drop_last() =~= blocks.take(n - 1));
        assert(blocks[n - 1] == blocks.take(n).last());
        assert(blocks[n - 1].len() > 0);
    }
}

/// Several ranges that are within the limits of lines and bytes are all shown, with every line that
/// they ask for and the text has, each range under its heading and an empty line between them.
pub proof fn lemma_ranges_are_shown(text: Seq<char>, ranges: Seq<LineRange>, raw: bool, page: nat)
    requires
        is_canonical(ranges),
        ranges.len() > 0,
        ranges[0].start <= line_bodies(text).len(),
        0 < page <= usize::MAX,
        lines_asked_for(ranges, page, line_bodies(text).len()) <= 3000,
        bytes_asked_for(ranges, page, line_bodies(text), line_bodies(text).len()) <= 50_000,
        raw ==> forall|i: int|
            0 <= i < ranges.len() ==> block_shown(
                #[trigger] ranges[i],
                page,
                line_bodies(text),
                raw,
            ).len() > 0,
    ensures
        read_ranges(text, ranges, raw, page) == Ok::<Seq<char>, Seq<char>>(
            joined(
                Seq::new(
                    ranges.len(),
                    |i: int| block_shown(ranges[i], page, line_bodies(text), raw),
                ),
                "\n\n"@,
            ),
        ),
{
    let l = line_bodies(text);
    let total = l.len();
    let windows = scanned(ranges, ranges_limits(ranges, page), text).windows;
    let blocks = Seq::new(ranges.len(), |i: int| block_shown(ranges[i], page, l, raw));
    lemma_scan_of_all(ranges, page, l, total);
    lemma_least_start(ranges);
    assert forall|i: int| 0 <= i < ranges.len() implies #[trigger] blocks[i] == range_block(
        ranges[i],
        windows[i],
        raw,
        total,
    ) && blocks[i].len() > 0 by {
        let t = ranges[i];
        let to = reaches(t, page, total as int);
        let w = windows[i];
        assert(w.len() == to - (t.start - 1));
        reveal_strlit("--- 第 ");
        assert(block_shown(t, page, l, raw).len() > 0);
        if t.start <= total {
            assert(w == l.subrange(t.start - 1, to));
            assert(w.len() > 0);
            assert(numbered(w, t.start as nat) =~= Seq::new(
                (to - t.start + 1) as nat,
                |i: int| dec((t.start + i) as nat) + ":"@ + l[t.start - 1 + i],
            ));
        }
    }
    lemma_blocks_joined(ranges, windows, raw, total, blocks, ranges.len() as int);
    assert(blocks.take(ranges.len() as int) =~= blocks);
}

} // verus!
