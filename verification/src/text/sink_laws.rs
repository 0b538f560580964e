//! What is left of output that arrived: its first lines, its last lines, and a note between them.

use vstd::prelude::*;

use crate::strings::{byte_len, dec, flat, lemma_encode_concat, lemma_flat_first, lemma_flat_push};
use crate::text::display_laws::lemma_wide_text_is_cut;
use crate::text::sink::{
    closed, empty_sink, evicted, fed, finished, pushed, room, routed, run, settled, SinkView,
};
use crate::text::truncate::{
    after_line, first_line, first_line_len, lemma_first_line, lemma_lines, lines, TruncateLimits,
};
use crate::text::width::{columns, truncated_to_width};

verus! {

broadcast use vstd::seq::group_seq_axioms;

/// A line without its line break.
pub open spec fn content(line: Seq<char>) -> Seq<char> {
    if line.len() > 0 && line.last() == '\n' {
        line.drop_last()
    } else {
        line
    }
}

/// Whether no line is too wide.
pub open spec fn are_narrow(l: TruncateLimits, all: Seq<Seq<char>>) -> bool {
    forall|i: int|
        0 <= i < all.len() ==> columns(content(#[trigger] all[i])) + columns("…"@) <= l.max_columns
}

/// A state after lines that ended.
pub open spec fn routed_all(l: TruncateLimits, v: SinkView, all: Seq<Seq<char>>) -> SinkView
    decreases all.len(),
{
    if all.len() == 0 {
        v
    } else {
        let before = routed_all(l, v, all.drop_last());
        routed(l, SinkView { lines: before.lines + 1, ..before }, all.last())
    }
}

/// Whether no line is under way.
pub open spec fn is_between(v: SinkView) -> bool {
    v.line.len() == 0 && v.width == 0 && !v.capped
}

proof fn lemma_routed_between(l: TruncateLimits, v: SinkView, line: Seq<char>)
    requires
        is_between(v),
    ensures
        is_between(routed(l, v, line)),
        routed(l, v, line).lines == v.lines,
        routed(l, v, line).bytes == v.bytes,
        routed(l, v, line).column_dropped == v.column_dropped,
{
}

proof fn lemma_one_line(l: TruncateLimits, v: SinkView, line: Seq<char>)
    requires
        is_between(v),
        line.len() > 0,
        columns(content(line)) + columns("…"@) <= l.max_columns,
        l.max_columns > 0,
    ensures
        line.last() == '\n' ==> closed(l, fed(l, v, content(line)), true) == routed(
            l,
            SinkView { lines: v.lines + 1, ..v },
            line,
        ),
        line.last() != '\n' ==> settled(l, fed(l, v, line)) == routed(
            l,
            SinkView { lines: v.lines + 1, ..v },
            line,
        ),
{
    let c = content(line);
    let f = fed(l, v, c);
    assert(columns(c) <= room(l, v));
    assert(v.line =~= Seq::<char>::empty());
    assert(f.line =~= c);
    let next = SinkView { lines: v.lines + 1, ..v };
    if line.last() == '\n' {
        assert(c.push('\n') =~= line);
    }
    assert(SinkView { line: Seq::empty(), width: 0, capped: false, lines: f.lines + 1, ..f } =~= next);
}

proof fn lemma_routed_first(l: TruncateLimits, v: SinkView, all: Seq<Seq<char>>)
    requires
        all.len() > 0,
    ensures
        routed_all(l, v, all) == routed_all(
            l,
            routed(l, SinkView { lines: v.lines + 1, ..v }, all[0]),
            all.drop_first(),
        ),
    decreases all.len(),
{
    let first = routed(l, SinkView { lines: v.lines + 1, ..v }, all[0]);
    if all.len() == 1 {
        assert(all.drop_last() =~= Seq::<Seq<char>>::empty());
        assert(all.drop_first() =~= Seq::<Seq<char>>::empty());
        assert(routed_all(l, v, all.drop_last()) == v);
        assert(routed_all(l, first, all.drop_first()) == first);
    } else {
        lemma_routed_first(l, v, all.drop_last());
        assert(all.drop_first().drop_last() =~= all.drop_last().drop_first());
        assert(all.drop_last()[0] == all[0]);
        assert(all.drop_first().last() == all.last());
    }
}

proof fn lemma_run_routes(l: TruncateLimits, v: SinkView, text: Seq<char>)
    requires
        is_between(v),
        are_narrow(l, lines(text)),
        l.max_columns > 0,
    ensures
        settled(l, run(l, v, text)) == routed_all(l, v, lines(text)),
    decreases text.len(),
{
    lemma_lines(text);
    lemma_first_line(text);
    if text.len() > 0 {
        let first = first_line(text);
        let rest = after_line(text);
        let all = lines(text);
        assert(all[0] == first);
        assert(all.drop_first() =~= lines(rest));
        assert(columns(content(all[0])) + columns("…"@) <= l.max_columns);
        lemma_one_line(l, v, first);
        lemma_routed_first(l, v, all);
        let next = routed(l, SinkView { lines: v.lines + 1, ..v }, first);
        lemma_routed_between(l, SinkView { lines: v.lines + 1, ..v }, first);
        if first.last() == '\n' {
            assert(are_narrow(l, lines(rest))) by {
                assert forall|i: int| 0 <= i < lines(rest).len() implies columns(
                    content(#[trigger] lines(rest)[i]),
                ) + columns("…"@) <= l.max_columns by {
                    assert(lines(rest)[i] == all[i + 1]);
                }
            }
            lemma_run_routes(l, next, rest);
        } else {
            let n = first_line_len(text) as int;
            assert(first.last() == text[n - 1]);
            assert(n == text.len());
            assert(first =~= text);
            assert(rest.len() == 0);
            lemma_lines(rest);
            assert(all.drop_first() =~= Seq::<Seq<char>>::empty());
            assert(routed_all(l, next, all.drop_first()) == next);
        }
    }
}

/// Whether lines are within the limits of the first half.
pub open spec fn fit_in_head(l: TruncateLimits, all: Seq<Seq<char>>) -> bool {
    all.len() <= l.max_lines as nat / 2 && byte_len(flat(all)) <= l.max_bytes as nat / 2
}

/// Whether lines are within the limits of the second half.
pub open spec fn fit_in_tail(l: TruncateLimits, all: Seq<Seq<char>>) -> bool {
    all.len() <= l.max_lines - l.max_lines as nat / 2 && byte_len(flat(all)) <= l.max_bytes
        - l.max_bytes as nat / 2
}

proof fn lemma_head_fills(l: TruncateLimits, v: SinkView, all: Seq<Seq<char>>)
    requires
        fit_in_head(l, all),
        is_between(v),
        v == (SinkView { bytes: v.bytes, ..empty_sink() }),
    ensures
        routed_all(l, v, all) == (SinkView {
            head: flat(all),
            head_lines: all.len(),
            lines: all.len(),
            ..v
        }),
    decreases all.len(),
{
    if all.len() > 0 {
        let front = all.drop_last();
        assert(front.push(all.last()) =~= all);
        lemma_flat_push(front, all.last());
        lemma_encode_concat(flat(front), all.last());
        lemma_head_fills(l, v, front);
    } else {
        assert(flat(all) =~= Seq::<char>::empty());
        assert(all.len() == 0);
    }
}

proof fn lemma_fits_later(l: TruncateLimits, all: Seq<Seq<char>>)
    requires
        all.len() > 0,
        fit_in_tail(l, all),
    ensures
        fit_in_tail(l, all.drop_first()),
{
    assert(seq![all[0]] + all.drop_first() =~= all);
    lemma_flat_first(all);
    lemma_encode_concat(all[0], flat(all.drop_first()));
}

proof fn lemma_evicted(l: TruncateLimits, all: Seq<Seq<char>>, k: int)
    requires
        0 <= k <= all.len(),
        fit_in_tail(l, all.skip(k)),
        k > 0 ==> !fit_in_tail(l, all.skip(k - 1)),
        k < all.len() || all.len() == 0,
    ensures
        evicted(
            all,
            (l.max_lines - l.max_lines as nat / 2) as nat,
            (l.max_bytes - l.max_bytes as nat / 2) as nat,
        ) == all.skip(k),
    decreases all.len(),
{
    assert(all.skip(0) =~= all);
    if k > 0 {
        assert(!fit_in_tail(l, all)) by {
            if fit_in_tail(l, all) {
                lemma_fits_up_to(l, all, k - 1);
            }
        }
        let t = all.drop_first();
        assert(t.skip(k - 1) =~= all.skip(k));
        if k > 1 {
            assert(t.skip(k - 2) =~= all.skip(k - 1));
        }
        lemma_evicted(l, t, k - 1);
    }
}

proof fn lemma_fits_up_to(l: TruncateLimits, all: Seq<Seq<char>>, k: int)
    requires
        0 <= k <= all.len(),
        fit_in_tail(l, all),
    ensures
        fit_in_tail(l, all.skip(k)),
    decreases k,
{
    if k == 0 {
        assert(all.skip(0) =~= all);
    } else {
        lemma_fits_later(l, all);
        lemma_fits_up_to(l, all.drop_first(), k - 1);
        assert(all.drop_first().skip(k - 1) =~= all.skip(k));
    }
}

/// Whether the lines from `k` on are the most at the end that fit.
pub open spec fn is_longest_end(l: TruncateLimits, all: Seq<Seq<char>>, k: int) -> bool {
    &&& 0 <= k <= all.len()
    &&& fit_in_tail(l, all.skip(k))
    &&& k > 0 ==> !fit_in_tail(l, all.skip(k - 1))
}

proof fn lemma_tail_moves(l: TruncateLimits, v: SinkView, all: Seq<Seq<char>>, k: int)
    requires
        is_between(v),
        v.head_full,
        v.tail.len() == 0,
        is_longest_end(l, all, k),
        l.max_lines > 0,
        l.max_bytes > 0,
        forall|i: int| 0 <= i < all.len() ==> fit_in_tail(l, seq![#[trigger] all[i]]),
    ensures
        routed_all(l, v, all) == (SinkView {
            tail: all.skip(k),
            lines: v.lines + all.len(),
            ..v
        }),
    decreases all.len(),
{
    if all.len() == 0 {
        assert(v.tail =~= all.skip(0));
    } else {
        let front = all.drop_last();
        let x = all.last();
        assert(all[all.len() - 1] == x);
        assert(all.skip(all.len() - 1) =~= seq![x]);
        let j = lemma_some_end(l, front);
        assert forall|i: int| 0 <= i < front.len() implies fit_in_tail(l, seq![#[trigger] front[i]]) by {
            assert(front[i] == all[i]);
        }
        lemma_tail_moves(l, v, front, j);
        assert(k < all.len()) by {
            if k == all.len() {
                assert(!fit_in_tail(l, all.skip(k - 1)));
            }
        }
        assert(j <= k) by {
            if k < j {
                assert(all.skip(k).len() > 0);
                let s = all.skip(k);
                assert(front.skip(k) =~= s.drop_last());
                lemma_shorter_fits(l, s);
                lemma_fits_up_to(l, front.skip(k), j - 1 - k);
                assert(front.skip(k).skip(j - 1 - k) =~= front.skip(j - 1));
            }
        }
        let kept = front.skip(j).push(x);
        assert(kept =~= all.skip(j));
        assert(kept.skip(k - j) =~= all.skip(k));
        if k > j {
            assert(kept.skip(k - j - 1) =~= all.skip(k - 1));
        }
        lemma_evicted(l, kept, k - j);
    }
}

proof fn lemma_shorter_fits(l: TruncateLimits, all: Seq<Seq<char>>)
    requires
        all.len() > 0,
        fit_in_tail(l, all),
    ensures
        fit_in_tail(l, all.drop_last()),
{
    assert(all.drop_last().push(all.last()) =~= all);
    lemma_flat_push(all.drop_last(), all.last());
    lemma_encode_concat(flat(all.drop_last()), all.last());
}

proof fn lemma_some_end(l: TruncateLimits, all: Seq<Seq<char>>) -> (k: int)
    ensures
        is_longest_end(l, all, k),
    decreases all.len(),
{
    if fit_in_tail(l, all) {
        assert(all.skip(0) =~= all);
        0
    } else if all.len() == 0 {
        assert(flat(all) =~= Seq::<char>::empty());
        assert(byte_len(Seq::<char>::empty()) == 0) by {
            lemma_encode_concat(Seq::<char>::empty(), Seq::<char>::empty());
        }
        0
    } else {
        let t = all.drop_first();
        let j = lemma_some_end(l, t);
        assert(t.skip(j) =~= all.skip(j + 1));
        if j > 0 {
            assert(t.skip(j - 1) =~= all.skip(j));
        } else {
            assert(all.skip(0) =~= all);
        }
        j + 1
    }
}

/// Output whose lines are not too wide is told by its first lines, as many as fit in half of the limits,
/// and by its last lines, as many as fit in the other half; what stood between them is counted in lines
/// and bytes, and where nothing did, nothing is said.
pub proof fn lemma_first_and_last_lines_are_kept(
    l: TruncateLimits,
    text: Seq<char>,
    head: Seq<Seq<char>>,
    gone: Seq<Seq<char>>,
    tail: Seq<Seq<char>>,
)
    requires
        l.max_columns > 0,
        l.max_lines > 0,
        l.max_bytes > 0,
        lines(text) == head + gone + tail,
        are_narrow(l, lines(text)),
        fit_in_head(l, head),
        gone.len() + tail.len() > 0 ==> !fit_in_head(l, head.push((gone + tail)[0])),
        is_longest_end(l, gone + tail, gone.len() as int),
        forall|i: int| 0 <= i < lines(text).len() ==> fit_in_tail(l, seq![#[trigger] lines(text)[i]]),
    ensures
        ({
            let r = finished(l, pushed(l, empty_sink(), text));
            &&& r.dropped_lines == gone.len()
            &&& r.dropped_bytes == byte_len(flat(gone))
            &&& r.text == if gone.len() > 0 {
                flat(head) + "\n… 省略 "@ + dec(gone.len()) + " 行 / "@ + dec(byte_len(flat(gone)))
                    + " 字节 …\n"@ + flat(tail)
            } else {
                text
            }
        }),
{
    let v = empty_sink();
    let all = lines(text);
    let rest = gone + tail;
    lemma_run_routes(l, v, text);
    lemma_head_fills(l, v, head);
    assert(all =~= head + rest);
    lemma_routed_split(l, v, head, rest);
    let w = routed_all(l, v, head);
    assert(rest.skip(gone.len() as int) =~= tail);
    lemma_lines_flat(text);
    lemma_flat_concat(head, rest);
    lemma_flat_concat(gone, tail);
    lemma_encode_concat(flat(head), flat(rest));
    lemma_encode_concat(flat(gone), flat(tail));
    let end = routed_all(l, w, rest);
    if rest.len() > 0 {
        let x = rest[0];
        let next = SinkView { lines: w.lines + 1, ..w };
        lemma_flat_push(head, x);
        lemma_encode_concat(flat(head), x);
        assert(head.push(x).len() == head.len() + 1);
        let full = SinkView { head_full: true, ..w };
        lemma_routed_first(l, w, rest);
        lemma_routed_first(l, full, rest);
        assert(routed(l, next, x) == routed(l, SinkView { lines: full.lines + 1, ..full }, x));
        assert forall|i: int| 0 <= i < rest.len() implies fit_in_tail(l, seq![#[trigger] rest[i]]) by {
            assert(rest[i] == all[head.len() + i]);
        }
        assert(w.tail =~= Seq::<Seq<char>>::empty());
        lemma_tail_moves(l, full, rest, gone.len() as int);
        assert(end == routed_all(l, full, rest));
        assert(end.tail == tail);
    } else {
        assert(end == w);
        assert(w.tail =~= tail);
    }
    let s = settled(l, pushed(l, v, text));
    lemma_bytes_aside(l, run(l, v, text), v.bytes + byte_len(text));
    lemma_all_bytes(l, v, all);
    assert(s.head == flat(head));
    assert(s.tail == tail);
    assert(s.lines == all.len());
    assert(s.bytes == byte_len(text));
    if gone.len() == 0 {
        assert(gone =~= Seq::<Seq<char>>::empty());
        assert(flat(gone) =~= Seq::<char>::empty());
        assert(byte_len(flat(gone)) == 0);
        assert(flat(head) + flat(tail) =~= text);
    } else {
        let r = finished(l, pushed(l, v, text));
        assert(r.text =~= flat(head) + "\n… 省略 "@ + dec(gone.len()) + " 行 / "@ + dec(
            byte_len(flat(gone)),
        ) + " 字节 …\n"@ + flat(tail));
    }
}

proof fn lemma_bytes_aside(l: TruncateLimits, v: SinkView, bytes: nat)
    ensures
        settled(l, SinkView { bytes, ..v }) == (SinkView { bytes, ..settled(l, v) }),
{
}

proof fn lemma_all_bytes(l: TruncateLimits, v: SinkView, all: Seq<Seq<char>>)
    ensures
        routed_all(l, v, all).bytes == v.bytes,
        routed_all(l, v, all).column_dropped == v.column_dropped,
        routed_all(l, v, all).lines == v.lines + all.len(),
    decreases all.len(),
{
    if all.len() > 0 {
        lemma_all_bytes(l, v, all.drop_last());
    }
}

proof fn lemma_routed_split(l: TruncateLimits, v: SinkView, a: Seq<Seq<char>>, b: Seq<Seq<char>>)
    ensures
        routed_all(l, v, a + b) == routed_all(l, routed_all(l, v, a), b),
    decreases b.len(),
{
    if b.len() == 0 {
        assert(a + b =~= a);
    } else {
        lemma_routed_split(l, v, a, b.drop_last());
        assert((a + b).drop_last() =~= a + b.drop_last());
    }
}

proof fn lemma_flat_concat(a: Seq<Seq<char>>, b: Seq<Seq<char>>)
    ensures
        flat(a + b) == flat(a) + flat(b),
    decreases b.len(),
{
    if b.len() == 0 {
        assert(a + b =~= a);
        assert(flat(b) =~= Seq::<char>::empty());
        assert(flat(a) + flat(b) =~= flat(a));
    } else {
        lemma_flat_concat(a, b.drop_last());
        assert((a + b) =~= (a + b.drop_last()).push(b.last()));
        assert(b =~= b.drop_last().push(b.last()));
        lemma_flat_push(a + b.drop_last(), b.last());
        lemma_flat_push(b.drop_last(), b.last());
        assert(flat(a) + (flat(b.drop_last()) + b.last()) =~= (flat(a) + flat(b.drop_last())) + b.last());
    }
}

proof fn lemma_lines_flat(text: Seq<char>)
    ensures
        flat(lines(text)) == text,
    decreases text.len(),
{
    lemma_lines(text);
    lemma_first_line(text);
    if text.len() == 0 {
        assert(flat(lines(text)) =~= text);
    } else {
        let rest = after_line(text);
        lemma_lines_flat(rest);
        let all = lines(text);
        lemma_flat_first(all);
        assert(all.drop_first() =~= lines(rest));
    }
}

/// A line that is too wide is cut to as much of its start as there is room for beside the mark, which
/// is put behind it; the bytes that are left out are counted, and what follows on that line is left out
/// too.
pub proof fn lemma_wide_line_is_marked(
    l: TruncateLimits,
    v: SinkView,
    line: Seq<char>,
    more: Seq<char>,
)
    requires
        is_between(v),
        l.max_columns > columns("…"@),
        columns(line) + columns("…"@) > l.max_columns,
    ensures
        ({
            let after = fed(l, v, line);
            &&& exists|n: int|
                {
                    &&& 0 <= n < line.len()
                    &&& after.line == (#[trigger] line.take(n)).push('…')
                    &&& after.column_dropped == v.column_dropped + byte_len(line.skip(n))
                    &&& columns(line.take(n)) + columns("…"@) <= l.max_columns
                    &&& forall|k: int|
                        n < k <= line.len() ==> columns(#[trigger] line.take(k)) + columns("…"@)
                            > l.max_columns
                }
            &&& fed(l, after, more).line == after.line
            &&& fed(l, after, more).column_dropped == after.column_dropped + byte_len(more)
        }),
{
    let after = fed(l, v, line);
    let left = room(l, v);
    lemma_wide_text_is_cut(line, left, Seq::empty());
    assert(columns(Seq::<char>::empty()) == 0);
    let shown = truncated_to_width(line, left, Seq::empty());
    let n = choose|n: int|
        {
            &&& 0 <= n < line.len()
            &&& shown == #[trigger] line.take(n) + Seq::<char>::empty()
            &&& columns(line.take(n)) <= left
            &&& forall|k: int| n < k <= line.len() ==> columns(#[trigger] line.take(k)) > left
        };
    assert(shown =~= line.take(n));
    assert(line =~= line.take(n) + line.skip(n));
    lemma_encode_concat(line.take(n), line.skip(n));
    assert(after.line =~= line.take(n).push('…'));
}

} // verus!
