//! What holds of reports on edits: a change shows what differs, and the closest line is the closest.

use vstd::prelude::*;

use crate::strings::{
    byte_len, char_bytes, dec, holds, joined, lemma_encode_concat, lemma_encode_one, lemma_holds,
    lemma_holds_within, lemma_index_of_offset, lemma_joined_holds, split_on, trim, trim_end_of,
};
use crate::text::truncate::line_bodies;
use crate::tools::edit::MatchView;
use crate::tools::edit_report::{
    ambiguous_text, breaks, closest, diff_of, distance, edited_text, line_number, match_text,
    match_texts, minus, nearest, not_found_text, probe_from, row, rows, shared_head, shared_tail,
};

verus! {

broadcast use vstd::seq::group_seq_axioms;

// A change

/// A line of a change: its number in a column of six, a mark, and its text.
pub open spec fn row_shown(n: nat, mark: Seq<char>, line: Seq<char>) -> Seq<char> {
    Seq::new(
        if dec(n).len() < 6 {
            (6 - dec(n).len()) as nat
        } else {
            0
        },
        |i: int| ' ',
    ) + dec(n) + mark + line + seq!['\n']
}

/// The lines from `from` to `to`, each with its number and a mark.
pub open spec fn rows_shown(l: Seq<Seq<char>>, from: int, to: int, mark: Seq<char>) -> Seq<char> {
    joined(
        Seq::new((to - from) as nat, |i: int| row_shown((from + i + 1) as nat, mark, l[from + i])),
        Seq::empty(),
    )
}

proof fn lemma_rows(l: Seq<Seq<char>>, from: int, to: int, mark: Seq<char>)
    requires
        0 <= from <= to,
    ensures
        rows(l, from, to, mark) == rows_shown(l, from, to, mark),
    decreases to - from,
{
    let parts = Seq::new(
        (to - from) as nat,
        |i: int| row_shown((from + i + 1) as nat, mark, l[from + i]),
    );
    if from < to {
        lemma_rows(l, from, to - 1, mark);
        assert(parts.drop_last() =~= Seq::new(
            (to - 1 - from) as nat,
            |i: int| row_shown((from + i + 1) as nat, mark, l[from + i]),
        ));
        assert(row(l, to - 1, mark) =~= row_shown(to as nat, mark, l[to - 1]));
        assert(parts.last() == row_shown(to as nat, mark, l[to - 1]));
        assert(joined(parts, Seq::empty()) =~= joined(parts.drop_last(), Seq::empty()) + parts.last());
    }
}

proof fn lemma_shared_head(a: Seq<Seq<char>>, b: Seq<Seq<char>>, i: int, h: int)
    requires
        0 <= i <= h <= a.len(),
        h <= b.len(),
        forall|k: int| 0 <= k < h ==> #[trigger] a[k] == b[k],
        h == a.len() || h == b.len() || a[h] != b[h],
    ensures
        shared_head(a, b, i) == h,
    decreases h - i,
{
    if i < h {
        assert(a[i] == b[i]);
        lemma_shared_head(a, b, i + 1, h);
    }
}

proof fn lemma_shared_tail(a: Seq<Seq<char>>, b: Seq<Seq<char>>, k: int, max: int, t: int)
    requires
        0 <= k <= t <= max,
        max <= a.len(),
        max <= b.len(),
        forall|j: int| 0 <= j < t ==> #[trigger] a[a.len() - 1 - j] == b[b.len() - 1 - j],
        t == max || a[a.len() - 1 - t] != b[b.len() - 1 - t],
    ensures
        shared_tail(a, b, k, max) == t,
    decreases t - k,
{
    if k < t {
        assert(a[a.len() - 1 - k] == b[b.len() - 1 - k]);
        lemma_shared_tail(a, b, k + 1, max, t);
    }
}

/// A change of lines between others that stay, at least one of them: what is shown are up to
/// `context` lines in front, then the lines that went with a minus, then those that came with a plus,
/// then up to `context` lines behind, each under its number in the text that it is from.
pub proof fn lemma_change_is_shown(
    old: Seq<char>,
    new: Seq<char>,
    front: Seq<Seq<char>>,
    gone: Seq<Seq<char>>,
    come: Seq<Seq<char>>,
    back: Seq<Seq<char>>,
    context: nat,
)
    requires
        line_bodies(old) == front + gone + back,
        line_bodies(new) == front + come + back,
        gone.len() > 0 || come.len() > 0,
        gone.len() > 0 && come.len() > 0 ==> gone[0] != come[0] && gone.last() != come.last(),
        gone.len() == 0 && back.len() > 0 ==> come[0] != back[0],
        come.len() == 0 && back.len() > 0 ==> gone[0] != back[0],
    ensures
        ({
            let a = line_bodies(old);
            let b = line_bodies(new);
            let h = front.len() as int;
            let from = if h > context {
                h - context
            } else {
                0
            };
            let to = if context < back.len() {
                h + come.len() + context
            } else {
                b.len() as int
            };
            diff_of(old, new, context as int) == trim_end_of(
                rows_shown(a, from, h, "   "@) + rows_shown(a, h, h + gone.len(), " - "@) + rows_shown(
                    b,
                    h,
                    h + come.len(),
                    " + "@,
                ) + rows_shown(b, h + come.len(), to, "   "@),
                '\n',
            )
        }),
{
    let a = line_bodies(old);
    let b = line_bodies(new);
    let h = front.len() as int;
    let t = back.len() as int;
    assert forall|k: int| 0 <= k < h implies #[trigger] a[k] == b[k] by {
        assert(a[k] == front[k]);
    }
    assert(h == a.len() || h == b.len() || a[h] != b[h]) by {
        if gone.len() > 0 {
            assert(a[h] == gone[0]);
        } else if t > 0 {
            assert(a[h] == back[0]);
        }
        if come.len() > 0 {
            assert(b[h] == come[0]);
        } else if t > 0 {
            assert(b[h] == back[0]);
        }
    }
    lemma_shared_head(a, b, 0, h);
    let max = if a.len() <= b.len() {
        a.len() - h
    } else {
        b.len() - h
    };
    assert forall|j: int| 0 <= j < t implies #[trigger] a[a.len() - 1 - j] == b[b.len() - 1 - j] by {
        assert(a[a.len() - 1 - j] == back[t - 1 - j]);
        assert(b[b.len() - 1 - j] == back[t - 1 - j]);
    }
    assert(t == max || a[a.len() - 1 - t] != b[b.len() - 1 - t]) by {
        if gone.len() > 0 && come.len() > 0 {
            assert(a[a.len() - 1 - t] == gone.last());
            assert(b[b.len() - 1 - t] == come.last());
        }
    }
    lemma_shared_tail(a, b, 0, max, t);
    let from = if h > context {
        h - context
    } else {
        0
    };
    let to = if context < t {
        h + come.len() + context
    } else {
        b.len() as int
    };
    lemma_rows(a, from, h, "   "@);
    lemma_rows(a, h, h + gone.len(), " - "@);
    lemma_rows(b, h, h + come.len(), " + "@);
    lemma_rows(b, h + come.len(), to, "   "@);
}

/// Of texts with the same lines no change is shown.
pub proof fn lemma_no_change_is_shown(old: Seq<char>, new: Seq<char>, context: nat)
    requires
        line_bodies(old) == line_bodies(new),
    ensures
        diff_of(old, new, context as int).len() == 0,
{
    let a = line_bodies(old);
    lemma_shared_head(a, a, 0, a.len() as int);
    lemma_shared_tail(a, a, 0, 0, 0);
}

// Line numbers

proof fn lemma_breaks(s: Seq<char>, k: int)
    requires
        0 <= k <= s.len(),
    ensures
        breaks(s, k) + 1 == split_on(s.take(k), '\n').len(),
    decreases k,
{
    if k > 0 {
        lemma_breaks(s, k - 1);
        assert(s.take(k).drop_last() =~= s.take(k - 1));
        assert(s.take(k).last() == s[k - 1]);
        crate::strings::lemma_split_joins_back(s.take(k - 1), '\n');
    } else {
        assert(s.take(0) =~= Seq::<char>::empty());
    }
}

/// The number of the line at a place is that of the lines up to it.
pub proof fn lemma_line_is_numbered(front: Seq<char>, back: Seq<char>)
    ensures
        line_number(front + back, byte_len(front)) == split_on(front, '\n').len(),
{
    let s = front + back;
    let k = front.len() as int;
    assert(s.take(k) =~= front);
    lemma_index_of_offset(s, k);
    lemma_breaks(s, k);
}

/// A place is named by the numbers of its first line and of the line in which it ends, or by one
/// number where these are the same. Its last character has to be one byte long.
pub proof fn lemma_place_is_named(front: Seq<char>, text: Seq<char>, last: char, back: Seq<char>)
    requires
        char_bytes(last) == 1,
    ensures
        ({
            let m = MatchView {
                start: byte_len(front),
                end: byte_len(front + text.push(last)),
                reindent: None,
            };
            let a = split_on(front, '\n').len();
            let b = split_on(front + text, '\n').len();
            match_text(front + text.push(last) + back, m) == if a < b {
                "第 "@ + dec(a) + "-"@ + dec(b) + " 行"@
            } else {
                "第 "@ + dec(a) + " 行"@
            }
        }),
{
    let s = front + text.push(last) + back;
    let whole = front + text.push(last);
    lemma_line_is_numbered(front, text.push(last) + back);
    assert(s =~= front + (text.push(last) + back));
    lemma_line_is_numbered(front + text, seq![last] + back);
    assert(s =~= (front + text) + (seq![last] + back));
    assert(whole =~= (front + text) + seq![last]);
    lemma_encode_concat(front + text, seq![last]);
    lemma_encode_one(last);
    lemma_encode_concat(front, text);
    assert(byte_len(whole) == byte_len(front + text) + 1);
}

// The closest line

/// Whether a text is another one with one character put in, left out or exchanged.
pub open spec fn is_one_edit(a: Seq<char>, b: Seq<char>) -> bool {
    exists|x: Seq<char>, c: Seq<char>, d: Seq<char>, y: Seq<char>|
        is_edit(a, b, x, c, d, y)
}

/// Whether two texts are the same but for at most one character at a place.
pub open spec fn is_edit(
    a: Seq<char>,
    b: Seq<char>,
    x: Seq<char>,
    c: Seq<char>,
    d: Seq<char>,
    y: Seq<char>,
) -> bool {
    c.len() <= 1 && d.len() <= 1 && a == x + c + y && b == x + d + y
}

proof fn lemma_step(a: Seq<char>, b: Seq<char>)
    ensures
        a.len() > 0 ==> distance(a, b) <= distance(a.drop_last(), b) + 1,
        b.len() > 0 ==> distance(a, b) <= distance(a, b.drop_last()) + 1,
        a.len() > 0 ==> distance(a.drop_last(), b) <= distance(a, b) + 1,
        b.len() > 0 ==> distance(a, b.drop_last()) <= distance(a, b) + 1,
        a.len() > 0 && b.len() > 0 ==> distance(a, b) <= distance(a.drop_last(), b.drop_last()) + if a.last()
            == b.last() {
            0nat
        } else {
            1nat
        },
    decreases a.len() + b.len(),
{
    if a.len() > 0 {
        lemma_step(a.drop_last(), b);
    }
    if b.len() > 0 {
        lemma_step(a, b.drop_last());
    }
    if a.len() > 0 && b.len() > 0 {
        lemma_step(a.drop_last(), b.drop_last());
    }
}

proof fn lemma_edit_moves(
    x: Seq<char>,
    c: Seq<char>,
    d: Seq<char>,
    y: Seq<char>,
    b: Seq<char>,
)
    requires
        c.len() <= 1,
        d.len() <= 1,
    ensures
        distance(x + c + y, b) <= distance(x + d + y, b) + 1,
    decreases y.len() + b.len(), y.len(),
{
    let p = x + c + y;
    let q = x + d + y;
    if y.len() == 0 {
        assert(p =~= x + c);
        assert(q =~= x + d);
        lemma_ends_move(x, c, d, b);
    } else {
        let t = y.drop_last();
        assert(p.drop_last() =~= x + c + t);
        assert(q.drop_last() =~= x + d + t);
        assert(p.last() == y.last() && q.last() == y.last());
        lemma_edit_moves(x, c, d, t, b);
        lemma_step(p, b);
        if b.len() > 0 {
            lemma_edit_moves(x, c, d, y, b.drop_last());
            lemma_edit_moves(x, c, d, t, b.drop_last());
        }
    }
}

proof fn lemma_ends_move(x: Seq<char>, c: Seq<char>, d: Seq<char>, b: Seq<char>)
    requires
        c.len() <= 1,
        d.len() <= 1,
    ensures
        distance(x + c, b) <= distance(x + d, b) + 1,
    decreases b.len(),
{
    let p = x + c;
    let q = x + d;
    if c.len() == 0 && d.len() == 0 {
        assert(p =~= q);
    } else if c.len() == 0 {
        assert(p =~= x);
        assert(q.drop_last() =~= x);
        lemma_step(q, b);
    } else if d.len() == 0 {
        assert(q =~= x);
        assert(p.drop_last() =~= x);
        lemma_step(p, b);
    } else {
        assert(p.drop_last() =~= x);
        assert(q.drop_last() =~= x);
        lemma_step(p, b);
        if b.len() > 0 {
            lemma_ends_move(x, c, d, b.drop_last());
            lemma_step(x, b);
        }
    }
}

/// A text is as far from another one as the least number of edits that lead to it: it is at no
/// distance from itself alone, no edit changes the distance by more than one, and from any other text
/// some edit leads one step closer.
pub proof fn lemma_distance_counts_edits(a: Seq<char>, b: Seq<char>)
    ensures
        distance(a, b) == 0 <==> a == b,
        forall|q: Seq<char>|
            #[trigger] is_one_edit(a, q) ==> distance(q, b) <= distance(a, b) + 1 && distance(a, b)
                <= distance(q, b) + 1,
        a != b ==> exists|q: Seq<char>| #[trigger] is_one_edit(a, q) && distance(q, b) + 1 == distance(
            a,
            b,
        ),
{
    lemma_distance_zero(a, b);
    assert forall|q: Seq<char>| #[trigger] is_one_edit(a, q) implies distance(q, b) <= distance(a, b)
        + 1 && distance(a, b) <= distance(q, b) + 1 by {
        let (x, c, d, y) = choose|x: Seq<char>, c: Seq<char>, d: Seq<char>, y: Seq<char>|
            is_edit(a, q, x, c, d, y);
        lemma_edit_moves(x, c, d, y, b);
        lemma_edit_moves(x, d, c, y, b);
    }
    if a != b {
        let q = lemma_closer(a, b);
        assert(is_one_edit(a, q));
        assert(distance(a, b) <= distance(q, b) + 1);
    }
}

proof fn lemma_distance_zero(a: Seq<char>, b: Seq<char>)
    ensures
        distance(a, b) == 0 <==> a == b,
    decreases a.len() + b.len(),
{
    if a.len() == 0 || b.len() == 0 {
        assert(a.len() == 0 && b.len() == 0 ==> a =~= b);
    } else {
        lemma_distance_zero(a.drop_last(), b.drop_last());
        if a.drop_last() == b.drop_last() && a.last() == b.last() {
            assert(a =~= a.drop_last().push(a.last()));
            assert(b =~= b.drop_last().push(b.last()));
        }
    }
}

proof fn lemma_closer(a: Seq<char>, b: Seq<char>) -> (q: Seq<char>)
    requires
        a != b,
    ensures
        is_one_edit(a, q),
        distance(q, b) + 1 <= distance(a, b),
    decreases a.len() + b.len(),
{
    let none = Seq::<char>::empty();
    if b.len() == 0 {
        assert(a.len() > 0) by {
            if a.len() == 0 {
                assert(a =~= b);
            }
        }
        let q = a.drop_last();
        assert(is_edit(a, q, q, seq![a.last()], none, none)) by {
            assert(a =~= q + seq![a.last()] + none);
            assert(q =~= q + none + none);
        }
        q
    } else if a.len() == 0 {
        let q = seq![b.last()];
        assert(is_edit(a, q, none, none, q, none)) by {
            assert(a =~= none + none + none);
            assert(q =~= none + q + none);
        }
        lemma_step(q, b);
        assert(q.drop_last() =~= none);
        assert(q.last() == b.last());
        assert(a =~= none);
        q
    } else if distance(a, b) == distance(a.drop_last(), b) + 1 {
        let q = a.drop_last();
        assert(is_edit(a, q, q, seq![a.last()], none, none)) by {
            assert(a =~= q + seq![a.last()] + none);
            assert(q =~= q + none + none);
        }
        q
    } else if distance(a, b) == distance(a, b.drop_last()) + 1 {
        let q = a.push(b.last());
        assert(is_edit(a, q, a, none, seq![b.last()], none)) by {
            assert(a =~= a + none + none);
            assert(q =~= a + seq![b.last()] + none);
        }
        lemma_step(q, b);
        assert(q.drop_last() =~= a);
        q
    } else if a.last() == b.last() {
        assert(a.drop_last() != b.drop_last()) by {
            if a.drop_last() == b.drop_last() {
                assert(a =~= a.drop_last().push(a.last()));
                assert(b =~= b.drop_last().push(b.last()));
            }
        }
        let r = lemma_closer(a.drop_last(), b.drop_last());
        let (x, c, d, y) = choose|x: Seq<char>, c: Seq<char>, d: Seq<char>, y: Seq<char>|
            is_edit(a.drop_last(), r, x, c, d, y);
        let q = r.push(b.last());
        assert(is_edit(a, q, x, c, d, y.push(b.last()))) by {
            assert(a =~= a.drop_last().push(a.last()));
            assert(a =~= x + c + y.push(b.last()));
            assert(q =~= x + d + y.push(b.last()));
        }
        lemma_step(q, b);
        assert(q.drop_last() =~= r);
        q
    } else {
        let q = a.drop_last().push(b.last());
        assert(is_edit(a, q, a.drop_last(), seq![a.last()], seq![b.last()], none)) by {
            assert(a =~= a.drop_last() + seq![a.last()] + none);
            assert(q =~= a.drop_last() + seq![b.last()] + none);
        }
        lemma_step(q, b);
        assert(q.drop_last() =~= a.drop_last());
        q
    }
}

proof fn lemma_probe(l: Seq<Seq<char>>, i: int, k: int)
    requires
        0 <= i <= k < l.len(),
        trim(l[k]).len() > 0,
        forall|j: int| 0 <= j < k ==> trim(#[trigger] l[j]).len() == 0,
    ensures
        probe_from(l, i) == Some(trim(l[k])),
    decreases k - i,
{
    if i < k {
        assert(trim(l[i]).len() == 0);
        lemma_probe(l, i + 1, k);
    }
}

proof fn lemma_closest(l: Seq<Seq<char>>, probe: Seq<char>, n: int)
    requires
        0 < n <= l.len(),
    ensures
        closest(l, probe, n) matches Some((i, d)) && {
            &&& 0 <= i < n
            &&& d == distance(probe, trim(l[i]))
            &&& forall|j: int| 0 <= j < n ==> d <= distance(probe, trim(#[trigger] l[j]))
            &&& forall|j: int| 0 <= j < i ==> d < distance(probe, trim(#[trigger] l[j]))
        },
    decreases n,
{
    if n > 1 {
        lemma_closest(l, probe, n - 1);
    } else {
        assert(closest(l, probe, 0) is None);
    }
}

/// The line that comes closest to a text that was not found is at the least distance from the first
/// line of that text that is not blank, white space at the ends aside, and the first such one.
pub proof fn lemma_nearest_is_nearest(content: Seq<char>, old: Seq<char>, k: int)
    requires
        line_bodies(content).len() > 0,
        0 <= k < line_bodies(old).len(),
        trim(line_bodies(old)[k]).len() > 0,
        forall|j: int| 0 <= j < k ==> trim(#[trigger] line_bodies(old)[j]).len() == 0,
    ensures
        ({
            let l = line_bodies(content);
            let probe = trim(line_bodies(old)[k]);
            nearest(content, old) matches Some((n, text)) && {
                &&& 1 <= n <= l.len()
                &&& text == l[n - 1]
                &&& forall|j: int|
                    0 <= j < l.len() ==> distance(probe, trim(text)) <= distance(
                        probe,
                        trim(#[trigger] l[j]),
                    )
                &&& forall|j: int|
                    0 <= j < n - 1 ==> distance(probe, trim(text)) < distance(
                        probe,
                        trim(#[trigger] l[j]),
                    )
            }
        }),
{
    let l = line_bodies(content);
    lemma_probe(line_bodies(old), 0, k);
    lemma_closest(l, trim(line_bodies(old)[k]), l.len() as int);
}

/// A text that was not found is answered with the closest line and its number.
pub proof fn lemma_nearest_is_told(display: Seq<char>, content: Seq<char>, old: Seq<char>)
    ensures
        nearest(content, old) matches Some((n, text)) ==> holds(
            not_found_text(display, content, old),
            "第 "@ + dec(n as nat) + " 行："@ + text,
        ),
{
    if let Some((n, text)) = nearest(content, old) {
        let whole = not_found_text(display, content, old);
        let part = "第 "@ + dec(n as nat) + " 行："@ + text;
        let front = "在 "@ + display
            + " 中找不到 old_string：已依次尝试精确匹配、行尾空白无关匹配、缩进归一匹配、块首尾锚点匹配，均未命中。"@;
        let lead = "文件里最接近的一处在第 "@;
        let back = "\n建议：先用 read 重新读取该区域，直接复制真实文本作为 old_string，而不是凭记忆重写。"@;
        reveal_strlit("文件里最接近的一处在第 ");
        reveal_strlit("第 ");
        reveal_strlit("文件里最接近的一处在");
        assert(lead =~= "文件里最接近的一处在"@ + "第 "@);
        let a = front + "文件里最接近的一处在"@;
        assert(whole =~= a + part + back);
        lemma_holds(a, part, back);
    }
}

/// What is said of an edit tells how many places changed, and how.
pub proof fn lemma_edit_is_told(
    display: Seq<char>,
    note: Option<Seq<char>>,
    match_count: nat,
    old: Seq<char>,
    new: Seq<char>,
)
    ensures
        holds(
            edited_text(display, note, match_count, old, new),
            display + " 完成 "@ + dec(match_count) + " 处替换。\n"@,
        ),
        holds(edited_text(display, note, match_count, old, new), diff_of(old, new, 3)),
        note matches Some(n) ==> holds(edited_text(display, note, match_count, old, new), n),
{
    let whole = edited_text(display, note, match_count, old, new);
    let diff = diff_of(old, new, 3);
    let head = match note {
        Some(n) => n + "\n\n"@,
        None => Seq::empty(),
    };
    let part = display + " 完成 "@ + dec(match_count) + " 处替换。\n"@;
    let a = head + "已在 "@;
    let back = if diff.len() == 0 {
        Seq::empty()
    } else {
        seq!['\n'] + diff
    };
    assert(whole =~= a + part + back);
    lemma_holds(a, part, back);
    if diff.len() == 0 {
        assert(diff =~= Seq::<char>::empty());
        assert(whole =~= whole + diff + Seq::<char>::empty());
        lemma_holds(whole, diff, Seq::empty());
    } else {
        let b = a + part + seq!['\n'];
        assert(whole =~= b + diff + Seq::<char>::empty());
        lemma_holds(b, diff, Seq::empty());
    }
    if let Some(n) = note {
        let rest = "\n\n"@ + "已在 "@ + part + back;
        assert(whole =~= Seq::<char>::empty() + n + rest);
        lemma_holds(Seq::empty(), n, rest);
    }
}

/// What is said of a text that stands at several places names the file, how many these are, and each
/// of them.
pub proof fn lemma_each_place_is_told(
    display: Seq<char>,
    content: Seq<char>,
    m: Seq<MatchView>,
    k: int,
)
    requires
        0 <= k < m.len(),
    ensures
        holds(ambiguous_text(display, content, m), display),
        holds(ambiguous_text(display, content, m), dec(m.len()) + " 处："@),
        holds(ambiguous_text(display, content, m), match_text(content, m[k])),
{
    let said = ambiguous_text(display, content, m);
    let count = dec(m.len());
    let places = joined(match_texts(content, m), "；"@);
    let front = "old_string 在 "@ + display + " 中匹配到 "@ + count + " 处："@;
    let rest = said.skip((front + places).len() as int);
    assert(said =~= front + places + rest);
    assert(said =~= "old_string 在 "@ + display + (" 中匹配到 "@ + count + " 处："@ + places + rest));
    assert(said =~= ("old_string 在 "@ + display + " 中匹配到 "@) + (count + " 处："@) + (places + rest));
    let one = match_texts(content, m)[k];
    assert(one =~= Seq::empty() + one + Seq::empty());
    lemma_joined_holds(match_texts(content, m), "；"@, k, one);
    lemma_holds_within(front, places, rest, one);
}

} // verus!
