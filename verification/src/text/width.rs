//! Display width of text that may hold ANSI escape sequences.
//!
//! The width of a character comes from `unicode-width`. Escape sequences take no columns.

use unicode_width::UnicodeWidthChar;
use vstd::prelude::*;

use crate::strings::{chars_of, string_of};

verus! {

broadcast use vstd::seq::group_seq_axioms;

/// The columns that `unicode-width` has in its tables for a character from U+00A0 on.
pub uninterp spec fn table_width(c: char) -> usize;

/// The width that `unicode-width` gives to one character: one column to each that is printable ASCII,
/// none to a control character, and to any other what its tables say.
pub open spec fn given_width(c: char) -> Option<usize> {
    if c >= '\u{a0}' {
        Some(table_width(c))
    } else if ' ' <= c && c <= '~' {
        Some(1)
    } else {
        None
    }
}

/// `UnicodeWidthChar::width` of `unicode-width`. The crate's rules give no character more than 3
/// columns.
#[verifier::external_body]
fn char_width(c: char) -> (w: Option<usize>)
    ensures
        c >= '\u{a0}' ==> w == Some(table_width(c)),
        c < '\u{a0}' ==> w == given_width(c),
        w matches Some(n) ==> n <= 3,
{
    c.width()
}

/// The columns of one character; one without a width takes none.
pub open spec fn char_columns(c: char) -> nat {
    match given_width(c) {
        Some(n) => n as nat,
        None => 0,
    }
}

/// The columns of one character.
fn columns_of(c: char) -> (w: usize)
    ensures
        w == char_columns(c),
        w <= 3,
{
    match char_width(c) {
        Some(n) => n,
        None => 0,
    }
}

/// Where a scan stands with respect to escape sequences.
#[derive(Debug, Clone, Copy, PartialEq, Eq, Structural)]
pub enum Scan {
    /// In plain text.
    Text,
    /// Behind an `ESC`.
    Escape,
    /// In a control sequence, behind `ESC [`.
    Control,
    /// In an operating system command, behind `ESC ]`.
    Command,
    /// In an operating system command, behind the `ESC` that may end it.
    CommandEscape,
}

/// The scan's next state.
pub open spec fn scan_next(st: Scan, c: char) -> Scan {
    match st {
        Scan::Text => if c == '\u{1b}' {
            Scan::Escape
        } else {
            Scan::Text
        },
        Scan::Escape => if c == '[' {
            Scan::Control
        } else if c == ']' {
            Scan::Command
        } else {
            Scan::Text
        },
        Scan::Control => if '@' <= c && c <= '~' {
            Scan::Text
        } else {
            Scan::Control
        },
        Scan::Command => if c == '\u{7}' {
            Scan::Text
        } else if c == '\u{1b}' {
            Scan::CommandEscape
        } else {
            Scan::Command
        },
        Scan::CommandEscape => if c == '\\' {
            Scan::Text
        } else {
            Scan::Command
        },
    }
}

/// The columns that `c` takes when the scan is in state `st`.
pub open spec fn scan_columns(st: Scan, c: char) -> nat {
    if st == Scan::Text && c != '\u{1b}' {
        char_columns(c)
    } else {
        0
    }
}

/// The columns of `s` when its scan starts in state `st`.
pub open spec fn columns_from(st: Scan, s: Seq<char>) -> nat
    decreases s.len(),
{
    if s.len() == 0 {
        0
    } else {
        scan_columns(st, s[0]) + columns_from(scan_next(st, s[0]), s.drop_first())
    }
}

/// The columns that `s` takes on a terminal.
pub open spec fn columns(s: Seq<char>) -> nat {
    columns_from(Scan::Text, s)
}

/// The longest prefix of `s` that takes at most `budget` columns, the scan starting in `st`.
pub open spec fn fitting_from(st: Scan, s: Seq<char>, budget: nat) -> Seq<char>
    decreases s.len(),
{
    if s.len() == 0 || scan_columns(st, s[0]) > budget {
        Seq::empty()
    } else {
        seq![s[0]] + fitting_from(
            scan_next(st, s[0]),
            s.drop_first(),
            (budget - scan_columns(st, s[0])) as nat,
        )
    }
}

/// The longest prefix of `s` that takes at most `budget` columns.
pub open spec fn fitting(s: Seq<char>, budget: nat) -> Seq<char> {
    fitting_from(Scan::Text, s, budget)
}

/// `s` cut to `max` columns: text that fits stays as it is, other text gives way to `ellipsis`.
/// With no columns at all nothing is shown, not even the ellipsis.
pub open spec fn truncated_to_width(s: Seq<char>, max: nat, ellipsis: Seq<char>) -> Seq<char> {
    if max == 0 {
        Seq::empty()
    } else if columns(s) <= max {
        s
    } else if columns(ellipsis) <= max {
        fitting(s, (max - columns(ellipsis)) as nat) + ellipsis
    } else {
        fitting(s, 0)
    }
}

/// The fitting prefix fits, is a prefix, and is the whole text exactly when the text fits.
pub proof fn lemma_fitting(st: Scan, s: Seq<char>, budget: nat)
    ensures
        fitting_from(st, s, budget).len() <= s.len(),
        fitting_from(st, s, budget) == s.take(fitting_from(st, s, budget).len() as int),
        columns_from(st, fitting_from(st, s, budget)) <= budget,
        columns_from(st, s) <= budget ==> fitting_from(st, s, budget) == s,
        columns_from(st, s) > budget ==> fitting_from(st, s, budget).len() < s.len(),
    decreases s.len(),
{
    let r = fitting_from(st, s, budget);
    if s.len() == 0 {
        assert(s.take(0) =~= s);
    } else if scan_columns(st, s[0]) > budget {
        assert(s.take(0) =~= Seq::<char>::empty());
    } else {
        let rest = s.drop_first();
        let left = (budget - scan_columns(st, s[0])) as nat;
        let t = fitting_from(scan_next(st, s[0]), rest, left);
        lemma_fitting(scan_next(st, s[0]), rest, left);
        assert(r.drop_first() =~= t);
        assert(s.take(r.len() as int) =~= seq![s[0]] + rest.take(t.len() as int));
        assert(seq![s[0]] + rest =~= s);
    }
}

/// The prefix that `fitting_from` keeps is the longest: one character more does not fit.
pub proof fn lemma_fitting_is_longest(st: Scan, s: Seq<char>, budget: nat, k: int)
    requires
        fitting_from(st, s, budget).len() < k <= s.len(),
    ensures
        columns_from(st, s.take(k)) > budget,
    decreases s.len(),
{
    assert(s.take(k)[0] == s[0]);
    assert(s.take(k).drop_first() =~= s.drop_first().take(k - 1));
    if scan_columns(st, s[0]) <= budget {
        lemma_fitting_is_longest(
            scan_next(st, s[0]),
            s.drop_first(),
            (budget - scan_columns(st, s[0])) as nat,
            k - 1,
        );
    }
}

/// The next state of the scan and the columns of `c`.
pub fn scan_step(st: Scan, c: char) -> (r: (Scan, usize))
    ensures
        r.0 == scan_next(st, c),
        r.1 == scan_columns(st, c),
        r.1 <= 3,
{
    match st {
        Scan::Text => if c == '\u{1b}' {
            (Scan::Escape, 0)
        } else {
            (Scan::Text, columns_of(c))
        },
        Scan::Escape => if c == '[' {
            (Scan::Control, 0)
        } else if c == ']' {
            (Scan::Command, 0)
        } else {
            (Scan::Text, 0)
        },
        Scan::Control => if '@' <= c && c <= '~' {
            (Scan::Text, 0)
        } else {
            (Scan::Control, 0)
        },
        Scan::Command => if c == '\u{7}' {
            (Scan::Text, 0)
        } else if c == '\u{1b}' {
            (Scan::CommandEscape, 0)
        } else {
            (Scan::Command, 0)
        },
        Scan::CommandEscape => if c == '\\' {
            (Scan::Text, 0)
        } else {
            (Scan::Command, 0)
        },
    }
}

/// How many leading characters of `s` take at most `budget` columns, and how many columns
/// those take.
fn fitting_len(s: &[char], budget: usize) -> (r: (usize, usize))
    ensures
        r.0 == fitting(s@, budget as nat).len(),
        r.0 <= s@.len(),
        r.1 == columns(fitting(s@, budget as nat)),
        r.1 <= budget,
{
    let mut st = Scan::Text;
    let mut left: usize = budget;
    let mut i: usize = 0;
    proof {
        assert(s@.skip(0) =~= s@);
        assert(s@.take(0) =~= Seq::<char>::empty());
        lemma_fitting(Scan::Text, s@, budget as nat);
    }
    while i < s.len()
        invariant
            i <= s@.len(),
            left <= budget,
            fitting(s@, budget as nat) == s@.take(i as int) + fitting_from(
                st,
                s@.skip(i as int),
                left as nat,
            ),
            columns(fitting(s@, budget as nat)) == (budget - left) + columns_from(
                st,
                fitting_from(st, s@.skip(i as int), left as nat),
            ),
        decreases s@.len() - i,
    {
        let (next, w) = scan_step(st, s[i]);
        let ghost rest = s@.skip(i as int);
        assert(rest[0] == s@[i as int]);
        if w > left {
            assert(s@.take(i as int) + Seq::<char>::empty() =~= s@.take(i as int));
            return (i, budget - left);
        }
        proof {
            let t = fitting_from(next, rest.drop_first(), (left - w) as nat);
            let f = fitting_from(st, rest, left as nat);
            assert(rest.drop_first() =~= s@.skip(i + 1));
            assert(f.drop_first() =~= t);
            assert(f[0] == rest[0]);
            assert(s@.take(i as int) + f =~= s@.take(i + 1) + t);
        }
        st = next;
        left -= w;
        i += 1;
    }
    assert(s@.skip(i as int) =~= Seq::<char>::empty());
    assert(s@.take(i as int) + Seq::<char>::empty() =~= s@.take(i as int));
    (i, budget - left)
}

/// Whether `s` takes more than `limit` columns; the first part is how many it takes, or `limit`
/// where it takes more.
pub fn visible_width_up_to(s: &str, limit: usize) -> (r: (usize, bool))
    ensures
        r.1 == (columns(s@) > limit),
        r.0 == if columns(s@) > limit {
            limit as nat
        } else {
            columns(s@)
        },
{
    let v = chars_of(s);
    let (k, w) = fitting_len(v.as_slice(), limit);
    proof {
        lemma_fitting(Scan::Text, s@, limit as nat);
    }
    if k < v.len() {
        (limit, true)
    } else {
        (w, false)
    }
}

/// The columns that `s` takes on a terminal.
pub fn visible_width(s: &str) -> (w: usize)
    ensures
        w == if columns(s@) > usize::MAX {
            usize::MAX as nat
        } else {
            columns(s@)
        },
{
    visible_width_up_to(s, usize::MAX).0
}

/// Cuts `s` to `max` columns, with `ellipsis` behind what is left of a text that does not fit.
pub fn truncate_to_width(s: &str, max: usize, ellipsis: &str) -> (r: String)
    ensures
        r@ == truncated_to_width(s@, max as nat, ellipsis@),
{
    if max == 0 {
        return String::new();
    }
    let v = chars_of(s);
    let (k, w) = fitting_len(v.as_slice(), max);
    proof {
        lemma_fitting(Scan::Text, s@, max as nat);
    }
    if k == v.len() {
        return s.to_owned();
    }
    let (mark, over) = visible_width_up_to(ellipsis, max);
    let budget: usize = if over {
        0
    } else {
        max - mark
    };
    let (keep, used) = fitting_len(v.as_slice(), budget);
    proof {
        lemma_fitting(Scan::Text, s@, budget as nat);
    }
    let mut out = string_of(vstd::slice::slice_subrange(v.as_slice(), 0, keep));
    assert(out@ =~= fitting(s@, budget as nat));
    if !over {
        out.append(ellipsis);
    }
    out
}

/// Text cut to `max` columns takes at most `max` columns, whatever escape sequence the cut may
/// fall into: an ellipsis without an escape character never takes more columns there than alone.
pub proof fn lemma_truncated_fits(s: Seq<char>, max: nat, ellipsis: Seq<char>)
    requires
        !ellipsis.contains('\u{1b}'),
    ensures
        columns(truncated_to_width(s, max, ellipsis)) <= max,
{
    if max > 0 && columns(s) > max {
        if columns(ellipsis) <= max {
            let budget = (max - columns(ellipsis)) as nat;
            lemma_fitting(Scan::Text, s, budget);
            assert forall|i: int| 0 <= i < ellipsis.len() implies ellipsis[i] != '\u{1b}' by {
                assert(ellipsis.contains(ellipsis[i]));
            }
            lemma_append_columns(Scan::Text, fitting(s, budget), ellipsis);
        } else {
            lemma_fitting(Scan::Text, s, 0);
        }
    }
}

/// Text without an escape character adds at most its own columns to what stands before it.
proof fn lemma_append_columns(st: Scan, a: Seq<char>, b: Seq<char>)
    requires
        forall|i: int| 0 <= i < b.len() ==> b[i] != '\u{1b}',
    ensures
        columns_from(st, a + b) <= columns_from(st, a) + columns(b),
    decreases a.len(),
{
    if a.len() == 0 {
        assert(a + b =~= b);
        lemma_plain_columns_at_most(st, b);
    } else {
        assert((a + b).drop_first() =~= a.drop_first() + b);
        lemma_append_columns(scan_next(st, a[0]), a.drop_first(), b);
    }
}

proof fn lemma_plain_columns_at_most(st: Scan, b: Seq<char>)
    requires
        forall|i: int| 0 <= i < b.len() ==> b[i] != '\u{1b}',
    ensures
        columns_from(st, b) <= columns(b),
    decreases b.len(),
{
    if b.len() > 0 {
        lemma_plain_columns_at_most(scan_next(st, b[0]), b.drop_first());
    }
}

/// Behind plain text the scan is in plain text again, so columns add up.
pub proof fn lemma_plain_columns(a: Seq<char>, b: Seq<char>)
    requires
        forall|i: int| 0 <= i < a.len() ==> a[i] != '\u{1b}',
    ensures
        columns(a + b) == columns(a) + columns(b),
    decreases a.len(),
{
    if a.len() == 0 {
        assert(a + b =~= b);
    } else {
        assert((a + b).drop_first() =~= a.drop_first() + b);
        lemma_plain_columns(a.drop_first(), b);
    }
}

/// The state of the scan behind `s`.
pub open spec fn scan_after(st: Scan, s: Seq<char>) -> Scan
    decreases s.len(),
{
    if s.len() == 0 {
        st
    } else {
        scan_after(scan_next(st, s[0]), s.drop_first())
    }
}

/// How columns and fitting prefixes of a concatenation come from its parts.
pub proof fn lemma_concat(st: Scan, a: Seq<char>, b: Seq<char>, budget: nat)
    ensures
        columns_from(st, a + b) == columns_from(st, a) + columns_from(scan_after(st, a), b),
        columns_from(st, a) > budget ==> fitting_from(st, a + b, budget) == fitting_from(
            st,
            a,
            budget,
        ),
        columns_from(st, a) <= budget ==> fitting_from(st, a + b, budget) == a + fitting_from(
            scan_after(st, a),
            b,
            (budget - columns_from(st, a)) as nat,
        ),
    decreases a.len(),
{
    if a.len() == 0 {
        assert(a + b =~= b);
        assert(a + fitting_from(st, b, budget) =~= fitting_from(st, b, budget));
    } else {
        assert((a + b).drop_first() =~= a.drop_first() + b);
        assert((a + b)[0] == a[0]);
        let w = scan_columns(st, a[0]);
        if w <= budget {
            lemma_concat(scan_next(st, a[0]), a.drop_first(), b, (budget - w) as nat);
            if columns_from(st, a) <= budget {
                let t = fitting_from(
                    scan_after(st, a),
                    b,
                    (budget - columns_from(st, a)) as nat,
                );
                assert(seq![a[0]] + (a.drop_first() + t) =~= a + t);
            }
        } else {
            lemma_concat(scan_next(st, a[0]), a.drop_first(), b, 0);
        }
    }
}

} // verus!
