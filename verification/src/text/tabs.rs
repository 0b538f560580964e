//! Tab characters as spaces.

use vstd::prelude::*;

use crate::strings::chars_of;
use crate::text::width::{scan_columns, scan_next, scan_step, Scan};

verus! {

broadcast use vstd::seq::group_seq_axioms;

/// How many columns lie between two tab stops.
pub const TAB_STOP: usize = 8;

/// How many columns lie between a column and the next tab stop.
pub open spec fn to_stop(column: nat) -> nat {
    (TAB_STOP - column % (TAB_STOP as nat)) as nat
}

/// `n` spaces.
pub open spec fn spaces(n: nat) -> Seq<char> {
    Seq::new(n, |i: int| ' ')
}

/// `s` with its tab characters as spaces, where `s` starts in a column and its scan in a state.
pub open spec fn expanded_from(st: Scan, column: nat, s: Seq<char>) -> Seq<char>
    decreases s.len(),
{
    if s.len() == 0 {
        s
    } else if s[0] == '\t' {
        spaces(to_stop(column)) + expanded_from(
            scan_next(st, '\t'),
            column + to_stop(column),
            s.drop_first(),
        )
    } else if s[0] == '\n' {
        seq!['\n'] + expanded_from(scan_next(st, '\n'), 0, s.drop_first())
    } else {
        seq![s[0]] + expanded_from(
            scan_next(st, s[0]),
            column + scan_columns(st, s[0]),
            s.drop_first(),
        )
    }
}

/// `s` with its tab characters as spaces up to the next tab stop.
pub open spec fn expanded(s: Seq<char>) -> Seq<char> {
    expanded_from(Scan::Text, 0, s)
}

/// Adds `n` spaces.
fn push_spaces(out: &mut String, n: usize)
    ensures
        final(out)@ == old(out)@ + spaces(n as nat),
{
    let mut i: usize = 0;
    assert(out@ =~= old(out)@ + spaces(0));
    while i < n
        invariant
            i <= n,
            out@ == old(out)@ + spaces(i as nat),
        decreases n - i,
    {
        out.push(' ');
        i += 1;
        assert(out@ =~= old(out)@ + spaces(i as nat));
    }
}

/// Puts spaces in the place of tab characters, up to the next tab stop.
pub fn expand_tabs(s: &str) -> (r: String)
    ensures
        r@ == expanded(s@),
{
    let letters = chars_of(s);
    let n: usize = letters.len();
    let mut r = String::new();
    let mut st = Scan::Text;
    // The column is known up to whole tab stops.
    let mut column: usize = 0;
    let ghost mut exact: nat = 0;
    let mut i: usize = 0;
    assert(letters@.skip(0) =~= letters@);
    assert(r@ + expanded(s@) =~= expanded(s@));
    while i < n
        invariant
            i <= n,
            n == letters@.len(),
            column < TAB_STOP,
            column == exact % (TAB_STOP as nat),
            r@ + expanded_from(st, exact, letters@.skip(i as int)) == expanded(s@),
        decreases n - i,
    {
        let c = letters[i];
        let ghost rest = letters@.skip(i as int);
        let ghost before = r@;
        let ghost after = rest.drop_first();
        assert(rest[0] == c);
        assert(after =~= letters@.skip(i + 1));
        let (next, width) = scan_step(st, c);
        if c == '\t' {
            push_spaces(&mut r, TAB_STOP - column);
            proof {
                let more = expanded_from(next, exact + to_stop(exact), after);
                assert(before + (spaces(to_stop(exact)) + more) =~= r@ + more);
                exact = exact + to_stop(exact);
            }
            column = 0;
        } else if c == '\n' {
            r.push('\n');
            proof {
                let more = expanded_from(next, 0, after);
                assert(before + (seq!['\n'] + more) =~= r@ + more);
                exact = 0;
            }
            column = 0;
        } else {
            r.push(c);
            proof {
                let more = expanded_from(next, exact + scan_columns(st, c), after);
                assert(before + (seq![c] + more) =~= r@ + more);
                exact = exact + scan_columns(st, c);
            }
            column = (column + width) % TAB_STOP;
        }
        st = next;
        i += 1;
    }
    assert(letters@.skip(n as int) =~= Seq::<char>::empty());
    assert(r@ + Seq::<char>::empty() =~= r@);
    r
}

proof fn lemma_no_tab_from(st: Scan, column: nat, s: Seq<char>)
    ensures
        !expanded_from(st, column, s).contains('\t'),
    decreases s.len(),
{
    if s.len() > 0 {
        let (front, next, at) = if s[0] == '\t' {
            (spaces(to_stop(column)), scan_next(st, '\t'), column + to_stop(column))
        } else if s[0] == '\n' {
            (seq!['\n'], scan_next(st, '\n'), 0)
        } else {
            (seq![s[0]], scan_next(st, s[0]), column + scan_columns(st, s[0]))
        };
        let rest = expanded_from(next, at, s.drop_first());
        lemma_no_tab_from(next, at, s.drop_first());
        assert(expanded_from(st, column, s) =~= front + rest);
        assert forall|i: int| 0 <= i < (front + rest).len() implies (front + rest)[i] != '\t' by {
            if i >= front.len() {
                assert((front + rest)[i] == rest[i - front.len()]);
                assert(rest.contains(rest[i - front.len()]));
            }
        }
    }
}

/// No tab character is left.
pub proof fn lemma_no_tab_left(s: Seq<char>)
    ensures
        !expanded(s).contains('\t'),
{
    lemma_no_tab_from(Scan::Text, 0, s);
}

proof fn lemma_without_tabs_from(st: Scan, column: nat, s: Seq<char>)
    requires
        !s.contains('\t'),
    ensures
        expanded_from(st, column, s) == s,
    decreases s.len(),
{
    if s.len() > 0 {
        assert(s.contains(s[0]));
        assert(!s.drop_first().contains('\t')) by {
            assert forall|i: int| 0 <= i < s.drop_first().len() implies s.drop_first()[i]
                != '\t' by {
                assert(s.contains(s[i + 1]));
            }
        }
        let (next, at) = if s[0] == '\n' {
            (scan_next(st, '\n'), 0)
        } else {
            (scan_next(st, s[0]), column + scan_columns(st, s[0]))
        };
        lemma_without_tabs_from(next, at, s.drop_first());
        assert(s =~= seq![s[0]] + s.drop_first());
    }
}

/// Text without tab characters stays as it is.
pub proof fn lemma_without_tabs(s: Seq<char>)
    requires
        !s.contains('\t'),
    ensures
        expanded(s) == s,
{
    lemma_without_tabs_from(Scan::Text, 0, s);
}

} // verus!
