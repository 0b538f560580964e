//! What text looks like on a terminal: escape sequences, tab stops, and paths in the home directory.

use vstd::prelude::*;

use crate::strings::{lacks, trim_end_of};
use crate::text::path::{below, home_prefix, normalized, same_char, same_path, shortened, PathCase};
use crate::text::tabs::{expanded, expanded_from, spaces, to_stop};
use crate::text::width::{
    columns, columns_from, fitting, lemma_fitting, lemma_fitting_is_longest, scan_columns, scan_next,
    truncated_to_width, Scan,
};

verus! {

broadcast use vstd::seq::group_seq_axioms;

// Escape sequences

proof fn lemma_control_is_hidden(params: Seq<char>, end: char, rest: Seq<char>)
    requires
        forall|i: int| 0 <= i < params.len() ==> !('@' <= #[trigger] params[i] && params[i] <= '~'),
        '@' <= end && end <= '~',
    ensures
        columns_from(Scan::Control, params + seq![end] + rest) == columns(rest),
    decreases params.len(),
{
    let s = params + seq![end] + rest;
    if params.len() == 0 {
        assert(s[0] == end);
        assert(s.drop_first() =~= rest);
    } else {
        let t = params.drop_first();
        assert(s[0] == params[0]);
        assert(s.drop_first() =~= t + seq![end] + rest);
        assert forall|i: int| 0 <= i < t.len() implies !('@' <= #[trigger] t[i] && t[i] <= '~') by {
            assert(t[i] == params[i + 1]);
        }
        lemma_control_is_hidden(t, end, rest);
    }
}

proof fn lemma_command_is_hidden(body: Seq<char>, rest: Seq<char>)
    requires
        lacks(body, '\u{7}'),
        lacks(body, '\u{1b}'),
    ensures
        columns_from(Scan::Command, body + seq!['\u{7}'] + rest) == columns(rest),
    decreases body.len(),
{
    let s = body + seq!['\u{7}'] + rest;
    if body.len() == 0 {
        assert(s[0] == '\u{7}');
        assert(s.drop_first() =~= rest);
    } else {
        let t = body.drop_first();
        assert(s[0] == body[0]);
        assert(s.drop_first() =~= t + seq!['\u{7}'] + rest);
        assert forall|i: int| 0 <= i < t.len() implies t[i] != '\u{7}' && t[i] != '\u{1b}' by {
            assert(t[i] == body[i + 1]);
        }
        lemma_command_is_hidden(t, rest);
    }
}

/// An escape sequence takes no columns: neither one of `ESC [`, parameters and a letter, as colours are
/// written, nor one of `ESC ]` and text up to a bell, as titles and links are.
pub proof fn lemma_escape_takes_no_columns(
    params: Seq<char>,
    end: char,
    body: Seq<char>,
    rest: Seq<char>,
)
    requires
        forall|i: int| 0 <= i < params.len() ==> !('@' <= #[trigger] params[i] && params[i] <= '~'),
        '@' <= end && end <= '~',
        lacks(body, '\u{7}'),
        lacks(body, '\u{1b}'),
    ensures
        columns(seq!['\u{1b}', '['] + (params + seq![end] + rest)) == columns(rest),
        columns(seq!['\u{1b}', ']'] + (body + seq!['\u{7}'] + rest)) == columns(rest),
{
    let a = params + seq![end] + rest;
    let s = seq!['\u{1b}', '['] + a;
    let s1 = s.drop_first();
    lemma_control_is_hidden(params, end, rest);
    assert(s[0] == '\u{1b}');
    assert(s1[0] == '[');
    assert(s1.drop_first() =~= a);
    assert(columns_from(Scan::Escape, s1) == columns_from(Scan::Control, a));
    let b = body + seq!['\u{7}'] + rest;
    let t = seq!['\u{1b}', ']'] + b;
    let t1 = t.drop_first();
    lemma_command_is_hidden(body, rest);
    assert(t[0] == '\u{1b}');
    assert(t1[0] == ']');
    assert(t1.drop_first() =~= b);
    assert(columns_from(Scan::Escape, t1) == columns_from(Scan::Command, b));
}

// Tab stops

/// The state of a scan behind a text.
pub open spec fn state_behind(st: Scan, s: Seq<char>) -> Scan
    decreases s.len(),
{
    if s.len() == 0 {
        st
    } else {
        state_behind(scan_next(st, s[0]), s.drop_first())
    }
}

proof fn lemma_plain_goes_on(st: Scan, column: nat, a: Seq<char>, b: Seq<char>)
    requires
        lacks(a, '\t'),
        lacks(a, '\n'),
    ensures
        expanded_from(st, column, a + b) == a + expanded_from(
            state_behind(st, a),
            column + columns_from(st, a),
            b,
        ),
    decreases a.len(),
{
    let s = a + b;
    if a.len() == 0 {
        assert(s =~= b);
        assert(a + expanded_from(st, column, b) =~= expanded_from(st, column, b));
    } else {
        let t = a.drop_first();
        assert(s[0] == a[0]);
        assert(s.drop_first() =~= t + b);
        assert forall|i: int| 0 <= i < t.len() implies t[i] != '\t' && t[i] != '\n' by {
            assert(t[i] == a[i + 1]);
        }
        let next = scan_next(st, a[0]);
        let at = column + scan_columns(st, a[0]);
        lemma_plain_goes_on(next, at, t, b);
        let rest = expanded_from(
            state_behind(next, t),
            at + columns_from(next, t),
            b,
        );
        assert(seq![a[0]] + (t + rest) =~= a + rest);
    }
}

/// A tab at a column of a line becomes spaces up to the next column that eight divides, at least one
/// and at most eight of them; what stands in front of it stays.
pub proof fn lemma_tab_leads_to_a_stop(a: Seq<char>, b: Seq<char>)
    requires
        lacks(a, '\t'),
        lacks(a, '\n'),
    ensures
        ({
            let n = (8 - columns(a) % 8) as nat;
            let front = a + Seq::new(n, |i: int| ' ');
            let whole = expanded(a.push('\t') + b);
            &&& 1 <= n <= 8
            &&& (columns(a) + n) % 8 == 0
            &&& whole.len() >= front.len()
            &&& whole.take(front.len() as int) == front
        }),
{
    let s = a.push('\t') + b;
    let tail = seq!['\t'] + b;
    assert(s =~= a + tail);
    lemma_plain_goes_on(Scan::Text, 0, a, tail);
    let n = (8 - columns(a) % 8) as nat;
    assert(to_stop(columns(a)) == n);
    assert(tail[0] == '\t');
    let whole = expanded(s);
    let front = a + Seq::new(n, |i: int| ' ');
    assert(spaces(n) =~= Seq::new(n, |i: int| ' '));
    let st = state_behind(Scan::Text, a);
    let rest = expanded_from(scan_next(st, '\t'), columns(a) + n, tail.drop_first());
    assert(whole =~= front + rest);
    assert(whole.take(front.len() as int) =~= front);
}

/// A line break starts a line anew: the lines of a text whose first line ends outside an escape
/// sequence are expanded each for itself.
pub proof fn lemma_lines_are_expanded_apart(a: Seq<char>, b: Seq<char>)
    requires
        lacks(a, '\t'),
        lacks(a, '\n'),
        state_behind(Scan::Text, a) == Scan::Text,
    ensures
        expanded(a.push('\n') + b) == a.push('\n') + expanded(b),
{
    let s = a.push('\n') + b;
    let tail = seq!['\n'] + b;
    assert(s =~= a + tail);
    lemma_plain_goes_on(Scan::Text, 0, a, tail);
    assert(tail[0] == '\n');
    assert(tail.drop_first() =~= b);
    assert(a + (seq!['\n'] + expanded(b)) =~= a.push('\n') + expanded(b));
}

// Paths

/// A path below the home directory is shown behind a tilde in its place, and one that is neither there
/// nor the directory itself as it is, but for the separators.
pub proof fn lemma_home_is_abbreviated(home: Seq<char>, rest: Seq<char>, other: Seq<char>, case: PathCase)
    requires
        home.len() > 0,
        normalized(home) == home,
        home.last() != '/',
        normalized(rest) == rest,
        rest.len() > 0,
        rest.last() != '/',
        !same_path(trim_end_of(normalized(other), '/'), home, case),
        !below(normalized(other), home, case),
    ensures
        shortened(home.push('/') + rest, Some(home), case) == seq!['~', '/'] + rest,
        shortened(other, Some(home), case) == normalized(other),
        shortened(other, None, case) == normalized(other),
{
    assert(home_prefix(home) == home);
    let p = home.push('/') + rest;
    assert forall|i: int| 0 <= i < p.len() implies normalized(p)[i] == p[i] by {
        if i < home.len() {
            assert(normalized(home)[i] == home[i]);
        } else if i > home.len() {
            assert(normalized(rest)[i - home.len() - 1] == rest[i - home.len() - 1]);
        }
    }
    assert(normalized(p) =~= p);
    assert(p.last() == rest.last());
    assert(trim_end_of(p, '/') == p);
    let n = home.len() as int;
    assert(p.take(n) =~= home);
    assert forall|i: int| 0 <= i < home.len() implies same_char(#[trigger] p.take(n)[i], home[i], case) by {}
    assert(below(p, home, case));
    assert(seq!['~'] + p.skip(n) =~= seq!['~', '/'] + rest);
}

proof fn lemma_trimmed_is_longer(s: Seq<char>, k: int)
    requires
        0 <= k < s.len(),
        s[k] != '/',
    ensures
        trim_end_of(s, '/').len() > k,
    decreases s.len(),
{
    if s.last() == '/' {
        lemma_trimmed_is_longer(s.drop_last(), k);
    }
}

/// A path whose name only starts like that of the home directory is not below it.
pub proof fn lemma_neighbour_is_not_home(home: Seq<char>, c: char, rest: Seq<char>, case: PathCase)
    requires
        home.len() > 0,
        normalized(home) == home,
        home.last() != '/',
        c != '/',
        c != '\\',
    ensures
        shortened(home.push(c) + rest, Some(home), case) == normalized(home.push(c) + rest),
{
    assert(home_prefix(home) == home);
    let p = normalized(home.push(c) + rest);
    let n = home.len() as int;
    assert(p[n] == c);
    lemma_trimmed_is_longer(p, n);
}

/// Whether two texts are the same but for the case of letters from A to Z.
pub open spec fn are_alike(a: Seq<char>, b: Seq<char>) -> bool {
    &&& a.len() == b.len()
    &&& forall|i: int|
        0 <= i < a.len() ==> {
            ||| #[trigger] a[i] == b[i]
            ||| 'A' <= a[i] && a[i] <= 'Z' && b[i] as u32 == a[i] as u32 + 32
            ||| 'A' <= b[i] && b[i] <= 'Z' && a[i] as u32 == b[i] as u32 + 32
        }
}

/// Texts that are the same but for the case of letters are the same path where that makes no difference.
pub proof fn lemma_alike_is_same(a: Seq<char>, b: Seq<char>)
    requires
        are_alike(a, b),
    ensures
        same_path(a, b, PathCase::Insensitive),
{
    assert forall|i: int| 0 <= i < a.len() implies same_char(
        #[trigger] a[i],
        b[i],
        PathCase::Insensitive,
    ) by {
        assert(a[i] == b[i] || 'A' <= a[i] && a[i] <= 'Z' && b[i] as u32 == a[i] as u32 + 32 || 'A'
            <= b[i] && b[i] <= 'Z' && a[i] as u32 == b[i] as u32 + 32);
    }
}

/// Where the case of letters makes no difference, a home directory is the same in other letters, and
/// where it makes one, it is not.
pub proof fn lemma_home_in_other_letters(home: Seq<char>, other: Seq<char>, rest: Seq<char>)
    requires
        home.len() > 0,
        normalized(home) == home,
        home.last() != '/',
        normalized(other) == other,
        are_alike(other, home),
        normalized(rest) == rest,
        rest.len() > 0,
        rest.last() != '/',
    ensures
        shortened(other.push('/') + rest, Some(home), PathCase::Insensitive) == seq!['~', '/'] + rest,
        other != home ==> shortened(other.push('/') + rest, Some(home), PathCase::Sensitive)
            == other.push('/') + rest,
{
    assert(home_prefix(home) == home);
    let p = other.push('/') + rest;
    assert forall|i: int| 0 <= i < p.len() implies normalized(p)[i] == p[i] by {
        if i < other.len() {
            assert(normalized(other)[i] == other[i]);
        } else if i > other.len() {
            assert(normalized(rest)[i - other.len() - 1] == rest[i - other.len() - 1]);
        }
    }
    assert(normalized(p) =~= p);
    assert(p.last() == rest.last());
    assert(trim_end_of(p, '/') == p);
    let n = home.len() as int;
    assert(p.take(n) =~= other);
    lemma_alike_is_same(other, home);
    assert(seq!['~'] + p.skip(n) =~= seq!['~', '/'] + rest);
    if other != home {
        assert(!same_path(other, home, PathCase::Sensitive)) by {
            if same_path(other, home, PathCase::Sensitive) {
                assert forall|i: int| 0 <= i < n implies other[i] == home[i] by {
                    assert(same_char(other[i], home[i], PathCase::Sensitive));
                }
                assert(other =~= home);
            }
        }
    }
}

/// A path is shown with slashes only.
pub proof fn lemma_path_is_shown_with_slashes(path: Seq<char>, home: Option<Seq<char>>, case: PathCase)
    ensures
        lacks(shortened(path, home, case), '\\'),
        home is None ==> shortened(path, home, case).len() == path.len() && forall|i: int|
            0 <= i < path.len() ==> #[trigger] shortened(path, home, case)[i] == if path[i] == '\\' {
                '/'
            } else {
                path[i]
            },
{
    let p = normalized(path);
    let s = shortened(path, home, case);
    assert forall|i: int| 0 <= i < s.len() implies s[i] != '\\' by {
        if s != p && s.len() > 1 && i > 0 {
            assert(s[i] == p[i - 1 + (p.len() - (s.len() - 1))]);
        }
    }
}

// Lines that are too wide

/// A text that fits stays as it is; of one that is too wide, as much of its start is left as there is
/// room for beside the mark that stands for the rest.
pub proof fn lemma_wide_text_is_cut(s: Seq<char>, max: nat, ellipsis: Seq<char>)
    requires
        max > 0,
    ensures
        columns(s) <= max ==> truncated_to_width(s, max, ellipsis) == s,
        columns(s) > max && columns(ellipsis) <= max ==> exists|n: int|
            {
                &&& 0 <= n < s.len()
                &&& truncated_to_width(s, max, ellipsis) == #[trigger] s.take(n) + ellipsis
                &&& columns(s.take(n)) + columns(ellipsis) <= max
                &&& forall|k: int|
                    n < k <= s.len() ==> columns(#[trigger] s.take(k)) + columns(ellipsis) > max
            },
{
    if columns(s) > max && columns(ellipsis) <= max {
        let room = (max - columns(ellipsis)) as nat;
        lemma_fitting(Scan::Text, s, room);
        let n = fitting(s, room).len() as int;
        assert(truncated_to_width(s, max, ellipsis) == s.take(n) + ellipsis);
        assert forall|k: int| n < k <= s.len() implies columns(#[trigger] s.take(k)) + columns(ellipsis)
            > max by {
            lemma_fitting_is_longest(Scan::Text, s, room, k);
        }
    }
}

} // verus!
