//! What a search keeps of what it finds.

use vstd::prelude::*;

use crate::globs::rule_error;
use crate::strings::lacks;
use crate::text::grep::{
    admitted, first_problem, has_break, kept_line, rules_of, stopped, without_break, GrepLimits,
    LineMatchView, SearchState,
};
use crate::text::width::columns;
use crate::utf8::lossy;

verus! {

broadcast use vstd::seq::group_seq_axioms;

/// A line that matches is kept under its own number and place, without the line break at its end, and
/// whole where it is not too wide.
pub proof fn lemma_match_is_kept(number: u64, bytes: Seq<u8>, offset: u64, max_columns: nat)
    requires
        max_columns > 0,
        !bytes.contains(10),
    ensures
        kept_line(number, bytes, offset, max_columns).line_number == number,
        kept_line(number, bytes, offset, max_columns).byte_offset == offset,
        kept_line(number, bytes.push(10), offset, max_columns) == kept_line(
            number,
            bytes,
            offset,
            max_columns,
        ),
        columns(lossy(bytes)) <= max_columns ==> kept_line(number, bytes, offset, max_columns).line
            == lossy(bytes),
{
    if bytes.len() > 0 {
        assert(bytes.contains(bytes[bytes.len() - 1]));
    }
    assert(without_break(bytes) == bytes);
    assert(bytes.push(10).drop_last() =~= bytes);
    assert(without_break(bytes.push(10)) == bytes);
}

/// Of a file with matches the first ones are kept, in their order, as many as there is room for, under
/// the path of that file; where there is room for all of them, all are.
pub proof fn lemma_first_matches_are_kept(
    s: SearchState,
    limits: GrepLimits,
    path: Seq<Seq<char>>,
    matches: Seq<LineMatchView>,
    truncated: bool,
    binary: bool,
)
    requires
        s.result_files < limits.max_files,
        s.total_matches <= limits.max_total_matches,
        matches.len() > 0,
    ensures
        ({
            let (file, after) = admitted(s, limits, path, matches, truncated, binary);
            &&& file matches Some(f) && {
                &&& f.path == path
                &&& f.matches.len() <= matches.len()
                &&& f.matches == matches.take(f.matches.len() as int)
                &&& s.total_matches + matches.len() <= limits.max_total_matches ==> f.matches == matches
                    && f.truncated == truncated
                &&& s.total_matches + matches.len() > limits.max_total_matches ==> s.total_matches
                    + f.matches.len() == limits.max_total_matches && f.truncated
                &&& after.total_matches == s.total_matches + f.matches.len()
            }
            &&& after.result_files == s.result_files + 1
            &&& after.timed_out == s.timed_out
            &&& after.cancelled == s.cancelled
            &&& after.failed == s.failed
        }),
{
    let (file, after) = admitted(s, limits, path, matches, truncated, binary);
    assert(matches.take(matches.len() as int) =~= matches);
}

/// A search goes on as long as it has not failed, nobody wants it to end, there is time, and there is
/// room for a file and a match; and then nothing changes. Where it ends for a reason it says for which.
pub proof fn lemma_search_goes_on(s: SearchState, limits: GrepLimits, cancel: bool, late: bool)
    ensures
        stopped(s, limits, cancel, late).0 <==> s.failed || cancel || late || s.result_files
            >= limits.max_files || s.total_matches >= limits.max_total_matches,
        !stopped(s, limits, cancel, late).0 ==> stopped(s, limits, cancel, late).1 == s,
        !s.failed && cancel ==> stopped(s, limits, cancel, late).1.cancelled,
        !s.failed && !cancel && late ==> stopped(s, limits, cancel, late).1.timed_out,
        !s.failed && !cancel && !late && s.result_files >= limits.max_files ==> stopped(
            s,
            limits,
            cancel,
            late,
        ).1.files_capped,
        stopped(s, limits, cancel, late).1.total_matches == s.total_matches,
        stopped(s, limits, cancel, late).1.result_files == s.result_files,
{
}

/// What is said against the rules of a walk is said of the first one that is none.
pub proof fn lemma_first_bad_rule_is_told(rules: Seq<(Seq<char>, Seq<char>)>, i: int)
    requires
        0 <= i,
    ensures
        match first_problem(rules, i) {
            None => forall|k: int| i <= k < rules.len() ==> rule_error((#[trigger] rules[k]).0) is None,
            Some((glob, reason)) => exists|k: int|
                i <= k < rules.len() && (#[trigger] rules[k]).1 == glob && rule_error(rules[k].0) == Some(
                    reason,
                ) && forall|j: int| i <= j < k ==> rule_error((#[trigger] rules[j]).0) is None,
        },
    decreases rules.len() - i,
{
    if i < rules.len() {
        match rule_error(rules[i].0) {
            Some(reason) => {
                assert(first_problem(rules, i) == Some((rules[i].1, reason)));
            },
            None => {
                lemma_first_bad_rule_is_told(rules, i + 1);
                match first_problem(rules, i + 1) {
                    None => {
                        assert forall|k: int| i <= k < rules.len() implies rule_error(
                            (#[trigger] rules[k]).0,
                        ) is None by {}
                    },
                    Some((glob, reason)) => {
                        let k = choose|k: int|
                            i + 1 <= k < rules.len() && (#[trigger] rules[k]).1 == glob && rule_error(
                                rules[k].0,
                            ) == Some(reason) && forall|j: int|
                                i + 1 <= j < k ==> rule_error((#[trigger] rules[j]).0) is None;
                        assert(rules[k].1 == glob);
                        assert forall|j: int| i <= j < k implies rule_error((#[trigger] rules[j]).0)
                            is None by {}
                    },
                }
            },
        }
    }
}

/// A walk follows the globs that are wanted as they are, and behind them those that are not, each
/// behind an exclamation mark.
pub proof fn lemma_rules_are_in_order(included: Seq<Seq<char>>, excluded: Seq<Seq<char>>)
    ensures
        rules_of(included, excluded).len() == included.len() + excluded.len(),
        forall|i: int|
            0 <= i < included.len() ==> #[trigger] included[i] == rules_of(included, excluded)[i].0
                && rules_of(included, excluded)[i].1 == included[i],
        forall|i: int|
            0 <= i < excluded.len() ==> rules_of(included, excluded)[included.len() + i].0 == "!"@
                + #[trigger] excluded[i] && rules_of(included, excluded)[included.len() + i].1
                == excluded[i],
{
}

/// A pattern with a line break in it, or with a backslash and an `n`, is looked for over several lines.
pub proof fn lemma_break_is_seen(a: Seq<char>, b: Seq<char>)
    ensures
        has_break(a + seq!['\n'] + b),
        has_break(a + seq!['\\', 'n'] + b),
        lacks(a, '\n') && lacks(a, '\\') ==> !has_break(a),
{
    let s = a + seq!['\n'] + b;
    let n = a.len() as int;
    assert(s[n] == '\n');
    assert(s.contains('\n'));
    let t = a + seq!['\\', 'n'] + b;
    assert(t[n] == '\\' && t[n + 1] == 'n');
}

} // verus!
