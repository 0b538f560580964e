//! How parts of values are named and what is told of them.

use vstd::prelude::*;

use crate::schema::error::{issue_text, segment_texts, IssueView, SegmentView};
use crate::schema::json::{member, JsonView};
use crate::schema::pointer::{pointed, step, step_index, unescaped, walked};
use crate::schema::render::{complaint, cut, cut_text, indented, issue_lines};
use crate::strings::{
    dec, joined, lacks, lemma_dec_is_read_back, lemma_split_first, lemma_split_none, number,
    split_on,
};
use crate::text::truncate::line_bodies;

verus! {

broadcast use vstd::seq::group_seq_axioms;

// Pointers

/// A key as a pointer has it: a tilde is `~0` and a slash `~1`.
pub open spec fn escaped(s: Seq<char>) -> Seq<char>
    decreases s.len(),
{
    if s.len() == 0 {
        s
    } else {
        (if s[0] == '~' {
            seq!['~', '0']
        } else if s[0] == '/' {
            seq!['~', '1']
        } else {
            seq![s[0]]
        }) + escaped(s.drop_first())
    }
}

/// A key is read back from a pointer, and has no slash in it there.
pub proof fn lemma_key_is_read_back(s: Seq<char>)
    ensures
        unescaped(escaped(s)) == s,
        lacks(escaped(s), '/'),
    decreases s.len(),
{
    let e = escaped(s);
    if s.len() > 0 {
        let t = s.drop_first();
        let rest = escaped(t);
        lemma_key_is_read_back(t);
        assert(seq![s[0]] + t =~= s);
        if s[0] == '~' || s[0] == '/' {
            assert(e.skip(2) =~= rest);
        } else {
            assert(e.skip(1) =~= rest);
        }
    }
}

/// What stands at the end of a path in a value, if there is anything.
pub open spec fn part_at(v: JsonView, path: Seq<SegmentView>) -> Option<JsonView>
    decreases path.len(),
{
    if path.len() == 0 {
        Some(v)
    } else {
        match (path[0], v) {
            (SegmentView::Key(key), JsonView::Object(_)) => match member(v, key) {
                Some(x) => part_at(x, path.drop_first()),
                None => None,
            },
            (SegmentView::Index(i), JsonView::List(l)) => if i < l.len() {
                part_at(l[i as int], path.drop_first())
            } else {
                None
            },
            _ => None,
        }
    }
}

/// A step of a pointer.
pub open spec fn pointer_step(s: SegmentView) -> Seq<char> {
    match s {
        SegmentView::Key(key) => escaped(key),
        SegmentView::Index(i) => dec(i),
    }
}

/// The pointer that a path is: each step behind a slash.
pub open spec fn pointer_to(path: Seq<SegmentView>) -> Seq<char>
    decreases path.len(),
{
    if path.len() == 0 {
        Seq::empty()
    } else {
        seq!['/'] + pointer_step(path[0]) + pointer_to(path.drop_first())
    }
}

proof fn lemma_step_lacks_slash(s: SegmentView)
    ensures
        lacks(pointer_step(s), '/'),
{
    match s {
        SegmentView::Key(key) => {
            lemma_key_is_read_back(key);
        },
        SegmentView::Index(i) => {
            lemma_dec_is_read_back(i);
            let d = dec(i);
            assert forall|k: int| 0 <= k < d.len() implies d[k] != '/' by {
                assert('0' <= d[k]);
            }
        },
    }
}

proof fn lemma_pointer_steps(path: Seq<SegmentView>)
    requires
        path.len() > 0,
    ensures
        pointer_to(path)[0] == '/',
        split_on(pointer_to(path).skip(1), '/') == Seq::new(
            path.len(),
            |i: int| pointer_step(path[i]),
        ),
    decreases path.len(),
{
    let first = pointer_step(path[0]);
    let rest = path.drop_first();
    let p = pointer_to(path);
    let steps = Seq::new(path.len(), |i: int| pointer_step(path[i]));
    lemma_step_lacks_slash(path[0]);
    if rest.len() == 0 {
        assert(pointer_to(rest) =~= Seq::<char>::empty());
        assert(p.skip(1) =~= first);
        lemma_split_none(first, '/');
        assert(steps =~= seq![first]);
    } else {
        lemma_pointer_steps(rest);
        let q = pointer_to(rest);
        assert(p.skip(1) =~= first.push('/') + q.skip(1));
        lemma_split_first(first, q.skip(1), '/');
        assert(steps =~= seq![first] + Seq::new(rest.len(), |i: int| pointer_step(rest[i])));
    }
}

proof fn lemma_walked_from(v: JsonView, a: Seq<Seq<char>>, b: Seq<Seq<char>>, i: int)
    requires
        0 <= i <= b.len(),
        a.len() == b.len() + 1,
        forall|k: int| 0 <= k < b.len() ==> #[trigger] b[k] == a[k + 1],
    ensures
        walked(v, a, i + 1) == walked(v, b, i),
    decreases b.len() - i,
{
    if i < b.len() {
        assert(b[i] == a[i + 1]);
        match step(v, unescaped(b[i])) {
            Some(w) => {
                lemma_walked_from(w, a, b, i + 1);
            },
            None => {},
        }
    }
}

proof fn lemma_plain_digits(d: Seq<char>)
    requires
        forall|i: int| 0 <= i < d.len() ==> '0' <= #[trigger] d[i] && d[i] <= '9',
    ensures
        unescaped(d) == d,
    decreases d.len(),
{
    if d.len() > 0 {
        let t = d.skip(1);
        assert('0' <= d[0] && d[0] <= '9');
        assert forall|i: int| 0 <= i < t.len() implies '0' <= #[trigger] t[i] && t[i] <= '9' by {
            assert(t[i] == d[i + 1]);
        }
        lemma_plain_digits(t);
        assert(seq![d[0]] + t =~= d);
    }
}

proof fn lemma_walk_leads(v: JsonView, path: Seq<SegmentView>)
    requires
        part_at(v, path) is Some,
        forall|i: int|
            0 <= i < path.len() ==> ((#[trigger] path[i]) matches SegmentView::Index(k) ==> k
                <= usize::MAX),
    ensures
        walked(v, Seq::new(path.len(), |i: int| pointer_step(path[i])), 0) == part_at(v, path),
    decreases path.len(),
{
    let steps = Seq::new(path.len(), |i: int| pointer_step(path[i]));
    if path.len() > 0 {
        let rest = path.drop_first();
        let later = Seq::new(rest.len(), |i: int| pointer_step(rest[i]));
        assert forall|i: int|
            0 <= i < rest.len() implies ((#[trigger] rest[i]) matches SegmentView::Index(k) ==> k
            <= usize::MAX) by {
            assert(rest[i] == path[i + 1]);
        }
        assert forall|k: int| 0 <= k < later.len() implies #[trigger] later[k] == steps[k + 1] by {}
        match path[0] {
            SegmentView::Key(key) => {
                lemma_key_is_read_back(key);
                let x = member(v, key)->0;
                lemma_walk_leads(x, rest);
                lemma_walked_from(x, steps, later, 0);
            },
            SegmentView::Index(i) => {
                lemma_dec_is_read_back(i);
                let d = dec(i);
                assert forall|k: int| 0 <= k < d.len() implies '0' <= #[trigger] d[k] && d[k]
                    <= '9' by {}
                lemma_plain_digits(d);
                assert(step_index(d) == Some(i));
                let x = v->List_0[i as int];
                lemma_walk_leads(x, rest);
                lemma_walked_from(x, steps, later, 0);
            },
        }
    }
}

/// The pointer that a path is points to what stands at the end of the path.
pub proof fn lemma_pointer_leads_there(v: JsonView, path: Seq<SegmentView>)
    requires
        part_at(v, path) is Some,
        forall|i: int|
            0 <= i < path.len() ==> ((#[trigger] path[i]) matches SegmentView::Index(k) ==> k
                <= usize::MAX),
    ensures
        pointed(v, pointer_to(path)) == part_at(v, path),
{
    if path.len() > 0 {
        lemma_pointer_steps(path);
        lemma_walk_leads(v, path);
    }
}

// Words

/// An issue is told by where it is and what it says: the root by that word, anything else by the steps
/// to it with slashes between them.
pub proof fn lemma_issue_is_told(issue: IssueView)
    ensures
        issue.path.len() == 0 ==> issue_text(issue) == "root"@ + ": "@ + issue.message,
        issue.path.len() > 0 ==> issue_text(issue) == joined(
            Seq::new(
                issue.path.len(),
                |i: int|
                    match issue.path[i] {
                        SegmentView::Key(key) => key,
                        SegmentView::Index(k) => dec(k),
                    },
            ),
            "/"@,
        ) + ": "@ + issue.message,
{
    assert(segment_texts(issue.path) =~= Seq::new(
        issue.path.len(),
        |i: int|
            match issue.path[i] {
                SegmentView::Key(key) => key,
                SegmentView::Index(k) => dec(k),
            },
    ));
}

proof fn lemma_issue_lines(issues: Seq<IssueView>, n: nat)
    requires
        n <= issues.len(),
    ensures
        issue_lines(issues, n) == joined(
            Seq::new(n, |i: int| "  - "@ + issue_text(issues[i]) + "\n"@),
            Seq::empty(),
        ),
    decreases n,
{
    let parts = Seq::new(n, |i: int| "  - "@ + issue_text(issues[i]) + "\n"@);
    if n > 0 {
        lemma_issue_lines(issues, (n - 1) as nat);
        assert(parts.drop_last() =~= Seq::new(
            (n - 1) as nat,
            |i: int| "  - "@ + issue_text(issues[i]) + "\n"@,
        ));
        assert(issue_lines(issues, n) =~= issue_lines(issues, (n - 1) as nat) + ("  - "@ + issue_text(
            issues[n - 1],
        ) + "\n"@));
        assert(joined(parts, Seq::empty()) =~= joined(parts.drop_last(), Seq::empty()) + parts.last());
    }
}

/// What is told of a call whose arguments are wrong names the tool, has each issue on a line of its
/// own, in their order, and then the arguments, line by line.
pub proof fn lemma_complaint_tells_all(tool: Seq<char>, issues: Seq<IssueView>, pretty: Seq<char>)
    ensures
        complaint(tool, issues, pretty) == "Validation failed for tool \""@ + tool + "\":\n"@ + joined(
            Seq::new(issues.len(), |i: int| "  - "@ + issue_text(issues[i]) + "\n"@),
            Seq::empty(),
        ) + "\nReceived arguments:\n"@ + joined(
            Seq::new(line_bodies(pretty).len(), |i: int| "  "@ + line_bodies(pretty)[i]),
            "\n"@,
        ),
{
    lemma_issue_lines(issues, issues.len());
    assert(indented(line_bodies(pretty)) =~= Seq::new(
        line_bodies(pretty).len(),
        |i: int| "  "@ + line_bodies(pretty)[i],
    ));
}

// Long values

/// A string of up to 256 characters is shown whole, of a longer one the first 256 and how many were
/// left out.
pub proof fn lemma_long_string_is_cut(s: Seq<char>)
    ensures
        s.len() <= 256 ==> cut_text(s) == s,
        s.len() > 256 ==> cut_text(s) == s.take(256) + "… [truncated "@ + dec((s.len() - 256) as nat)
            + " chars]"@,
{
}

/// Whether no string of a value is long and nothing in it is deep.
pub open spec fn is_short(v: JsonView, depth: nat) -> bool
    decreases v,
{
    depth < 32 && match v {
        JsonView::Text(s) => s.len() <= 256,
        JsonView::List(l) => forall|i: int| 0 <= i < l.len() ==> is_short(#[trigger] l[i], depth + 1),
        JsonView::Object(m) => forall|i: int|
            0 <= i < m.len() ==> is_short((#[trigger] m[i]).value, depth + 1),
        _ => true,
    }
}

/// A value with neither long strings nor anything deep in it is shown as it is.
pub proof fn lemma_short_value_stays(v: JsonView, depth: nat)
    requires
        is_short(v, depth),
    ensures
        cut(v, depth) == v,
    decreases v,
{
    match v {
        JsonView::List(l) => {
            assert forall|i: int| 0 <= i < l.len() implies cut(#[trigger] l[i], depth + 1) == l[i] by {
                assert(is_short(l[i], depth + 1));
                lemma_short_value_stays(l[i], depth + 1);
            }
            assert(cut(v, depth)->List_0 =~= l);
        },
        JsonView::Object(m) => {
            assert forall|i: int| 0 <= i < m.len() implies cut((#[trigger] m[i]).value, depth + 1)
                == m[i].value by {
                assert(is_short(m[i].value, depth + 1));
                lemma_short_value_stays(m[i].value, depth + 1);
            }
            assert(cut(v, depth)->Object_0 =~= m);
        },
        _ => {},
    }
}

/// What is in a list or an object stays in its place when it is cut, and is itself cut there.
pub proof fn lemma_cut_keeps_places(v: JsonView, depth: nat)
    requires
        depth < 32,
    ensures
        v matches JsonView::List(l) ==> (cut(v, depth) matches JsonView::List(r) && r.len() == l.len()
            && forall|i: int| 0 <= i < l.len() ==> #[trigger] r[i] == cut(l[i], depth + 1)),
        v matches JsonView::Object(m) ==> (cut(v, depth) matches JsonView::Object(r) && r.len()
            == m.len() && forall|i: int|
            0 <= i < m.len() ==> (#[trigger] r[i]).key == m[i].key && r[i].value == cut(
                m[i].value,
                depth + 1,
            )),
        !(v is List || v is Object || v is Text) ==> cut(v, depth) == v,
{
}

/// An element of a list is named by its number alone: a zero in front of that names nothing.
pub proof fn lemma_index_has_no_zero_in_front(l: Seq<JsonView>, digits: Seq<char>)
    requires
        digits.len() > 0,
    ensures
        step(JsonView::List(l), seq!['0'] + digits) is None,
{
    let s = seq!['0'] + digits;
    assert(s[0] == '0');
}

} // verus!
