//! What is told to a caller whose arguments do not meet a schema.

use vstd::prelude::*;

use crate::schema::error::{issue_text, issues_view, say_issue, IssueView, ValidationError};
use crate::schema::json::{
    lemma_in_list, lemma_in_object, lemma_view, Json, JsonView, Member, MemberView,
};
use crate::strings::{chars_of, dec, join_texts, joined, part_to, push_chars, push_dec, runs, texts};
use crate::text::truncate::{line_bodies, text_lines};

verus! {

broadcast use vstd::seq::group_seq_axioms;

/// How many characters of a string are shown.
pub const MAX_ERROR_ARG_STRING_LENGTH: usize = 256;

/// How deep into the arguments is shown.
pub const MAX_TRUNCATE_DEPTH: usize = 32;

/// A string that may have been cut.
pub open spec fn cut_text(s: Seq<char>) -> Seq<char> {
    if s.len() <= MAX_ERROR_ARG_STRING_LENGTH {
        s
    } else {
        s.take(MAX_ERROR_ARG_STRING_LENGTH as int) + "… [truncated "@ + dec(
            (s.len() - MAX_ERROR_ARG_STRING_LENGTH) as nat,
        ) + " chars]"@
    }
}

/// A value at a depth with its strings cut and nothing in it that is too deep.
pub open spec fn cut(v: JsonView, depth: nat) -> JsonView
    decreases v,
{
    if depth >= MAX_TRUNCATE_DEPTH {
        JsonView::Text("… [depth limit]"@)
    } else {
        match v {
            JsonView::Text(s) => JsonView::Text(cut_text(s)),
            JsonView::List(l) => JsonView::List(
                Seq::new(
                    l.len(),
                    |i: int|
                        if 0 <= i < l.len() {
                            cut(l[i], depth + 1)
                        } else {
                            JsonView::Null
                        },
                ),
            ),
            JsonView::Object(m) => JsonView::Object(
                Seq::new(
                    m.len(),
                    |i: int|
                        if 0 <= i < m.len() {
                            MemberView { key: m[i].key, value: cut(m[i].value, depth + 1) }
                        } else {
                            MemberView { key: Seq::empty(), value: JsonView::Null }
                        },
                ),
            ),
            _ => v,
        }
    }
}

/// Cuts a string.
fn truncate_string(s: &str) -> (r: String)
    ensures
        r@ == cut_text(s@),
{
    let letters = chars_of(s);
    let total: usize = letters.len();
    if total <= MAX_ERROR_ARG_STRING_LENGTH {
        return s.to_owned();
    }
    let mut r = String::new();
    let head = part_to(letters.as_slice(), MAX_ERROR_ARG_STRING_LENGTH);
    push_chars(&mut r, head);
    assert(r@ =~= s@.take(MAX_ERROR_ARG_STRING_LENGTH as int));
    r.append("… [truncated ");
    push_dec(&mut r, (total - MAX_ERROR_ARG_STRING_LENGTH) as u64);
    r.append(" chars]");
    r
}

/// Cuts a value at a depth.
fn truncate_depth(value: &Json, depth: usize) -> (r: Json)
    ensures
        r@ == cut(value@, depth as nat),
    decreases value,
{
    if depth >= MAX_TRUNCATE_DEPTH {
        return Json::Text("… [depth limit]".to_owned());
    }
    proof {
        lemma_view(*value);
    }
    match value {
        Json::Text(s) => Json::Text(truncate_string(s.as_str())),
        Json::List(l) => {
            let mut out: Vec<Json> = Vec::new();
            let n: usize = l.len();
            let mut i: usize = 0;
            while i < n
                invariant
                    i <= n,
                    n == l@.len(),
                    depth < MAX_TRUNCATE_DEPTH,
                    value == Json::List(*l),
                    out@.len() == i,
                    forall|j: int|
                        0 <= j < i ==> (#[trigger] out@[j])@ == cut(l@[j]@, (depth + 1) as nat),
                decreases n - i,
            {
                proof {
                    lemma_in_list(*value, *l, i as int);
                }
                out.push(truncate_depth(&l[i], depth + 1));
                i += 1;
            }
            let r = Json::List(out);
            proof {
                lemma_view(r);
                assert(r@->List_0 =~= cut(value@, depth as nat)->List_0);
            }
            r
        },
        Json::Object(m) => {
            let mut out: Vec<Member> = Vec::new();
            let n: usize = m.len();
            let mut i: usize = 0;
            while i < n
                invariant
                    i <= n,
                    n == m@.len(),
                    depth < MAX_TRUNCATE_DEPTH,
                    value == Json::Object(*m),
                    out@.len() == i,
                    forall|j: int|
                        0 <= j < i ==> (#[trigger] out@[j])@ == (MemberView {
                            key: m@[j].key@,
                            value: cut(m@[j].value@, (depth + 1) as nat),
                        }),
                decreases n - i,
            {
                proof {
                    lemma_in_object(*value, *m, i as int);
                }
                out.push(
                    Member { key: m[i].key.clone(), value: truncate_depth(&m[i].value, depth + 1) },
                );
                i += 1;
            }
            let r = Json::Object(out);
            proof {
                lemma_view(r);
                assert(r@->Object_0 =~= cut(value@, depth as nat)->Object_0);
            }
            r
        },
        _ => value.duplicate(),
    }
}

/// Cuts the strings of a value and what is too deep in it.
pub fn truncate_args_for_error(value: &Json) -> (r: Json)
    ensures
        r@ == cut(value@, 0),
{
    truncate_depth(value, 0)
}

/// Lines with two spaces before each.
pub open spec fn indented(lines: Seq<Seq<char>>) -> Seq<Seq<char>> {
    Seq::new(lines.len(), |i: int| "  "@ + lines[i])
}

/// The first `n` issues, one on each line.
pub open spec fn issue_lines(issues: Seq<IssueView>, n: nat) -> Seq<char>
    decreases n,
{
    if 0 < n <= issues.len() {
        issue_lines(issues, (n - 1) as nat) + "  - "@ + issue_text(issues[n - 1]) + "\n"@
    } else {
        Seq::empty()
    }
}

/// What is told of a tool's arguments that do not meet its schema.
pub open spec fn complaint(tool: Seq<char>, issues: Seq<IssueView>, pretty: Seq<char>) -> Seq<
    char,
> {
    "Validation failed for tool \""@ + tool + "\":\n"@ + issue_lines(issues, issues.len())
        + "\nReceived arguments:\n"@ + joined(indented(line_bodies(pretty)), "\n"@)
}

/// Puts two spaces before each line.
fn indent_lines(text: &str) -> (r: String)
    ensures
        r@ == joined(indented(line_bodies(text@)), "\n"@),
{
    let lines = text_lines(text);
    let ghost all = indented(line_bodies(text@));
    let n: usize = lines.len();
    let mut parts: Vec<String> = Vec::new();
    let mut i: usize = 0;
    while i < n
        invariant
            i <= n,
            n == lines@.len(),
            runs(lines@) == line_bodies(text@),
            all == indented(line_bodies(text@)),
            texts(parts@) == all.take(i as int),
        decreases n - i,
    {
        let ghost before = texts(parts@);
        assert(runs(lines@)[i as int] == lines@[i as int]@);
        let mut line = "  ".to_owned();
        push_chars(&mut line, lines[i].as_slice());
        assert(line@ =~= all[i as int]);
        parts.push(line);
        i += 1;
        assert(texts(parts@) =~= before.push(all[i - 1]));
        assert(all.take(i as int) =~= before.push(all[i - 1]));
    }
    assert(all.take(n as int) =~= all);
    join_texts(&parts, "\n")
}

/// Tells of a tool's arguments that do not meet its schema. `pretty` is the arguments, cut by
/// [`truncate_args_for_error`], as indented JSON.
pub fn render_validation_error(tool_name: &str, error: &ValidationError, pretty: &str) -> (r: String)
    ensures
        r@ == complaint(tool_name@, issues_view(error.issues@), pretty@),
{
    let mut r = "Validation failed for tool \"".to_owned();
    r.append(tool_name);
    r.append("\":\n");
    let ghost front = r@;
    let ghost issues = issues_view(error.issues@);
    let n: usize = error.issues.len();
    let mut i: usize = 0;
    assert(r@ =~= front + issue_lines(issues, 0));
    while i < n
        invariant
            i <= n,
            n == error.issues@.len(),
            issues == issues_view(error.issues@),
            r@ == front + issue_lines(issues, i as nat),
        decreases n - i,
    {
        let ghost before = r@;
        let line = say_issue(&error.issues[i]);
        r.append("  - ");
        r.append(line.as_str());
        r.append("\n");
        assert(line@ == issue_text(issues[i as int]));
        i += 1;
        assert(r@ =~= front + issue_lines(issues, i as nat));
    }
    r.append("\nReceived arguments:\n");
    let rest = indent_lines(pretty);
    r.append(rest.as_str());
    r
}

} // verus!
