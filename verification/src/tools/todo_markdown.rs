//! The todo list as a Markdown checklist, and back.
//!
//! A phase is a heading, a task a line `- [x] text`. The reason of a blocked task stands in an HTML
//! comment behind its text.

use vstd::prelude::*;

use crate::strings::{
    chars_eq, chars_of, dec, is_space, opt_text, part, part_from, part_to, push_chars, push_dec,
    space, space_end, str_eq, string_of, texts, trim, trim_end, trim_start, trimmed,
};
use crate::text::truncate::{
    after_line, body_of, line_body, lemma_first_line, lemma_lines, lemma_lines_concat,
    lemma_single_line, lines, next_line,
};
use crate::tools::todo::{
    items_of, normalize_in_progress, phases_of, settled, ItemView, PhaseView, TodoItem, TodoPhase,
    TodoStatus,
};

verus! {

broadcast use vstd::seq::group_seq_axioms;

/// The character between the brackets of a task.
pub open spec fn marker_of(status: TodoStatus) -> char {
    match status {
        TodoStatus::Pending => ' ',
        TodoStatus::InProgress => '/',
        TodoStatus::Completed => 'x',
        TodoStatus::Abandoned => '-',
        TodoStatus::Blocked => '!',
    }
}

impl TodoStatus {
    /// The character between the brackets of a task.
    pub fn marker(self) -> (c: char)
        ensures
            c == marker_of(self),
    {
        match self {
            TodoStatus::Pending => ' ',
            TodoStatus::InProgress => '/',
            TodoStatus::Completed => 'x',
            TodoStatus::Abandoned => '-',
            TodoStatus::Blocked => '!',
        }
    }
}

/// The status that a marker stands for; people also write `X`, `>` and `~`, or nothing.
pub open spec fn status_of(marker: Seq<char>) -> Option<TodoStatus> {
    if marker.len() == 0 {
        Some(TodoStatus::Pending)
    } else if marker.len() > 1 {
        None
    } else {
        let c = marker[0];
        if c == ' ' {
            Some(TodoStatus::Pending)
        } else if c == 'x' || c == 'X' {
            Some(TodoStatus::Completed)
        } else if c == '/' || c == '>' {
            Some(TodoStatus::InProgress)
        } else if c == '-' || c == '~' {
            Some(TodoStatus::Abandoned)
        } else if c == '!' {
            Some(TodoStatus::Blocked)
        } else {
            None
        }
    }
}

/// The status that a marker stands for.
fn marker_to_status(marker: &[char]) -> (r: Option<TodoStatus>)
    ensures
        r == status_of(marker@),
{
    if marker.len() == 0 {
        return Some(TodoStatus::Pending);
    }
    if marker.len() > 1 {
        return None;
    }
    let c = marker[0];
    if c == ' ' {
        Some(TodoStatus::Pending)
    } else if c == 'x' || c == 'X' {
        Some(TodoStatus::Completed)
    } else if c == '/' || c == '>' {
        Some(TodoStatus::InProgress)
    } else if c == '-' || c == '~' {
        Some(TodoStatus::Abandoned)
    } else if c == '!' {
        Some(TodoStatus::Blocked)
    } else {
        None
    }
}

/// The line of a task.
pub open spec fn task_line(item: ItemView) -> Seq<char> {
    let line = "- ["@.push(marker_of(item.status)) + "] "@ + item.content;
    if item.status == TodoStatus::Blocked && item.blocker is Some {
        line + " <!-- blocker: "@ + item.blocker->0 + " -->"@
    } else {
        line
    }
}

/// The lines of tasks.
pub open spec fn task_lines(tasks: Seq<ItemView>) -> Seq<Seq<char>> {
    Seq::new(tasks.len(), |j: int| task_line(tasks[j]))
}

/// The lines of phases: a heading and the tasks, with an empty line between phases.
pub open spec fn phase_lines(p: Seq<PhaseView>) -> Seq<Seq<char>>
    decreases p.len(),
{
    if p.len() == 0 {
        Seq::empty()
    } else {
        phase_lines(p.drop_last()) + (if p.len() > 1 {
            seq![Seq::<char>::empty()]
        } else {
            Seq::empty()
        }) + seq!["# "@ + p.last().name] + task_lines(p.last().tasks)
    }
}

/// Whether a list has one phase alone, which has no tasks and the name that stands for no list.
pub open spec fn is_bare(p: Seq<PhaseView>) -> bool {
    p.len() == 1 && p[0].name == "Todos"@ && p[0].tasks.len() == 0
}

/// The lines of a list; one without phases has a heading alone. A list that would read like that one
/// has an empty line at its end.
pub open spec fn list_lines(p: Seq<PhaseView>) -> Seq<Seq<char>> {
    if p.len() == 0 {
        seq!["# Todos"@]
    } else if is_bare(p) {
        phase_lines(p).push(Seq::empty())
    } else {
        phase_lines(p)
    }
}

/// Lines with a line break behind each.
pub open spec fn unlines(l: Seq<Seq<char>>) -> Seq<char>
    decreases l.len(),
{
    if l.len() == 0 {
        Seq::empty()
    } else {
        unlines(l.drop_last()) + l.last().push('\n')
    }
}

proof fn lemma_unlines_push(l: Seq<Seq<char>>, line: Seq<char>)
    ensures
        unlines(l.push(line)) == unlines(l) + line.push('\n'),
{
    assert(l.push(line).drop_last() =~= l);
}

proof fn lemma_unlines_first(l: Seq<Seq<char>>)
    requires
        l.len() > 0,
    ensures
        unlines(l) == l[0].push('\n') + unlines(l.drop_first()),
    decreases l.len(),
{
    if l.len() == 1 {
        assert(l.drop_last() =~= Seq::<Seq<char>>::empty());
        assert(l.drop_first() =~= Seq::<Seq<char>>::empty());
        assert(unlines(l) =~= l[0].push('\n') + unlines(l.drop_first()));
    } else {
        lemma_unlines_first(l.drop_last());
        assert(l.drop_first().drop_last() =~= l.drop_last().drop_first());
        assert(unlines(l) =~= l[0].push('\n') + unlines(l.drop_first()));
    }
}

/// Appends the line of a task.
fn push_task(out: &mut String, task: &TodoItem)
    ensures
        final(out)@ == old(out)@ + task_line(task@).push('\n'),
{
    out.append("- [");
    out.push(task.status.marker());
    out.append("] ");
    out.append(task.content.as_str());
    if task.status == TodoStatus::Blocked {
        if let Some(blocker) = &task.blocker {
            out.append(" <!-- blocker: ");
            out.append(blocker.as_str());
            out.append(" -->");
        }
    }
    out.push('\n');
    assert(out@ =~= old(out)@ + task_line(task@).push('\n'));
}

/// The list as a Markdown checklist.
pub fn phases_to_markdown(phases: &Vec<TodoPhase>) -> (r: String)
    ensures
        r@ == unlines(list_lines(phases_of(phases@))),
{
    let ghost p = phases_of(phases@);
    if phases.len() == 0 {
        let mut out = String::new();
        out.append("# Todos");
        out.push('\n');
        proof {
            lemma_unlines_push(Seq::empty(), "# Todos"@);
            assert(list_lines(p) =~= Seq::<Seq<char>>::empty().push("# Todos"@));
            assert(out@ =~= unlines(list_lines(p)));
        }
        return out;
    }
    let bare = phases.len() == 1 && phases[0].tasks.len() == 0 && str_eq(
        phases[0].name.as_str(),
        "Todos",
    );
    assert(bare == is_bare(p));
    let mut out = String::new();
    let mut i: usize = 0;
    let ghost l = Seq::<Seq<char>>::empty();
    assert(p.take(0) =~= Seq::<PhaseView>::empty());
    while i < phases.len()
        invariant
            i <= phases@.len(),
            p == phases_of(phases@),
            l == phase_lines(p.take(i as int)),
            out@ == unlines(l),
        decreases phases@.len() - i,
    {
        let ghost l0 = l;
        if i > 0 {
            out.push('\n');
            proof {
                lemma_unlines_push(l, Seq::empty());
                assert(out@ =~= unlines(l.push(Seq::empty())));
                l = l.push(Seq::empty());
            }
        }
        out.append("# ");
        out.append(phases[i].name.as_str());
        out.push('\n');
        proof {
            let h = "# "@ + p[i as int].name;
            lemma_unlines_push(l, h);
            assert(out@ =~= unlines(l.push(h)));
            l = l.push(h);
        }
        let ghost l1 = l;
        let ghost t = p[i as int].tasks;
        let mut j: usize = 0;
        assert(l1 + task_lines(t).take(0) =~= l1);
        while j < phases[i].tasks.len()
            invariant
                i < phases@.len(),
                j <= phases@[i as int].tasks@.len(),
                t == items_of(phases@[i as int].tasks@),
                l == l1 + task_lines(t).take(j as int),
                out@ == unlines(l),
            decreases phases@[i as int].tasks@.len() - j,
        {
            push_task(&mut out, &phases[i].tasks[j]);
            proof {
                let x = task_line(t[j as int]);
                lemma_unlines_push(l, x);
                assert(l.push(x) =~= l1 + task_lines(t).take(j + 1));
                l = l.push(x);
            }
            j += 1;
        }
        proof {
            assert(task_lines(t).take(t.len() as int) =~= task_lines(t));
            assert(p.take(i + 1).drop_last() =~= p.take(i as int));
            assert(p.take(i + 1).last() == p[i as int]);
            assert(l =~= phase_lines(p.take(i + 1)));
        }
        i += 1;
    }
    assert(p.take(p.len() as int) =~= p);
    if bare {
        out.push('\n');
        proof {
            lemma_unlines_push(l, Seq::empty());
            assert(out@ =~= unlines(l.push(Seq::empty())));
        }
    }
    out
}

/// How many `#` stand at the start of `s`.
pub open spec fn hashes(s: Seq<char>) -> nat
    decreases s.len(),
{
    if s.len() > 0 && s[0] == '#' {
        1 + hashes(s.drop_first())
    } else {
        0
    }
}

/// The title of a heading: one to six `#`, white space, and a text.
pub open spec fn heading(line: Seq<char>) -> Option<Seq<char>> {
    let n = hashes(line);
    let rest = line.skip(n as int);
    let title = trim(rest);
    if n == 0 || n > 6 || rest.len() == 0 || !is_space(rest[0]) || title.len() == 0 {
        None
    } else {
        Some(title)
    }
}

/// The title of a heading.
fn parse_heading(line: &[char]) -> (r: Option<String>)
    ensures
        opt_text(r) == heading(line@),
{
    let mut n: usize = 0;
    assert(line@.skip(0) =~= line@);
    while n < line.len() && line[n] == '#'
        invariant
            n <= line@.len(),
            hashes(line@) == n + hashes(line@.skip(n as int)),
        decreases line@.len() - n,
    {
        assert(line@.skip(n as int).drop_first() =~= line@.skip(n + 1));
        n += 1;
    }
    if n == 0 || n > 6 {
        return None;
    }
    let rest = part_from(line, n);
    if rest.len() == 0 || !space(rest[0]) {
        return None;
    }
    let title = trimmed(rest);
    if title.len() == 0 {
        None
    } else {
        Some(string_of(title))
    }
}

/// How many characters white space takes from `k` on.
pub open spec fn skip_space(s: Seq<char>, k: int) -> int
    decreases s.len() - k,
{
    if 0 <= k < s.len() && is_space(s[k]) {
        skip_space(s, k + 1)
    } else {
        k
    }
}

/// The marker and the text of a task's line: a bullet, the marker in brackets, white space, and a
/// text.
pub open spec fn checklist(line: Seq<char>) -> Option<(Seq<char>, Seq<char>)> {
    let k = skip_space(line, 1);
    if line.len() == 0 || !(line[0] == '-' || line[0] == '*' || line[0] == '+') || k >= line.len()
        || line[k] != '[' {
        None
    } else {
        let (marker, end) = if k + 2 < line.len() && line[k + 2] == ']' {
            (seq![line[k + 1]], k + 3)
        } else {
            (Seq::empty(), k + 2)
        };
        let text = trim(line.skip(end));
        if end > line.len() || line[end - 1] != ']' || end >= line.len() || !is_space(line[end])
            || text.len() == 0 {
            None
        } else {
            Some((marker, text))
        }
    }
}

/// The marker and the text of a task's line.
fn parse_checklist<'a>(line: &'a [char]) -> (r: Option<(&'a [char], &'a [char])>)
    ensures
        match r {
            Some(m) => checklist(line@) == Some((m.0@, m.1@)),
            None => checklist(line@) is None,
        },
{
    if line.len() == 0 || !(line[0] == '-' || line[0] == '*' || line[0] == '+') {
        return None;
    }
    let mut k: usize = 1;
    while k < line.len() && space(line[k])
        invariant
            1 <= k <= line@.len(),
            skip_space(line@, 1) == skip_space(line@, k as int),
        decreases line@.len() - k,
    {
        k += 1;
    }
    if k >= line.len() || line[k] != '[' {
        return None;
    }
    let n: usize = line.len();
    let wide = n - k > 2 && line[k + 2] == ']';
    if !wide && (n - k < 2 || line[k + 1] != ']') {
        return None;
    }
    let end: usize = if wide {
        k + 3
    } else {
        k + 2
    };
    let marker = if wide {
        part(line, k + 1, k + 2)
    } else {
        part(line, k + 1, k + 1)
    };
    proof {
        if wide {
            assert(marker@ =~= seq![line@[k + 1]]);
        } else {
            assert(marker@ =~= Seq::<char>::empty());
        }
    }
    if end >= n || !space(line[end]) {
        return None;
    }
    let text = trimmed(part_from(line, end));
    if text.len() == 0 {
        None
    } else {
        Some((marker, text))
    }
}

/// Where `pat` occurs last in `s`.
pub open spec fn rfind(s: Seq<char>, pat: Seq<char>) -> Option<int>
    decreases s.len(),
{
    if s.len() < pat.len() {
        None
    } else if s.skip(s.len() - pat.len()) == pat {
        Some(s.len() - pat.len())
    } else if s.len() == 0 {
        None
    } else {
        rfind(s.drop_last(), pat)
    }
}

fn find_last(s: &[char], pat: &[char]) -> (r: Option<usize>)
    requires
        pat@.len() > 0,
    ensures
        match r {
            Some(i) => rfind(s@, pat@) == Some(i as int) && i + pat@.len() <= s@.len(),
            None => rfind(s@, pat@) is None,
        },
{
    let mut n: usize = s.len();
    assert(s@.take(n as int) =~= s@);
    while n >= pat.len()
        invariant
            n <= s@.len(),
            pat@.len() > 0,
            rfind(s@, pat@) == rfind(s@.take(n as int), pat@),
        decreases n,
    {
        let tail = part(s, n - pat.len(), n);
        assert(tail@ =~= s@.take(n as int).skip(n - pat@.len()));
        if chars_eq(tail, pat) {
            return Some(n - pat.len());
        }
        assert(s@.take(n as int).drop_last() =~= s@.take(n - 1));
        n -= 1;
    }
    None
}

/// The text of a blocked task and the reason behind it.
pub open spec fn uncommented(text: Seq<char>) -> (Seq<char>, Option<Seq<char>>) {
    let t = trim_end(text);
    if t.len() < 3 || t.skip(t.len() - 3) != "-->"@ {
        (trim(text), None)
    } else {
        let w = t.take(t.len() - 3);
        match rfind(w, "<!-- blocker:"@) {
            None => (trim(text), None),
            Some(i) => (trim_end(w.take(i)), Some(trim(w.skip(i + "<!-- blocker:"@.len())))),
        }
    }
}

/// The text of a blocked task and the reason behind it.
fn strip_blocker_comment(text: &[char]) -> (r: (String, Option<String>))
    ensures
        r.0@ == uncommented(text@).0,
        opt_text(r.1) == uncommented(text@).1,
{
    let open = chars_of("<!-- blocker:");
    let close = chars_of("-->");
    proof {
        reveal_strlit("<!-- blocker:");
        reveal_strlit("-->");
    }
    let t = part_to(text, space_end(text));
    if t.len() < 3 {
        return (string_of(trimmed(text)), None);
    }
    if !chars_eq(part_from(t, t.len() - 3), close.as_slice()) {
        return (string_of(trimmed(text)), None);
    }
    let w = part_to(t, t.len() - 3);
    match find_last(w, open.as_slice()) {
        None => (string_of(trimmed(text)), None),
        Some(i) => {
            let front = part_to(w, i);
            let kept = part_to(front, space_end(front));
            let reason = trimmed(part_from(w, i + open.len()));
            (string_of(kept), Some(string_of(reason)))
        },
    }
}

/// What has been read of a list.
#[verifier::ext_equal]
pub struct Reading {
    pub phases: Seq<PhaseView>,
    /// The lines that could not be read.
    pub errors: Seq<Seq<char>>,
}

/// The list with a task behind the tasks of its last phase; tasks before any heading go to a phase
/// of their own.
pub open spec fn with_task(p: Seq<PhaseView>, item: ItemView) -> Seq<PhaseView> {
    let q = if p.len() == 0 {
        seq![PhaseView { name: "Todos"@, tasks: Seq::empty() }]
    } else {
        p
    };
    q.update(q.len() - 1, PhaseView { name: q.last().name, tasks: q.last().tasks.push(item) })
}

/// The task of a line.
pub open spec fn task_of(status: TodoStatus, text: Seq<char>) -> ItemView {
    if status == TodoStatus::Blocked {
        ItemView { content: uncommented(text).0, status, blocker: uncommented(text).1 }
    } else {
        ItemView { content: text, status, blocker: None }
    }
}

/// What one more line adds. Lines are counted from 1.
pub open spec fn read_line(r: Reading, number: nat, raw: Seq<char>) -> Reading {
    let line = trim(raw);
    if line.len() == 0 {
        r
    } else if let Some(title) = heading(line) {
        Reading { phases: r.phases.push(PhaseView { name: title, tasks: Seq::empty() }), ..r }
    } else if let Some((marker, text)) = checklist(line) {
        match status_of(marker) {
            None => Reading {
                errors: r.errors.push(
                    "Line "@ + dec(number) + ": unknown status marker \"["@ + marker
                        + "]\" (use [ ], [x], [/], [-], [!])"@,
                ),
                ..r
            },
            Some(status) => Reading { phases: with_task(r.phases, task_of(status, text)), ..r },
        }
    } else {
        Reading {
            errors: r.errors.push(
                "Line "@ + dec(number) + ": unrecognized syntax \""@ + line + "\""@,
            ),
            ..r
        }
    }
}

/// What the first `n` lines of a text hold.
pub open spec fn read_lines(l: Seq<Seq<char>>, n: nat) -> Reading
    decreases n,
{
    if n == 0 {
        Reading { phases: Seq::empty(), errors: Seq::empty() }
    } else {
        read_line(read_lines(l, (n - 1) as nat), n, line_body(l[n - 1]))
    }
}

/// What a text holds. At most one task is left under way. The heading that stands for no list holds
/// none.
pub open spec fn reading(markdown: Seq<char>) -> Reading {
    if markdown == "# Todos\n"@ {
        Reading { phases: Seq::empty(), errors: Seq::empty() }
    } else {
        let r = read_lines(lines(markdown), lines(markdown).len());
        Reading { phases: settled(r.phases), errors: r.errors }
    }
}

/// Adds a task to the last phase.
fn add_task(phases: &mut Vec<TodoPhase>, item: TodoItem)
    ensures
        phases_of(final(phases)@) == with_task(phases_of(old(phases)@), item@),
{
    let ghost p = phases_of(phases@);
    if phases.len() == 0 {
        phases.push(TodoPhase { name: "Todos".to_owned(), tasks: Vec::new() });
        assert(phases_of(phases@)[0].tasks =~= Seq::<ItemView>::empty());
    }
    let ghost q = phases_of(phases@);
    let last: usize = phases.len() - 1;
    phases[last].tasks.push(item);
    proof {
        let r = phases_of(phases@);
        assert(r[last as int].tasks =~= q[last as int].tasks.push(item@));
        assert forall|a: int| 0 <= a < last implies r[a] == q[a] by {}
        assert(r =~= with_task(p, item@));
    }
}

/// Reads one line.
fn parse_line(
    raw: &str,
    number: usize,
    phases: &mut Vec<TodoPhase>,
    errors: &mut Vec<String>,
)
    ensures
        read_line(
            (Reading { phases: phases_of(old(phases)@), errors: texts(old(errors)@) }),
            number as nat,
            raw@,
        ) == (Reading { phases: phases_of(final(phases)@), errors: texts(final(errors)@) }),
{
    let ghost r0 = Reading { phases: phases_of(phases@), errors: texts(errors@) };
    let chars = chars_of(raw);
    let line = trimmed(chars.as_slice());
    if line.len() == 0 {
        return;
    }
    if let Some(title) = parse_heading(line) {
        phases.push(TodoPhase { name: title, tasks: Vec::new() });
        proof {
            let x = PhaseView { name: title@, tasks: Seq::empty() };
            assert(phases@.last()@ =~= x);
            assert(phases_of(phases@) =~= r0.phases.push(x));
        }
        return;
    }
    if let Some((marker, text)) = parse_checklist(line) {
        match marker_to_status(marker) {
            None => {
                let mut m = String::new();
                m.append("Line ");
                push_dec(&mut m, number as u64);
                m.append(": unknown status marker \"[");
                push_chars(&mut m, marker);
                m.append("]\" (use [ ], [x], [/], [-], [!])");
                let ghost want = "Line "@ + dec(number as nat) + ": unknown status marker \"["@
                    + marker@ + "]\" (use [ ], [x], [/], [-], [!])"@;
                assert(m@ =~= want);
                errors.push(m);
                assert(texts(errors@) =~= r0.errors.push(want));
            },
            Some(status) => {
                let item = if status == TodoStatus::Blocked {
                    let (content, blocker) = strip_blocker_comment(text);
                    TodoItem { content, status, blocker }
                } else {
                    TodoItem { content: string_of(text), status, blocker: None }
                };
                assert(item@ =~= task_of(status, text@));
                add_task(phases, item);
            },
        }
        return;
    }
    let mut m = String::new();
    m.append("Line ");
    push_dec(&mut m, number as u64);
    m.append(": unrecognized syntax \"");
    push_chars(&mut m, line);
    m.append("\"");
    let ghost want = "Line "@ + dec(number as nat) + ": unrecognized syntax \""@ + line@ + "\""@;
    assert(m@ =~= want);
    errors.push(m);
    assert(texts(errors@) =~= r0.errors.push(want));
}

/// Reads a Markdown checklist. A line that cannot be read is reported and passed over.
pub fn markdown_to_phases(markdown: &str) -> (r: (Vec<TodoPhase>, Vec<String>))
    ensures
        (Reading { phases: phases_of(r.0@), errors: texts(r.1@) }) == reading(markdown@),
{
    let mut phases: Vec<TodoPhase> = Vec::new();
    let mut errors: Vec<String> = Vec::new();
    let mut rest = markdown;
    let mut n: usize = 0;
    let ghost l = lines(markdown@);
    proof {
        crate::text::truncate::lemma_lines_at_most_bytes(markdown@);
        assert(phases_of(phases@) =~= Seq::<PhaseView>::empty());
        assert(texts(errors@) =~= Seq::<Seq<char>>::empty());
        assert(l.skip(0) =~= l);
    }
    if str_eq(markdown, "# Todos\n") {
        return (phases, errors);
    }
    let total: usize = crate::strings::str_len(markdown);
    while !rest.is_empty()
        invariant
            l.len() <= total,
            n <= l.len(),
            l.skip(n as int) == lines(rest@),
            (Reading { phases: phases_of(phases@), errors: texts(errors@) }) == read_lines(
                l,
                n as nat,
            ),
        decreases rest@.len(),
    {
        proof {
            lemma_lines(rest@);
            lemma_first_line(rest@);
            assert(l.skip(n as int)[0] == l[n as int]);
            assert(l.skip(n + 1) =~= l.skip(n as int).drop_first());
            assert(lines(rest@).drop_first() =~= lines(after_line(rest@)));
        }
        let (line, tail) = next_line(rest);
        let body = body_of(line);
        n += 1;
        parse_line(body, n, &mut phases, &mut errors);
        rest = tail;
    }
    proof {
        lemma_lines(rest@);
        assert(n == l.len());
    }
    normalize_in_progress(&mut phases);
    (phases, errors)
}

/// A text that can stand in a line as it is: no white space at its ends, no line break in it.
pub open spec fn clean_text(s: Seq<char>) -> bool {
    &&& s.len() > 0
    &&& !is_space(s[0])
    &&& !is_space(s.last())
    &&& forall|i: int| 0 <= i < s.len() ==> s[i] != '\n'
}

/// A task whose line says all of it: the texts are clean, and no text of a blocked task reads like
/// the comment that a reason stands in.
pub open spec fn clean_item(item: ItemView) -> bool {
    &&& clean_text(item.content)
    &&& item.status == TodoStatus::Blocked ==> match item.blocker {
        Some(b) => clean_text(b) && rfind(b, "<!-- blocker:"@) is None,
        None => uncommented(item.content).1 is None,
    }
}

/// A list whose Markdown says all of it.
pub open spec fn clean_list(p: Seq<PhaseView>) -> bool {
    &&& forall|i: int| 0 <= i < p.len() ==> clean_text((#[trigger] p[i]).name)
    &&& forall|i: int, j: int|
        0 <= i < p.len() && 0 <= j < p[i].tasks.len() ==> clean_item(#[trigger] p[i].tasks[j])
}

/// A task as Markdown keeps it: only a blocked task has a reason.
pub open spec fn kept_item(item: ItemView) -> ItemView {
    if item.status == TodoStatus::Blocked {
        item
    } else {
        ItemView { blocker: None, ..item }
    }
}

/// A phase as Markdown keeps it.
pub open spec fn kept_phase(p: PhaseView) -> PhaseView {
    PhaseView { name: p.name, tasks: Seq::new(p.tasks.len(), |j: int| kept_item(p.tasks[j])) }
}

/// A list as Markdown keeps it.
pub open spec fn kept(p: Seq<PhaseView>) -> Seq<PhaseView> {
    Seq::new(p.len(), |i: int| kept_phase(p[i]))
}

/// What is written is read again: the Markdown of a list holds the list, with at most one task
/// under way, and nothing in it is unreadable.
pub proof fn lemma_markdown_round_trip(p: Seq<PhaseView>)
    requires
        clean_list(p),
    ensures
        reading(unlines(list_lines(p))) == (Reading { phases: settled(kept(p)), errors: Seq::empty() }),
{
    let none = seq!["# Todos"@];
    lemma_no_list_text();
    if p.len() == 0 {
        assert(settled(kept(p)) =~= Seq::<PhaseView>::empty());
    } else {
        let l = list_lines(p);
        lemma_phase_lines_clean(p);
        assert forall|i: int| 0 <= i < l.len() implies whole_line(#[trigger] l[i]) by {
            if i < phase_lines(p).len() {
                assert(l[i] == phase_lines(p)[i]);
            }
        }
        lemma_lines_of_unlines(l);
        let t = lines(unlines(l));
        lemma_read_raw(t, l, l.len());
        assert(l.take(l.len() as int) =~= l);
        lemma_read_phases(p);
        if is_bare(p) {
            assert(l.drop_last() =~= phase_lines(p));
        }
        if unlines(l) == "# Todos\n"@ {
            assert(l.len() == lines(unlines(none)).len());
            assert(l[0].push('\n') == lines(unlines(none))[0]);
            assert(l[0].push('\n').drop_last() =~= l[0]);
            assert(none[0].push('\n').drop_last() =~= none[0]);
            assert(l[0] == none[0]);
            lemma_one_line(p);
        }
    }
}

/// The heading that stands for no list is its own line.
proof fn lemma_no_list_text()
    ensures
        unlines(seq!["# Todos"@]) == "# Todos\n"@,
        lines("# Todos\n"@) == seq!["# Todos"@.push('\n')],
{
    let none = seq!["# Todos"@];
    reveal_strlit("# Todos");
    reveal_strlit("# Todos\n");
    assert(none.drop_last() =~= Seq::<Seq<char>>::empty());
    assert(unlines(none.drop_last()) =~= Seq::<char>::empty());
    assert(unlines(none) =~= "# Todos"@.push('\n'));
    assert("# Todos"@.push('\n') =~= "# Todos\n"@);
    lemma_lines_of_unlines(none);
    assert(lines("# Todos\n"@) =~= seq!["# Todos"@.push('\n')]);
}

/// No list that has phases is the heading alone that stands for no list.
proof fn lemma_one_line(p: Seq<PhaseView>)
    requires
        p.len() > 0,
    ensures
        list_lines(p).len() != 1 || list_lines(p)[0] != "# Todos"@,
{
    reveal_strlit("# Todos");
    reveal_strlit("# ");
    reveal_strlit("Todos");
    let l = phase_lines(p);
    assert(l.len() >= 1);
    if list_lines(p).len() == 1 && list_lines(p)[0] == "# Todos"@ {
        assert(!is_bare(p));
        if p.len() == 1 {
            assert(p.drop_last() =~= Seq::<PhaseView>::empty());
            assert(p.last().tasks.len() == 0);
            assert(l[0] == "# "@ + p[0].name);
            assert(("# "@ + p[0].name).skip(2) =~= p[0].name);
            assert("# Todos"@.skip(2) =~= "Todos"@);
        } else {
            assert(l.len() >= 2);
        }
    }
}

/// A line that survives being written and read.
spec fn whole_line(s: Seq<char>) -> bool {
    (forall|i: int| 0 <= i < s.len() ==> s[i] != '\n') && (s.len() > 0 ==> s.last() != '\r')
}

proof fn lemma_lines_of_unlines(l: Seq<Seq<char>>)
    requires
        forall|i: int| 0 <= i < l.len() ==> whole_line(#[trigger] l[i]),
    ensures
        lines(unlines(l)) == Seq::new(l.len(), |i: int| l[i].push('\n')),
    decreases l.len(),
{
    let want = Seq::new(l.len(), |i: int| l[i].push('\n'));
    if l.len() == 0 {
        lemma_lines(unlines(l));
        assert(lines(unlines(l)) =~= want);
    } else {
        let rest = l.drop_first();
        let line = l[0].push('\n');
        assert(whole_line(l[0]));
        lemma_unlines_first(l);
        assert forall|i: int| 0 <= i < rest.len() implies whole_line(#[trigger] rest[i]) by {
            assert(rest[i] == l[i + 1]);
        }
        lemma_lines_of_unlines(rest);
        lemma_single_line(line);
        lemma_lines_concat(line, unlines(rest));
        assert(lines(unlines(l)) =~= want);
    }
}

/// What lines without their line breaks hold.
spec fn read_raw(l: Seq<Seq<char>>) -> Reading
    decreases l.len(),
{
    if l.len() == 0 {
        Reading { phases: Seq::empty(), errors: Seq::empty() }
    } else {
        read_line(read_raw(l.drop_last()), l.len(), l.last())
    }
}

proof fn lemma_read_raw(t: Seq<Seq<char>>, l: Seq<Seq<char>>, n: nat)
    requires
        n <= l.len(),
        t == Seq::new(l.len(), |i: int| l[i].push('\n')),
        forall|i: int| 0 <= i < l.len() ==> whole_line(#[trigger] l[i]),
    ensures
        read_lines(t, n) == read_raw(l.take(n as int)),
    decreases n,
{
    if n > 0 {
        lemma_read_raw(t, l, (n - 1) as nat);
        assert(l.take(n as int).drop_last() =~= l.take(n - 1));
        let line = l[n - 1];
        assert(whole_line(line));
        assert(line.push('\n').drop_last() =~= line);
        assert(line_body(t[n - 1]) == line);
    }
}

proof fn lemma_trim_clean(s: Seq<char>)
    requires
        s.len() > 0,
        !is_space(s[0]),
        !is_space(s.last()),
    ensures
        trim(s) == s,
        trim_end(s) == s,
        trim(seq![' '] + s) == s,
        trim_end(s.push(' ')) == s,
        trim((seq![' '] + s).push(' ')) == s,
{
    assert((seq![' '] + s).drop_first() =~= s);
    assert(s.push(' ').drop_last() =~= s);
    let w = (seq![' '] + s).push(' ');
    assert(w.drop_first() =~= s.push(' '));
    assert(s.push(' ')[0] == s[0]);
    assert(trim_start(s.push(' ')) == s.push(' '));
    assert(trim_start(w) == s.push(' '));
}

proof fn lemma_heading_line(name: Seq<char>)
    requires
        clean_text(name),
    ensures
        ({
            let t = "# "@ + name;
            &&& whole_line(t)
            &&& trim(t) == t
            &&& t.len() > 0
            &&& heading(t) == Some(name)
        }),
{
    reveal_strlit("# ");
    let t = "# "@ + name;
    assert(t[0] == '#' && t[1] == ' ');
    assert(t.last() == name.last());
    lemma_trim_clean(t);
    reveal_with_fuel(hashes, 2);
    assert(t.drop_first()[0] == ' ');
    assert(hashes(t) == 1);
    assert(t.skip(1) =~= seq![' '] + name);
    lemma_trim_clean(name);
    assert forall|i: int| 0 <= i < t.len() implies t[i] != '\n' by {
        if i >= 2 {
            assert(t[i] == name[i - 2]);
        }
    }
}

/// The text behind the marker of a task's line.
spec fn task_text(item: ItemView) -> Seq<char> {
    if item.status == TodoStatus::Blocked && item.blocker is Some {
        item.content + " <!-- blocker: "@ + item.blocker->0 + " -->"@
    } else {
        item.content
    }
}

proof fn lemma_task_line(item: ItemView)
    requires
        clean_item(item),
    ensures
        ({
            let t = task_line(item);
            &&& whole_line(t)
            &&& trim(t) == t
            &&& t.len() > 0
            &&& heading(t) is None
            &&& checklist(t) == Some((seq![marker_of(item.status)], task_text(item)))
        }),
{
    reveal_strlit("- [");
    reveal_strlit("] ");
    reveal_strlit(" <!-- blocker: ");
    reveal_strlit(" -->");
    let m = marker_of(item.status);
    let t = task_line(item);
    let x = task_text(item);
    assert(x[0] == item.content[0]);
    assert forall|i: int| 0 <= i < x.len() implies x[i] != '\n' by {
        if item.status == TodoStatus::Blocked && item.blocker is Some {
            let c = item.content;
            let b = item.blocker->0;
            if i < c.len() {
                assert(x[i] == c[i]);
            } else if i < c.len() + 15 {
                assert(x[i] == " <!-- blocker: "@[i - c.len()]);
            } else if i < c.len() + 15 + b.len() {
                assert(x[i] == b[i - c.len() - 15]);
            } else {
                assert(x[i] == " -->"@[i - c.len() - 15 - b.len()]);
            }
        }
    }
    assert(t =~= "- ["@.push(m) + "] "@ + x);
    assert(t[0] == '-' && t[1] == ' ' && t[2] == '[' && t[3] == m && t[4] == ']' && t[5] == ' ');
    assert(t.last() == x.last());
    assert(!is_space(x.last())) by {
        if item.status == TodoStatus::Blocked && item.blocker is Some {
            assert(x.last() == '>');
        }
    }
    lemma_trim_clean(t);
    reveal_with_fuel(skip_space, 3);
    assert(skip_space(t, 1) == 2);
    assert(t.skip(5) =~= seq![' '] + x);
    lemma_trim_clean(x);
    assert(x.last() != '\r') by {
        if x.last() == '\r' {
            assert(is_space('\r'));
        }
    }
    assert forall|i: int| 0 <= i < t.len() implies t[i] != '\n' by {
        if i >= 6 {
            assert(t[i] == x[i - 6]);
        }
    }
}

proof fn lemma_rfind(s: Seq<char>, pat: Seq<char>, i: int)
    requires
        pat.len() > 0,
        0 <= i,
        i + pat.len() <= s.len(),
        s.subrange(i, i + pat.len()) == pat,
        forall|k: int|
            i < k && k + pat.len() <= s.len() ==> #[trigger] s.subrange(k, k + pat.len()) != pat,
    ensures
        rfind(s, pat) == Some(i),
    decreases s.len(),
{
    let n = s.len() - pat.len();
    assert(s.skip(n) =~= s.subrange(n, n + pat.len()));
    if n > i {
        let t = s.drop_last();
        assert(t.subrange(i, i + pat.len()) =~= s.subrange(i, i + pat.len()));
        assert forall|k: int| i < k && k + pat.len() <= t.len() implies #[trigger] t.subrange(
            k,
            k + pat.len(),
        ) != pat by {
            assert(t.subrange(k, k + pat.len()) =~= s.subrange(k, k + pat.len()));
        }
        lemma_rfind(t, pat, i);
    }
}

proof fn lemma_rfind_none(s: Seq<char>, pat: Seq<char>, k: int)
    requires
        pat.len() > 0,
        rfind(s, pat) is None,
        0 <= k,
        k + pat.len() <= s.len(),
    ensures
        s.subrange(k, k + pat.len()) != pat,
    decreases s.len(),
{
    let n = s.len() - pat.len();
    assert(s.skip(n) =~= s.subrange(n, n + pat.len()));
    if k < n {
        let t = s.drop_last();
        lemma_rfind_none(t, pat, k);
        assert(t.subrange(k, k + pat.len()) =~= s.subrange(k, k + pat.len()));
    }
}

proof fn lemma_uncommented(c: Seq<char>, b: Seq<char>)
    requires
        clean_text(c),
        clean_text(b),
        rfind(b, "<!-- blocker:"@) is None,
    ensures
        uncommented(c + " <!-- blocker: "@ + b + " -->"@) == (c, Some(b)),
{
    reveal_strlit(" <!-- blocker: ");
    reveal_strlit("<!-- blocker:");
    reveal_strlit(" -->");
    reveal_strlit("-->");
    let open = " <!-- blocker: "@;
    let pat = "<!-- blocker:"@;
    let x = c + open + b + " -->"@;
    let n = x.len() as int;
    assert(x.last() == '>');
    assert(x[n - 1] == '>' && x[n - 2] == '-' && x[n - 3] == '-');
    assert(trim_end(x) == x);
    assert(x.skip(n - 3) =~= "-->"@);
    let w = x.take(n - 3);
    let i0 = c.len() as int + 1;
    let start = c.len() as int + 15;
    assert(w =~= c + open + b.push(' '));
    assert(w.subrange(i0, i0 + 13) =~= pat);
    assert forall|k: int| i0 < k && k + pat.len() <= w.len() implies #[trigger] w.subrange(
        k,
        k + pat.len(),
    ) != pat by {
        if w.subrange(k, k + pat.len()) == pat {
            assert(w.subrange(k, k + 13)[0] == '<');
            assert(w[k] == '<');
            if k < start {
                assert(w[k] == open[k - c.len()]);
            } else {
                assert(w.subrange(k, k + 13)[12] == ':');
                assert(w[k + 12] == ':');
                let q = k - start;
                assert(w[w.len() - 1] == ' ');
                assert(k + 13 < w.len());
                assert(b.subrange(q, q + 13) =~= w.subrange(k, k + 13));
                lemma_rfind_none(b, pat, q);
            }
        }
    }
    lemma_rfind(w, pat, i0);
    assert(w.take(i0) =~= c.push(' '));
    assert(w.skip(i0 + 13) =~= (seq![' '] + b).push(' '));
    lemma_trim_clean(c);
    lemma_trim_clean(b);
}

proof fn lemma_read_task(r: Reading, number: nat, item: ItemView)
    requires
        clean_item(item),
        r.phases.len() > 0,
    ensures
        read_line(r, number, task_line(item)) == (Reading {
            phases: with_task(r.phases, kept_item(item)),
            ..r
        }),
{
    lemma_task_line(item);
    if item.status == TodoStatus::Blocked {
        match item.blocker {
            Some(b) => {
                lemma_uncommented(item.content, b);
            },
            None => {
                lemma_trim_clean(item.content);
            },
        }
    }
    assert(task_of(item.status, task_text(item)) =~= kept_item(item));
}

proof fn lemma_read_tasks(base: Seq<Seq<char>>, p: Seq<PhaseView>, h: PhaseView, n: nat)
    requires
        n <= h.tasks.len(),
        read_raw(base) == (Reading {
            phases: p.push(PhaseView { name: h.name, tasks: Seq::empty() }),
            errors: Seq::empty(),
        }),
        forall|j: int| 0 <= j < h.tasks.len() ==> clean_item(#[trigger] h.tasks[j]),
    ensures
        read_raw(base + task_lines(h.tasks).take(n as int)) == (Reading {
            phases: p.push(PhaseView {
                name: h.name,
                tasks: kept_phase(h).tasks.take(n as int),
            }),
            errors: Seq::empty(),
        }),
    decreases n,
{
    let t = task_lines(h.tasks);
    let k = kept_phase(h).tasks;
    if n == 0 {
        assert(base + t.take(0) =~= base);
        assert(k.take(0) =~= Seq::<ItemView>::empty());
    } else {
        lemma_read_tasks(base, p, h, (n - 1) as nat);
        let l = base + t.take(n as int);
        assert(l.drop_last() =~= base + t.take(n - 1));
        assert(l.last() == task_line(h.tasks[n - 1]));
        let r = read_raw(l.drop_last());
        lemma_read_task(r, l.len(), h.tasks[n - 1]);
        assert(k.take(n as int) =~= k.take(n - 1).push(kept_item(h.tasks[n - 1])));
        let q = r.phases;
        assert(q.last().name == h.name);
        assert(with_task(q, kept_item(h.tasks[n - 1])) =~= p.push(PhaseView {
            name: h.name,
            tasks: k.take(n as int),
        }));
    }
}

proof fn lemma_read_phases(p: Seq<PhaseView>)
    requires
        p.len() > 0,
        clean_list(p),
    ensures
        read_raw(phase_lines(p)) == (Reading { phases: kept(p), errors: Seq::empty() }),
    decreases p.len(),
{
    let q = p.drop_last();
    let h = p.last();
    let front = phase_lines(q);
    if q.len() > 0 {
        assert forall|i: int| 0 <= i < q.len() implies clean_text((#[trigger] q[i]).name) by {
            assert(q[i] == p[i]);
        }
        assert forall|i: int, j: int| 0 <= i < q.len() && 0 <= j < q[i].tasks.len() implies clean_item(
            #[trigger] q[i].tasks[j],
        ) by {
            assert(q[i].tasks[j] == p[i].tasks[j]);
        }
        lemma_read_phases(q);
    } else {
        assert(kept(q) =~= Seq::<PhaseView>::empty());
    }
    let empty = Seq::<char>::empty();
    let base0 = if p.len() > 1 {
        front + seq![empty]
    } else {
        front
    };
    if p.len() > 1 {
        assert(base0.drop_last() =~= front);
        assert(base0.last() == empty);
        assert(trim(empty) =~= empty);
        assert(read_raw(base0) == read_raw(front));
    }
    assert(read_raw(base0) == (Reading { phases: kept(q), errors: Seq::empty() })) by {
        if p.len() <= 1 {
            assert(q =~= Seq::<PhaseView>::empty());
            assert(front =~= Seq::<Seq<char>>::empty());
        }
    }
    let head = "# "@ + h.name;
    let base = base0 + seq![head];
    assert(base.drop_last() =~= base0);
    assert(base.last() == head);
    assert(clean_text(p[p.len() - 1].name));
    lemma_heading_line(h.name);
    assert(read_raw(base) == (Reading {
        phases: kept(q).push(PhaseView { name: h.name, tasks: Seq::empty() }),
        errors: Seq::empty(),
    }));
    assert forall|j: int| 0 <= j < h.tasks.len() implies clean_item(#[trigger] h.tasks[j]) by {
        assert(p[p.len() - 1].tasks[j] == h.tasks[j]);
    }
    lemma_read_tasks(base, kept(q), h, h.tasks.len());
    assert(task_lines(h.tasks).take(h.tasks.len() as int) =~= task_lines(h.tasks));
    assert(base + task_lines(h.tasks) =~= phase_lines(p));
    assert(kept_phase(h).tasks.take(h.tasks.len() as int) =~= kept_phase(h).tasks);
    assert(kept(q).push(kept_phase(h)) =~= kept(p));
}

proof fn lemma_phase_lines_clean(p: Seq<PhaseView>)
    requires
        p.len() > 0,
        clean_list(p),
    ensures
        forall|i: int| 0 <= i < phase_lines(p).len() ==> whole_line(#[trigger] phase_lines(p)[i]),
    decreases p.len(),
{
    let q = p.drop_last();
    let h = p.last();
    if q.len() > 0 {
        assert forall|i: int| 0 <= i < q.len() implies clean_text((#[trigger] q[i]).name) by {
            assert(q[i] == p[i]);
        }
        assert forall|i: int, j: int| 0 <= i < q.len() && 0 <= j < q[i].tasks.len() implies clean_item(
            #[trigger] q[i].tasks[j],
        ) by {
            assert(q[i].tasks[j] == p[i].tasks[j]);
        }
        lemma_phase_lines_clean(q);
    }
    let front = phase_lines(q);
    let l = phase_lines(p);
    let sep: Seq<Seq<char>> = if p.len() > 1 {
        seq![Seq::<char>::empty()]
    } else {
        Seq::empty()
    };
    assert(clean_text(p[p.len() - 1].name));
    lemma_heading_line(h.name);
    assert forall|i: int| 0 <= i < l.len() implies whole_line(#[trigger] l[i]) by {
        if i < front.len() {
            assert(l[i] == front[i]);
        } else if i < front.len() + sep.len() {
            assert(l[i] == Seq::<char>::empty());
        } else if i == front.len() + sep.len() {
            assert(l[i] == "# "@ + h.name);
        } else {
            let j = i - front.len() - sep.len() - 1;
            assert(clean_item(p[p.len() - 1].tasks[j]));
            assert(l[i] == task_line(h.tasks[j]));
            lemma_task_line(h.tasks[j]);
        }
    }
}

} // verus!
