//! What is read from a checklist that people write.

use vstd::prelude::*;

use crate::strings::{dec, holds, is_space, lemma_holds, trim, trim_start};
use crate::tools::todo::{ItemView, PhaseView, TodoStatus};
use crate::tools::todo_markdown::{
    checklist, clean_text, hashes, heading, read_line, skip_space, status_of, Reading,
};

verus! {

broadcast use vstd::seq::group_seq_axioms;

/// The status that a mark stands for, if it does.
pub open spec fn is_mark_of(mark: char, status: TodoStatus) -> bool {
    match status {
        TodoStatus::Pending => mark == ' ',
        TodoStatus::InProgress => mark == '/' || mark == '>',
        TodoStatus::Completed => mark == 'x' || mark == 'X',
        TodoStatus::Abandoned => mark == '-' || mark == '~',
        TodoStatus::Blocked => mark == '!',
    }
}

proof fn lemma_clean_stays(s: Seq<char>)
    requires
        s.len() > 0,
        !is_space(s[0]),
        !is_space(s.last()),
    ensures
        trim(s) == s,
{
}

proof fn lemma_blank_in_front(s: Seq<char>)
    requires
        clean_text(s),
    ensures
        trim(seq![' '] + s) == s,
{
    let t = seq![' '] + s;
    assert(t[0] == ' ');
    assert(t.drop_first() =~= s);
    assert(trim_start(s) == s);
    assert(trim_start(t) == s);
}

/// The line of a task: a bullet, a mark in brackets, and its text.
pub open spec fn line_of(bullet: char, mark: char, text: Seq<char>) -> Seq<char> {
    seq![bullet, ' ', '[', mark, ']', ' '] + text
}

proof fn lemma_checklist(bullet: char, mark: char, text: Seq<char>)
    requires
        bullet == '-' || bullet == '*' || bullet == '+',
        clean_text(text),
    ensures
        ({
            let line = line_of(bullet, mark, text);
            &&& trim(line) == line
            &&& heading(line) is None
            &&& checklist(line) == Some((seq![mark], text))
        }),
{
    let line = line_of(bullet, mark, text);
    assert(line[0] == bullet && line[1] == ' ' && line[2] == '[' && line[3] == mark);
    assert(line[4] == ']' && line[5] == ' ');
    assert(line.last() == text.last());
    lemma_clean_stays(line);
    assert(hashes(line) == 0);
    assert(skip_space(line, 2) == 2);
    assert(skip_space(line, 1) == 2);
    assert(line.skip(5) =~= seq![' '] + text);
    lemma_blank_in_front(text);
}

/// A line with a bullet, a mark in brackets and a text is a task of the phase above it, or of one of its
/// own where there is none, with the status that the mark stands for; nothing else changes.
pub proof fn lemma_task_is_read(
    r: Reading,
    number: nat,
    bullet: char,
    mark: char,
    text: Seq<char>,
    status: TodoStatus,
)
    requires
        bullet == '-' || bullet == '*' || bullet == '+',
        is_mark_of(mark, status),
        status != TodoStatus::Blocked,
        clean_text(text),
    ensures
        ({
            let after = read_line(r, number, line_of(bullet, mark, text));
            let task = ItemView { content: text, status, blocker: None };
            &&& after.errors == r.errors
            &&& r.phases.len() > 0 ==> after.phases.len() == r.phases.len() && after.phases.drop_last()
                == r.phases.drop_last() && after.phases.last().name == r.phases.last().name
                && after.phases.last().tasks == r.phases.last().tasks.push(task)
            &&& r.phases.len() == 0 ==> after.phases == seq![
                PhaseView { name: "Todos"@, tasks: seq![task] },
            ]
        }),
{
    lemma_checklist(bullet, mark, text);
    let after = read_line(r, number, line_of(bullet, mark, text));
    assert(status_of(seq![mark]) == Some(status));
    if r.phases.len() > 0 {
        assert(after.phases.drop_last() =~= r.phases.drop_last());
    } else {
        let task = ItemView { content: text, status, blocker: None };
        assert(Seq::<ItemView>::empty().push(task) =~= seq![task]);
        assert(after.phases =~= seq![PhaseView { name: "Todos"@, tasks: seq![task] }]);
    }
}

/// A line with another mark is no task: it is told which mark that was and in which line, and the list
/// stays as it was.
pub proof fn lemma_other_mark_is_told(
    r: Reading,
    number: nat,
    bullet: char,
    mark: char,
    text: Seq<char>,
)
    requires
        bullet == '-' || bullet == '*' || bullet == '+',
        forall|status: TodoStatus| !#[trigger] is_mark_of(mark, status),
        clean_text(text),
    ensures
        ({
            let after = read_line(r, number, line_of(bullet, mark, text));
            &&& after.phases == r.phases
            &&& after.errors.len() == r.errors.len() + 1
            &&& after.errors.drop_last() == r.errors
            &&& holds(after.errors.last(), "Line "@ + dec(number) + ":"@)
            &&& holds(after.errors.last(), seq!['[', mark, ']'])
        }),
{
    lemma_checklist(bullet, mark, text);
    assert(!is_mark_of(mark, TodoStatus::Pending));
    assert(!is_mark_of(mark, TodoStatus::InProgress));
    assert(!is_mark_of(mark, TodoStatus::Completed));
    assert(!is_mark_of(mark, TodoStatus::Abandoned));
    assert(!is_mark_of(mark, TodoStatus::Blocked));
    assert(status_of(seq![mark]) is None);
    let after = read_line(r, number, line_of(bullet, mark, text));
    assert(after.errors.drop_last() =~= r.errors);
    reveal_strlit(":");
    reveal_strlit(": unknown status marker \"[");
    reveal_strlit("]\" (use [ ], [x], [/], [-], [!])");
    let said = ": unknown status marker \"["@;
    let hint = "]\" (use [ ], [x], [/], [-], [!])"@;
    let place = "Line "@ + dec(number);
    let e = after.errors.last();
    assert(e == place + said + seq![mark] + hint);
    assert(e =~= Seq::empty() + (place + ":"@) + (said.skip(1) + seq![mark] + hint));
    assert(e =~= (place + said.drop_last()) + seq!['[', mark, ']'] + hint.skip(1));
}

/// A line that is neither a heading nor a task is told, with its number, and the list stays as it was.
pub proof fn lemma_other_line_is_told(r: Reading, number: nat, line: Seq<char>)
    requires
        clean_text(line),
        line[0] != '#',
        line[0] != '-',
        line[0] != '*',
        line[0] != '+',
    ensures
        ({
            let after = read_line(r, number, line);
            &&& after.phases == r.phases
            &&& after.errors.len() == r.errors.len() + 1
            &&& after.errors.drop_last() == r.errors
            &&& holds(after.errors.last(), "Line "@ + dec(number) + ":"@)
            &&& holds(after.errors.last(), line)
        }),
{
    lemma_clean_stays(line);
    assert(hashes(line) == 0);
    assert(heading(line) is None);
    assert(checklist(line) is None);
    let after = read_line(r, number, line);
    assert(after.errors.drop_last() =~= r.errors);
    reveal_strlit(":");
    reveal_strlit(": unrecognized syntax \"");
    let said = ": unrecognized syntax \""@;
    let place = "Line "@ + dec(number);
    let e = after.errors.last();
    assert(e == place + said + line + "\""@);
    assert(e =~= Seq::empty() + (place + ":"@) + (said.skip(1) + line + "\""@));
    lemma_holds(place + said, line, "\""@);
}

proof fn lemma_hashes(n: nat, rest: Seq<char>)
    requires
        rest.len() > 0,
        rest[0] != '#',
    ensures
        hashes(Seq::new(n, |i: int| '#') + rest) == n,
    decreases n,
{
    let s = Seq::new(n, |i: int| '#') + rest;
    if n == 0 {
        assert(s =~= rest);
    } else {
        assert(s[0] == '#');
        assert(s.drop_first() =~= Seq::new((n - 1) as nat, |i: int| '#') + rest);
        lemma_hashes((n - 1) as nat, rest);
    }
}

/// A line with one to six number signs, a blank and a text starts a new phase of that name; an empty
/// line changes nothing.
pub proof fn lemma_phase_is_read(r: Reading, number: nat, n: nat, name: Seq<char>)
    requires
        1 <= n <= 6,
        clean_text(name),
    ensures
        ({
            let line = Seq::new(n, |i: int| '#') + (seq![' '] + name);
            let after = read_line(r, number, line);
            &&& after.errors == r.errors
            &&& after.phases == r.phases.push(PhaseView { name, tasks: Seq::empty() })
        }),
        read_line(r, number, Seq::empty()) == r,
{
    let rest = seq![' '] + name;
    let line = Seq::new(n, |i: int| '#') + rest;
    lemma_hashes(n, rest);
    assert(line.skip(n as int) =~= rest);
    assert(line[0] == '#');
    assert(line.last() == name.last());
    lemma_clean_stays(line);
    lemma_blank_in_front(name);
}

} // verus!
