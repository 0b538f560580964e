//! The todo list of a session: phases, each with its tasks.
//!
//! Tasks and phases are addressed by their text. A list is kept as a Markdown checklist, so a
//! person can read and edit it.

use vstd::prelude::*;

use crate::strings::{
    chars_of, is_space, opt_str, opt_text, opt_view, part_from, push_chars, space, str_eq, texts,
};

verus! {

broadcast use vstd::seq::group_seq_axioms;

/// The status of a task.
#[derive(Debug, Clone, Copy, PartialEq, Eq, Structural)]
pub enum TodoStatus {
    /// Not started.
    Pending,
    /// Being worked on. A list has at most one such task.
    InProgress,
    /// Done.
    Completed,
    /// Given up.
    Abandoned,
    /// Open, and waiting for something outside the list.
    Blocked,
}

/// A task.
#[derive(Debug, Clone)]
pub struct TodoItem {
    /// The text of the task, by which it is addressed.
    pub content: String,
    pub status: TodoStatus,
    /// Why the task is blocked.
    pub blocker: Option<String>,
}

/// A phase with its tasks.
#[derive(Debug, Clone)]
pub struct TodoPhase {
    /// The name of the phase, by which it is addressed.
    pub name: String,
    pub tasks: Vec<TodoItem>,
}

/// What [`TodoItem`] stands for.
#[verifier::ext_equal]
pub struct ItemView {
    pub content: Seq<char>,
    pub status: TodoStatus,
    pub blocker: Option<Seq<char>>,
}

/// What [`TodoPhase`] stands for.
#[verifier::ext_equal]
pub struct PhaseView {
    pub name: Seq<char>,
    pub tasks: Seq<ItemView>,
}

impl View for TodoItem {
    type V = ItemView;

    open spec fn view(&self) -> ItemView {
        ItemView {
            content: self.content@,
            status: self.status,
            blocker: opt_text(self.blocker),
        }
    }
}

/// What a run of tasks stands for.
pub open spec fn items_of(tasks: Seq<TodoItem>) -> Seq<ItemView> {
    Seq::new(tasks.len(), |j: int| tasks[j]@)
}

impl View for TodoPhase {
    type V = PhaseView;

    open spec fn view(&self) -> PhaseView {
        PhaseView { name: self.name@, tasks: items_of(self.tasks@) }
    }
}

/// What a list of phases stands for.
pub open spec fn phases_of(phases: Seq<TodoPhase>) -> Seq<PhaseView> {
    Seq::new(phases.len(), |i: int| phases[i]@)
}

/// Whether `(i, j)` is the place of a task.
pub open spec fn is_place(p: Seq<PhaseView>, i: int, j: int) -> bool {
    0 <= i < p.len() && 0 <= j < p[i].tasks.len()
}

/// Whether the place `(a, b)` comes before `(i, j)`.
pub open spec fn before(a: int, b: int, i: int, j: int) -> bool {
    a < i || a == i && b < j
}

/// The text of the task at `(i, j)`.
pub open spec fn content_at(p: Seq<PhaseView>, i: int, j: int) -> Seq<char> {
    p[i].tasks[j].content
}

/// Whether a task before `(i, j)` has the text `content`.
pub open spec fn task_before(p: Seq<PhaseView>, content: Seq<char>, i: int, j: int) -> bool {
    exists|a: int, b: int|
        is_place(p, a, b) && before(a, b, i, j) && #[trigger] content_at(p, a, b) == content
}

/// Whether some task has the text `content`.
pub open spec fn has_task(p: Seq<PhaseView>, content: Seq<char>) -> bool {
    task_before(p, content, p.len() as int, 0)
}

/// Whether a phase before the phase `i` has the name `name`.
pub open spec fn phase_before(p: Seq<PhaseView>, name: Seq<char>, i: int) -> bool {
    exists|a: int| 0 <= a < i && (#[trigger] p[a]).name == name
}

/// Whether some phase has the name `name`.
pub open spec fn has_phase(p: Seq<PhaseView>, name: Seq<char>) -> bool {
    phase_before(p, name, p.len() as int)
}

/// Whether the task at `(i, j)` is addressed: the first task with the given text, else every task
/// of the first phase with the given name, else every task.
pub open spec fn is_target(
    p: Seq<PhaseView>,
    task: Option<Seq<char>>,
    phase: Option<Seq<char>>,
    i: int,
    j: int,
) -> bool {
    match task {
        Some(content) => content_at(p, i, j) == content && !task_before(p, content, i, j),
        None => match phase {
            Some(name) => p[i].name == name && !phase_before(p, name, i),
            None => true,
        },
    }
}

/// A change to the tasks that are addressed.
pub enum Change {
    /// Gives a task the status.
    Give(TodoStatus),
    /// Blocks an open task, for the given reason.
    Block(Option<String>),
    /// Makes a blocked task pending.
    Unblock,
    /// Starts a task; others that are under way become pending.
    Start(String),
}

/// A task after a change.
pub open spec fn changed_item(change: Change, target: bool, item: ItemView) -> ItemView {
    match change {
        Change::Give(status) => if target {
            ItemView { status, ..item }
        } else {
            item
        },
        Change::Block(reason) => if target && (item.status == TodoStatus::Pending || item.status
            == TodoStatus::InProgress || item.status == TodoStatus::Blocked) {
            ItemView { status: TodoStatus::Blocked, blocker: opt_text(reason), ..item }
        } else {
            item
        },
        Change::Unblock => if target && item.status == TodoStatus::Blocked {
            ItemView { status: TodoStatus::Pending, blocker: None, ..item }
        } else {
            item
        },
        Change::Start(content) => if target {
            ItemView { status: TodoStatus::InProgress, ..item }
        } else if item.status == TodoStatus::InProgress && item.content != content@ {
            ItemView { status: TodoStatus::Pending, ..item }
        } else {
            item
        },
    }
}

/// The phase `i` after a change.
pub open spec fn changed_phase(
    p: Seq<PhaseView>,
    task: Option<Seq<char>>,
    phase: Option<Seq<char>>,
    change: Change,
    i: int,
) -> PhaseView {
    PhaseView {
        name: p[i].name,
        tasks: Seq::new(
            p[i].tasks.len(),
            |j: int| changed_item(change, is_target(p, task, phase, i, j), p[i].tasks[j]),
        ),
    }
}

/// The list after a change.
pub open spec fn changed(
    p: Seq<PhaseView>,
    task: Option<Seq<char>>,
    phase: Option<Seq<char>>,
    change: Change,
) -> Seq<PhaseView> {
    Seq::new(p.len(), |i: int| changed_phase(p, task, phase, change, i))
}

/// Applies a change to one task.
fn change_item(item: &mut TodoItem, change: &Change, target: bool)
    ensures
        final(item)@ == changed_item(*change, target, old(item)@),
{
    match change {
        Change::Give(status) => {
            if target {
                item.status = *status;
            }
        },
        Change::Block(reason) => {
            if target && (item.status == TodoStatus::Pending || item.status
                == TodoStatus::InProgress || item.status == TodoStatus::Blocked) {
                item.status = TodoStatus::Blocked;
                item.blocker = match reason {
                    Some(r) => Some(r.clone()),
                    None => None,
                };
            }
        },
        Change::Unblock => {
            if target && item.status == TodoStatus::Blocked {
                item.status = TodoStatus::Pending;
                item.blocker = None;
            }
        },
        Change::Start(content) => {
            if target {
                item.status = TodoStatus::InProgress;
            } else if item.status == TodoStatus::InProgress && item.content != *content {
                item.status = TodoStatus::Pending;
            }
        },
    }
}

/// Applies a change to the tasks that are addressed.
fn change_targets(
    phases: &mut Vec<TodoPhase>,
    task: Option<&str>,
    phase: Option<&str>,
    change: &Change,
)
    ensures
        phases_of(final(phases)@) == changed(
            phases_of(old(phases)@),
            opt_view(task),
            opt_view(phase),
            *change,
        ),
{
    let ghost p = phases_of(phases@);
    let ghost goal = changed(p, opt_view(task), opt_view(phase), *change);
    let mut seen_task = false;
    let mut seen_phase = false;
    let mut i: usize = 0;
    while i < phases.len()
        invariant
            phases@.len() == p.len(),
            i <= p.len(),
            goal == changed(p, opt_view(task), opt_view(phase), *change),
            task is Some ==> seen_task == task_before(p, task->0@, i as int, 0),
            phase is Some ==> seen_phase == phase_before(p, phase->0@, i as int),
            forall|a: int| 0 <= a < i ==> (#[trigger] phases@[a])@ == goal[a],
            forall|a: int| i <= a < p.len() ==> (#[trigger] phases@[a])@ == p[a],
        decreases p.len() - i,
    {
        let in_phase = match phase {
            Some(name) => !seen_phase && str_eq(phases[i].name.as_str(), name),
            None => true,
        };
        let ghost tasks = p[i as int].tasks;
        assert(phases@[i as int]@ == p[i as int]);
        assert(items_of(phases@[i as int].tasks@) == tasks);
        let n: usize = phases[i].tasks.len();
        let mut j: usize = 0;
        while j < n
            invariant
                phases@.len() == p.len(),
                i < p.len(),
                tasks == p[i as int].tasks,
                n == tasks.len(),
                j <= n,
                goal == changed(p, opt_view(task), opt_view(phase), *change),
                phases@[i as int].tasks@.len() == n,
                phases@[i as int].name@ == p[i as int].name,
                task is Some ==> seen_task == task_before(p, task->0@, i as int, j as int),
                phase is Some ==> in_phase == (p[i as int].name == phase->0@ && !phase_before(
                    p,
                    phase->0@,
                    i as int,
                )),
                phase is None ==> in_phase,
                forall|a: int| 0 <= a < i ==> (#[trigger] phases@[a])@ == goal[a],
                forall|a: int| i < a < p.len() ==> (#[trigger] phases@[a])@ == p[a],
                forall|b: int|
                    0 <= b < j ==> (#[trigger] phases@[i as int].tasks@[b])@
                        == goal[i as int].tasks[b],
                forall|b: int|
                    j <= b < n ==> (#[trigger] phases@[i as int].tasks@[b])@ == tasks[b],
            decreases n - j,
        {
            assert(phases@[i as int].tasks@[j as int]@ == tasks[j as int]);
            let (target, same) = match task {
                Some(content) => {
                    let same = str_eq(phases[i].tasks[j].content.as_str(), content);
                    (same && !seen_task, same)
                },
                None => (in_phase, false),
            };
            proof {
                assert(target == is_target(p, opt_view(task), opt_view(phase), i as int, j as int));
                if let Some(content) = task {
                    lemma_task_before_step(p, content@, i as int, j as int);
                }
            }
            change_item(&mut phases[i].tasks[j], change, target);
            if same {
                seen_task = true;
            }
            j += 1;
        }
        proof {
            assert(items_of(phases@[i as int].tasks@) =~= goal[i as int].tasks);
            assert(phases@[i as int]@ =~= goal[i as int]);
            if let Some(content) = task {
                lemma_task_before_next(p, content@, i as int);
            }
            if let Some(name) = phase {
                if phase_before(p, name@, i + 1) && !phase_before(p, name@, i as int) {
                    let a = choose|a: int| 0 <= a < i + 1 && (#[trigger] p[a]).name == name@;
                    assert(a == i);
                }
                if in_phase {
                    assert(p[i as int].name == name@);
                }
            }
        }
        if phase.is_some() && in_phase {
            seen_phase = true;
        }
        i += 1;
    }
    assert(phases_of(phases@) =~= goal);
}

/// Passing one task.
proof fn lemma_task_before_step(p: Seq<PhaseView>, content: Seq<char>, i: int, j: int)
    requires
        is_place(p, i, j),
    ensures
        task_before(p, content, i, j + 1) == (task_before(p, content, i, j) || content_at(p, i, j)
            == content),
{
    if task_before(p, content, i, j) {
        let (a, b) = choose|a: int, b: int|
            is_place(p, a, b) && before(a, b, i, j) && #[trigger] content_at(p, a, b) == content;
        assert(before(a, b, i, j + 1));
    }
    if content_at(p, i, j) == content {
        assert(before(i, j, i, j + 1));
    }
    if task_before(p, content, i, j + 1) && content_at(p, i, j) != content {
        let (a, b) = choose|a: int, b: int|
            is_place(p, a, b) && before(a, b, i, j + 1) && #[trigger] content_at(p, a, b)
                == content;
        assert(before(a, b, i, j));
    }
}

/// Passing the end of a phase.
proof fn lemma_task_before_next(p: Seq<PhaseView>, content: Seq<char>, i: int)
    requires
        0 <= i < p.len(),
    ensures
        task_before(p, content, i + 1, 0) == task_before(
            p,
            content,
            i,
            p[i].tasks.len() as int,
        ),
{
    let n = p[i].tasks.len() as int;
    if task_before(p, content, i + 1, 0) {
        let (a, b) = choose|a: int, b: int|
            is_place(p, a, b) && before(a, b, i + 1, 0) && #[trigger] content_at(p, a, b)
                == content;
        assert(before(a, b, i, n));
    }
    if task_before(p, content, i, n) {
        let (a, b) = choose|a: int, b: int|
            is_place(p, a, b) && before(a, b, i, n) && #[trigger] content_at(p, a, b) == content;
        assert(before(a, b, i + 1, 0));
    }
}

/// Whether a task before `(i, j)` has the text `content`.
fn task_seen(phases: &Vec<TodoPhase>, content: &str, i: usize, j: usize) -> (r: bool)
    requires
        i <= phases@.len(),
        i < phases@.len() ==> j <= phases@[i as int].tasks@.len(),
        i == phases@.len() ==> j == 0,
    ensures
        r == task_before(phases_of(phases@), content@, i as int, j as int),
{
    let ghost p = phases_of(phases@);
    let mut a: usize = 0;
    while a < i || (a == i && i < phases.len() && j > 0)
        invariant
            a <= i + 1,
            i <= phases@.len(),
            a == i + 1 ==> j > 0 && i < phases@.len(),
            i < phases@.len() ==> j <= phases@[i as int].tasks@.len(),
            i == phases@.len() ==> j == 0,
            p == phases_of(phases@),
            a <= i ==> !task_before(p, content@, a as int, 0),
            a == i + 1 ==> !task_before(p, content@, i as int, j as int),
        decreases i + 1 - a,
    {
        let n: usize = if a < i {
            phases[a].tasks.len()
        } else {
            j
        };
        let mut b: usize = 0;
        while b < n
            invariant
                a <= i,
                a < phases@.len(),
                b <= n,
                n <= phases@[a as int].tasks@.len(),
                a == i ==> n == j,
                p == phases_of(phases@),
                !task_before(p, content@, a as int, b as int),
            decreases n - b,
        {
            let same = str_eq(phases[a].tasks[b].content.as_str(), content);
            proof {
                assert(p[a as int].tasks[b as int] == phases@[a as int].tasks@[b as int]@);
                lemma_task_before_step(p, content@, a as int, b as int);
            }
            if same {
                proof {
                    assert(content_at(p, a as int, b as int) == content@);
                    assert(before(a as int, b as int, i as int, j as int));
                    assert(is_place(p, a as int, b as int));
                }
                return true;
            }
            b += 1;
        }
        proof {
            if a < i {
                lemma_task_before_next(p, content@, a as int);
            }
        }
        a += 1;
    }
    false
}

/// Whether a phase before the phase `i` has the name `name`.
fn phase_seen(phases: &Vec<TodoPhase>, name: &str, i: usize) -> (r: bool)
    requires
        i <= phases@.len(),
    ensures
        r == phase_before(phases_of(phases@), name@, i as int),
{
    let ghost p = phases_of(phases@);
    let mut a: usize = 0;
    while a < i
        invariant
            a <= i <= phases@.len(),
            p == phases_of(phases@),
            forall|k: int| 0 <= k < a ==> (#[trigger] p[k]).name != name@,
        decreases i - a,
    {
        if str_eq(phases[a].name.as_str(), name) {
            assert(p[a as int].name == name@);
            return true;
        }
        a += 1;
    }
    false
}

/// Whether `content` has the shape of a number that a list may show: `task-1`.
pub open spec fn is_task_id(content: Seq<char>) -> bool {
    &&& content.len() > 5
    &&& content.take(5) == "task-"@
    &&& forall|i: int| 5 <= i < content.len() ==> '0' <= #[trigger] content[i] && content[i] <= '9'
}

/// Whether `content` has the shape of a number that a list may show: `task-1`.
fn looks_like_task_id(content: &str) -> (r: bool)
    ensures
        r == is_task_id(content@),
{
    proof {
        reveal_strlit("task-");
    }
    let v = chars_of(content);
    if v.len() <= 5 {
        return false;
    }
    if !(v[0] == 't' && v[1] == 'a' && v[2] == 's' && v[3] == 'k' && v[4] == '-') {
        proof {
            if content@.take(5) == "task-"@ {
                assert(content@.take(5)[0] == 't');
                assert(content@.take(5)[1] == 'a');
                assert(content@.take(5)[2] == 's');
                assert(content@.take(5)[3] == 'k');
                assert(content@.take(5)[4] == '-');
            }
        }
        return false;
    }
    assert(content@.take(5) =~= "task-"@);
    let mut i: usize = 5;
    while i < v.len()
        invariant
            5 <= i <= v@.len(),
            v@ == content@,
            forall|k: int| 5 <= k < i ==> '0' <= #[trigger] content@[k] && content@[k] <= '9',
        decreases v@.len() - i,
    {
        if !('0' <= v[i] && v[i] <= '9') {
            assert(!('0' <= content@[i as int] && content@[i as int] <= '9'));
            return false;
        }
        i += 1;
    }
    true
}

/// Whether the list has no task at all.
pub open spec fn no_tasks(p: Seq<PhaseView>) -> bool {
    forall|i: int| 0 <= i < p.len() ==> (#[trigger] p[i]).tasks.len() == 0
}

/// What is said of a task that is not in the list.
pub open spec fn task_missing(p: Seq<PhaseView>, content: Seq<char>) -> Seq<char> {
    if is_task_id(content) {
        "Task \""@ + content
            + "\" not found. Tasks are referenced by content, not by IDs — pass the task's full text from the previous result."@
    } else if no_tasks(p) {
        "Task \""@ + content
            + "\" not found (todo list is empty — was it replaced or not yet created?)"@
    } else {
        "Task \""@ + content + "\" not found"@
    }
}

/// What is said of a phase that is not in the list.
pub open spec fn phase_missing(name: Seq<char>) -> Seq<char> {
    "Phase \""@ + name + "\" not found"@
}

/// The errors of an address.
pub open spec fn target_errors(
    p: Seq<PhaseView>,
    task: Option<Seq<char>>,
    phase: Option<Seq<char>>,
) -> Seq<Seq<char>> {
    match task {
        Some(content) => if has_task(p, content) {
            Seq::empty()
        } else {
            seq![task_missing(p, content)]
        },
        None => match phase {
            Some(name) => if has_phase(p, name) {
                Seq::empty()
            } else {
                seq![phase_missing(name)]
            },
            None => Seq::empty(),
        },
    }
}

/// Makes a message of three pieces and adds it to `errors`.
fn push_error(errors: &mut Vec<String>, front: &str, middle: &str, back: &str)
    ensures
        texts(final(errors)@) == texts(old(errors)@) + seq![front@ + middle@ + back@],
{
    let mut m = String::new();
    m.append(front);
    m.append(middle);
    m.append(back);
    assert(m@ =~= front@ + middle@ + back@);
    errors.push(m);
    assert(texts(errors@) =~= texts(old(errors)@) + seq![front@ + middle@ + back@]);
}

/// Adds a fixed message to `errors`.
fn push_message(errors: &mut Vec<String>, message: &str)
    ensures
        texts(final(errors)@) == texts(old(errors)@) + seq![message@],
{
    errors.push(message.to_owned());
    assert(texts(errors@) =~= texts(old(errors)@) + seq![message@]);
}

/// Whether the list has a task with the text `content`; where not, an error says so.
fn validate_task(phases: &Vec<TodoPhase>, content: &str, errors: &mut Vec<String>) -> (r: bool)
    ensures
        r == has_task(phases_of(phases@), content@),
        texts(final(errors)@) == texts(old(errors)@) + target_errors(
            phases_of(phases@),
            Some(content@),
            None,
        ),
{
    if task_seen(phases, content, phases.len(), 0) {
        assert(texts(errors@) + Seq::<Seq<char>>::empty() =~= texts(errors@));
        return true;
    }
    if looks_like_task_id(content) {
        push_error(
            errors,
            "Task \"",
            content,
            "\" not found. Tasks are referenced by content, not by IDs — pass the task's full text from the previous result.",
        );
        return false;
    }
    let ghost p = phases_of(phases@);
    let mut empty = true;
    let mut i: usize = 0;
    while i < phases.len()
        invariant
            i <= phases@.len(),
            p == phases_of(phases@),
            empty == forall|k: int| 0 <= k < i ==> (#[trigger] p[k]).tasks.len() == 0,
        decreases phases@.len() - i,
    {
        assert(p[i as int].tasks.len() == phases@[i as int].tasks@.len());
        if phases[i].tasks.len() > 0 {
            empty = false;
        }
        i += 1;
    }
    if empty {
        push_error(
            errors,
            "Task \"",
            content,
            "\" not found (todo list is empty — was it replaced or not yet created?)",
        );
    } else {
        push_error(errors, "Task \"", content, "\" not found");
    }
    false
}

/// Whether the list has a phase with the name `name`; where not, an error says so.
fn validate_phase(phases: &Vec<TodoPhase>, name: &str, errors: &mut Vec<String>) -> (r: bool)
    ensures
        r == has_phase(phases_of(phases@), name@),
        texts(final(errors)@) == texts(old(errors)@) + target_errors(
            phases_of(phases@),
            None,
            Some(name@),
        ),
{
    if phase_seen(phases, name, phases.len()) {
        assert(texts(errors@) + Seq::<Seq<char>>::empty() =~= texts(errors@));
        true
    } else {
        push_error(errors, "Phase \"", name, "\" not found");
        false
    }
}

/// Whether an address can be found: a task's, else a phase's, else the whole list's.
fn validate_target(
    phases: &Vec<TodoPhase>,
    task: Option<&str>,
    phase: Option<&str>,
    errors: &mut Vec<String>,
) -> (r: bool)
    ensures
        r == (target_errors(phases_of(phases@), opt_view(task), opt_view(phase)).len() == 0),
        texts(final(errors)@) == texts(old(errors)@) + target_errors(
            phases_of(phases@),
            opt_view(task),
            opt_view(phase),
        ),
{
    if let Some(content) = task {
        return validate_task(phases, content, errors);
    }
    if let Some(name) = phase {
        return validate_phase(phases, name, errors);
    }
    assert(texts(errors@) + Seq::<Seq<char>>::empty() =~= texts(errors@));
    true
}

/// How many leading characters of `s` are white space, or are not, as `blank` says.
pub open spec fn run_len(s: Seq<char>, blank: bool) -> nat
    decreases s.len(),
{
    if s.len() > 0 && is_space(s[0]) == blank {
        1 + run_len(s.drop_first(), blank)
    } else {
        0
    }
}

/// The words of `s` with one blank between them.
pub open spec fn collapsed(s: Seq<char>) -> Seq<char>
    decreases s.len(),
{
    if s.len() == 0 {
        s
    } else if is_space(s[0]) {
        collapsed(s.drop_first())
    } else {
        proof {
            lemma_run_len(s, false);
        }
        let n = run_len(s, false) as int;
        let rest = collapsed(s.skip(n));
        if rest.len() == 0 {
            s.take(n)
        } else {
            s.take(n).push(' ') + rest
        }
    }
}

pub proof fn lemma_run_len(s: Seq<char>, blank: bool)
    ensures
        run_len(s, blank) <= s.len(),
        s.len() > 0 && is_space(s[0]) == blank ==> run_len(s, blank) > 0,
        forall|i: int| 0 <= i < run_len(s, blank) ==> is_space(s[i]) == blank,
        run_len(s, blank) < s.len() ==> is_space(s[run_len(s, blank) as int]) != blank,
    decreases s.len(),
{
    if s.len() > 0 && is_space(s[0]) == blank {
        let t = s.drop_first();
        lemma_run_len(t, blank);
        assert forall|i: int| 0 <= i < run_len(s, blank) implies is_space(s[i]) == blank by {
            if i > 0 {
                assert(s[i] == t[i - 1]);
            }
        }
    }
}

fn collapse(s: &[char], out: &mut String)
    ensures
        final(out)@ == if old(out)@.len() > 0 && collapsed(s@).len() > 0 {
            old(out)@.push(' ') + collapsed(s@)
        } else {
            old(out)@ + collapsed(s@)
        },
    decreases s@.len(),
{
    if s.len() == 0 {
        assert(out@ + s@ =~= out@);
        return;
    }
    if space(s[0]) {
        let rest = part_from(s, 1);
        assert(rest@ =~= s@.drop_first());
        collapse(rest, out);
        return;
    }
    let ghost before = out@;
    let mut n: usize = 0;
    proof {
        lemma_run_len(s@, false);
        assert(s@.skip(0) =~= s@);
    }
    while n < s.len() && !space(s[n])
        invariant
            n <= s@.len(),
            run_len(s@, false) == n + run_len(s@.skip(n as int), false),
        decreases s@.len() - n,
    {
        assert(s@.skip(n as int).drop_first() =~= s@.skip(n + 1));
        n += 1;
    }
    if !out.as_str().is_empty() {
        out.push(' ');
    }
    push_chars(out, crate::strings::part_to(s, n));
    let rest = part_from(s, n);
    collapse(rest, out);
    proof {
        let word = s@.take(n as int);
        let tail = collapsed(rest@);
        if tail.len() > 0 {
            if before.len() > 0 {
                assert(before.push(' ') + word.push(' ') + tail =~= (before.push(' ') + word).push(
                    ' ',
                ) + tail);
                assert(out@ =~= before.push(' ') + collapsed(s@));
            } else {
                assert(out@ =~= before + collapsed(s@));
            }
        } else {
            if before.len() > 0 {
                assert(out@ =~= before.push(' ') + collapsed(s@));
            } else {
                assert(out@ =~= before + collapsed(s@));
            }
        }
    }
}

/// A reason on one line: its words with one blank between them, `None` where there are none.
pub open spec fn blocker_of(reason: Option<Seq<char>>) -> Option<Seq<char>> {
    match reason {
        Some(r) => if collapsed(r).len() == 0 {
            None
        } else {
            Some(collapsed(r))
        },
        None => None,
    }
}

/// Puts a reason on one line: runs of white space become one blank, and nothing is left of one
/// that is blank.
pub fn normalize_blocker(reason: Option<&str>) -> (r: Option<String>)
    ensures
        opt_text(r) == blocker_of(opt_view(reason)),
{
    match reason {
        Some(r) => {
            let v = chars_of(r);
            let mut out = String::new();
            collapse(v.as_slice(), &mut out);
            assert(out@ =~= collapsed(r@));
            if out.as_str().is_empty() {
                None
            } else {
                Some(out)
            }
        },
        None => None,
    }
}

/// The first places with a status.
pub open spec fn status_before(p: Seq<PhaseView>, status: TodoStatus, i: int, j: int) -> bool {
    exists|a: int, b: int|
        is_place(p, a, b) && before(a, b, i, j) && #[trigger] status_at(p, a, b) == status
}

/// The status of the task at `(i, j)`.
pub open spec fn status_at(p: Seq<PhaseView>, i: int, j: int) -> TodoStatus {
    p[i].tasks[j].status
}

/// Whether some task has the status.
pub open spec fn has_status(p: Seq<PhaseView>, status: TodoStatus) -> bool {
    status_before(p, status, p.len() as int, 0)
}

/// The status of the task at `(i, j)` once at most one task is under way: the first task under way
/// stays so, and where there is none the first pending one is started.
pub open spec fn settled_status(p: Seq<PhaseView>, i: int, j: int) -> TodoStatus {
    let status = status_at(p, i, j);
    if status == TodoStatus::InProgress {
        if status_before(p, TodoStatus::InProgress, i, j) {
            TodoStatus::Pending
        } else {
            TodoStatus::InProgress
        }
    } else if status == TodoStatus::Pending && !has_status(p, TodoStatus::InProgress)
        && !status_before(p, TodoStatus::Pending, i, j) {
        TodoStatus::InProgress
    } else {
        status
    }
}

/// The phase `i` once at most one task is under way.
pub open spec fn settled_phase(p: Seq<PhaseView>, i: int) -> PhaseView {
    PhaseView {
        name: p[i].name,
        tasks: Seq::new(
            p[i].tasks.len(),
            |j: int| ItemView { status: settled_status(p, i, j), ..p[i].tasks[j] },
        ),
    }
}

/// The list once at most one task is under way.
pub open spec fn settled(p: Seq<PhaseView>) -> Seq<PhaseView> {
    Seq::new(p.len(), |i: int| settled_phase(p, i))
}

proof fn lemma_status_before_step(p: Seq<PhaseView>, status: TodoStatus, i: int, j: int)
    requires
        is_place(p, i, j),
    ensures
        status_before(p, status, i, j + 1) == (status_before(p, status, i, j) || status_at(p, i, j)
            == status),
{
    if status_before(p, status, i, j) {
        let (a, b) = choose|a: int, b: int|
            is_place(p, a, b) && before(a, b, i, j) && #[trigger] status_at(p, a, b) == status;
        assert(before(a, b, i, j + 1));
    }
    if status_at(p, i, j) == status {
        assert(before(i, j, i, j + 1));
    }
    if status_before(p, status, i, j + 1) && status_at(p, i, j) != status {
        let (a, b) = choose|a: int, b: int|
            is_place(p, a, b) && before(a, b, i, j + 1) && #[trigger] status_at(p, a, b) == status;
        assert(before(a, b, i, j));
    }
}

proof fn lemma_status_before_next(p: Seq<PhaseView>, status: TodoStatus, i: int)
    requires
        0 <= i < p.len(),
    ensures
        status_before(p, status, i + 1, 0) == status_before(p, status, i, p[i].tasks.len() as int),
{
    let n = p[i].tasks.len() as int;
    if status_before(p, status, i + 1, 0) {
        let (a, b) = choose|a: int, b: int|
            is_place(p, a, b) && before(a, b, i + 1, 0) && #[trigger] status_at(p, a, b) == status;
        assert(before(a, b, i, n));
    }
    if status_before(p, status, i, n) {
        let (a, b) = choose|a: int, b: int|
            is_place(p, a, b) && before(a, b, i, n) && #[trigger] status_at(p, a, b) == status;
        assert(before(a, b, i + 1, 0));
    }
}

/// Whether some task has the status.
fn any_status(phases: &Vec<TodoPhase>, status: TodoStatus) -> (r: bool)
    ensures
        r == has_status(phases_of(phases@), status),
{
    let ghost p = phases_of(phases@);
    let mut i: usize = 0;
    while i < phases.len()
        invariant
            i <= phases@.len(),
            p == phases_of(phases@),
            !status_before(p, status, i as int, 0),
        decreases phases@.len() - i,
    {
        let mut j: usize = 0;
        while j < phases[i].tasks.len()
            invariant
                i < phases@.len(),
                j <= phases@[i as int].tasks@.len(),
                p == phases_of(phases@),
                !status_before(p, status, i as int, j as int),
            decreases phases@[i as int].tasks@.len() - j,
        {
            proof {
                assert(p[i as int].tasks[j as int] == phases@[i as int].tasks@[j as int]@);
                lemma_status_before_step(p, status, i as int, j as int);
            }
            if phases[i].tasks[j].status == status {
                proof {
                    assert(is_place(p, i as int, j as int));
                    assert(before(i as int, j as int, p.len() as int, 0));
                    assert(status_at(p, i as int, j as int) == status);
                }
                return true;
            }
            j += 1;
        }
        proof {
            lemma_status_before_next(p, status, i as int);
        }
        i += 1;
    }
    false
}

/// Leaves at most one task under way: the first one stays, and where there is none the first
/// pending task is started.
pub fn normalize_in_progress(phases: &mut Vec<TodoPhase>)
    ensures
        phases_of(final(phases)@) == settled(phases_of(old(phases)@)),
{
    let ghost p = phases_of(phases@);
    let ghost goal = settled(p);
    let any = any_status(phases, TodoStatus::InProgress);
    let mut seen_active = false;
    let mut seen_pending = false;
    let mut i: usize = 0;
    while i < phases.len()
        invariant
            phases@.len() == p.len(),
            i <= p.len(),
            goal == settled(p),
            any == has_status(p, TodoStatus::InProgress),
            seen_active == status_before(p, TodoStatus::InProgress, i as int, 0),
            seen_pending == status_before(p, TodoStatus::Pending, i as int, 0),
            forall|a: int| 0 <= a < i ==> (#[trigger] phases@[a])@ == goal[a],
            forall|a: int| i <= a < p.len() ==> (#[trigger] phases@[a])@ == p[a],
        decreases p.len() - i,
    {
        let ghost tasks = p[i as int].tasks;
        assert(phases@[i as int]@ == p[i as int]);
        assert(items_of(phases@[i as int].tasks@) == tasks);
        let n: usize = phases[i].tasks.len();
        let mut j: usize = 0;
        while j < n
            invariant
                phases@.len() == p.len(),
                i < p.len(),
                tasks == p[i as int].tasks,
                n == tasks.len(),
                j <= n,
                goal == settled(p),
                any == has_status(p, TodoStatus::InProgress),
                phases@[i as int].tasks@.len() == n,
                phases@[i as int].name@ == p[i as int].name,
                seen_active == status_before(p, TodoStatus::InProgress, i as int, j as int),
                seen_pending == status_before(p, TodoStatus::Pending, i as int, j as int),
                forall|a: int| 0 <= a < i ==> (#[trigger] phases@[a])@ == goal[a],
                forall|a: int| i < a < p.len() ==> (#[trigger] phases@[a])@ == p[a],
                forall|b: int|
                    0 <= b < j ==> (#[trigger] phases@[i as int].tasks@[b])@
                        == goal[i as int].tasks[b],
                forall|b: int|
                    j <= b < n ==> (#[trigger] phases@[i as int].tasks@[b])@ == tasks[b],
            decreases n - j,
        {
            proof {
                assert(phases@[i as int].tasks@[j as int]@ == tasks[j as int]);
                lemma_status_before_step(p, TodoStatus::InProgress, i as int, j as int);
                lemma_status_before_step(p, TodoStatus::Pending, i as int, j as int);
            }
            let status = phases[i].tasks[j].status;
            if status == TodoStatus::InProgress {
                if seen_active {
                    phases[i].tasks[j].status = TodoStatus::Pending;
                }
                seen_active = true;
            } else if status == TodoStatus::Pending {
                if !any && !seen_pending {
                    phases[i].tasks[j].status = TodoStatus::InProgress;
                }
                seen_pending = true;
            }
            assert(phases@[i as int].tasks@[j as int]@ =~= goal[i as int].tasks[j as int]);
            j += 1;
        }
        proof {
            assert(items_of(phases@[i as int].tasks@) =~= goal[i as int].tasks);
            assert(phases@[i as int]@ =~= goal[i as int]);
            lemma_status_before_next(p, TodoStatus::InProgress, i as int);
            lemma_status_before_next(p, TodoStatus::Pending, i as int);
        }
        i += 1;
    }
    assert(phases_of(phases@) =~= goal);
}

/// At most one task is under way in a settled list.
pub proof fn lemma_settled_has_one_active(p: Seq<PhaseView>, a: int, b: int, i: int, j: int)
    requires
        is_place(settled(p), a, b),
        is_place(settled(p), i, j),
        status_at(settled(p), a, b) == TodoStatus::InProgress,
        status_at(settled(p), i, j) == TodoStatus::InProgress,
    ensures
        a == i && b == j,
{
    if a != i || b != j {
        assert(before(a, b, i, j) || before(i, j, a, b));
        let x = status_at(p, a, b);
        let y = status_at(p, i, j);
        assert(is_place(p, a, b) && is_place(p, i, j));
        if x == TodoStatus::InProgress {
            assert(before(a, b, p.len() as int, 0));
            assert(has_status(p, TodoStatus::InProgress));
        }
        if y == TodoStatus::InProgress {
            assert(before(i, j, p.len() as int, 0));
            assert(has_status(p, TodoStatus::InProgress));
        }
    }
}

/// A settled list with a pending task has a task under way.
pub proof fn lemma_settled_has_active(p: Seq<PhaseView>)
    requires
        has_status(settled(p), TodoStatus::Pending),
    ensures
        has_status(settled(p), TodoStatus::InProgress),
{
    let s = settled(p);
    let (a, b) = choose|a: int, b: int|
        is_place(s, a, b) && before(a, b, s.len() as int, 0) && #[trigger] status_at(s, a, b)
            == TodoStatus::Pending;
    assert(is_place(p, a, b));
    if has_status(p, TodoStatus::InProgress) {
        lemma_first_status(p, TodoStatus::InProgress, p.len() as int, 0);
    } else {
        assert(status_at(p, a, b) == TodoStatus::Pending);
        assert(before(a, b, p.len() as int, 0));
        lemma_first_status(p, TodoStatus::Pending, p.len() as int, 0);
    }
    let status = if has_status(p, TodoStatus::InProgress) {
        TodoStatus::InProgress
    } else {
        TodoStatus::Pending
    };
    let (i, j) = choose|i: int, j: int|
        is_place(p, i, j) && #[trigger] status_at(p, i, j) == status && !status_before(
            p,
            status,
            i,
            j,
        );
    assert(status_at(s, i, j) == TodoStatus::InProgress);
    assert(is_place(s, i, j));
    assert(before(i, j, s.len() as int, 0));
}

/// What occurs has a first occurrence.
proof fn lemma_first_status(p: Seq<PhaseView>, status: TodoStatus, i: int, j: int)
    requires
        status_before(p, status, i, j),
        0 <= i <= p.len(),
        0 <= j,
        i < p.len() ==> j <= p[i].tasks.len(),
        i == p.len() ==> j == 0,
    ensures
        exists|a: int, b: int|
            is_place(p, a, b) && #[trigger] status_at(p, a, b) == status && !status_before(
                p,
                status,
                a,
                b,
            ),
    decreases i, j,
{
    let (a, b) = choose|a: int, b: int|
        is_place(p, a, b) && before(a, b, i, j) && #[trigger] status_at(p, a, b) == status;
    if status_before(p, status, a, b) {
        lemma_first_status(p, status, a, b);
    }
}

/// A settled list stays as it is.
pub proof fn lemma_settled_twice(p: Seq<PhaseView>)
    ensures
        settled(settled(p)) == settled(p),
{
    let s = settled(p);
    assert forall|i: int, j: int| is_place(s, i, j) implies settled_status(s, i, j) == #[trigger] status_at(
        s,
        i,
        j,
    ) by {
        if status_at(s, i, j) == TodoStatus::InProgress {
            if status_before(s, TodoStatus::InProgress, i, j) {
                let (a, b) = choose|a: int, b: int|
                    is_place(s, a, b) && before(a, b, i, j) && #[trigger] status_at(s, a, b)
                        == TodoStatus::InProgress;
                lemma_settled_has_one_active(p, a, b, i, j);
            }
        } else if status_at(s, i, j) == TodoStatus::Pending {
            assert(before(i, j, s.len() as int, 0));
            lemma_settled_has_active(p);
        }
    }
    assert forall|i: int| 0 <= i < s.len() implies settled_phase(s, i) == s[i] by {
        assert forall|j: int| 0 <= j < s[i].tasks.len() implies settled_phase(s, i).tasks[j]
            == s[i].tasks[j] by {
            assert(settled_status(s, i, j) == status_at(s, i, j));
        }
        assert(settled_phase(s, i) =~= s[i]);
    }
    assert(settled(s) =~= s);
}

/// What can be done to the list.
#[derive(Debug, Clone, Copy, PartialEq, Eq, Structural)]
pub enum TodoOp {
    /// Replaces the list.
    Init,
    /// Starts a task.
    Start,
    /// Marks tasks as done.
    Done,
    /// Marks tasks as given up.
    Drop,
    /// Marks tasks as blocked.
    Block,
    /// Makes blocked tasks pending.
    Unblock,
    /// Removes tasks.
    Rm,
    /// Adds tasks to a phase.
    Append,
    /// Shows the list.
    View,
}

/// A phase of a new list.
#[derive(Debug, Clone)]
pub struct InitListEntry {
    pub phase: String,
    pub items: Vec<String>,
}

/// What the tool is called with. Which parts are needed depends on the operation.
#[derive(Debug, Clone)]
pub struct TodoArgs {
    pub op: TodoOp,
    pub list: Option<Vec<InitListEntry>>,
    pub task: Option<String>,
    pub phase: Option<String>,
    pub items: Option<Vec<String>>,
    pub reason: Option<String>,
}

/// A task that has not been started.
pub open spec fn fresh_item(content: Seq<char>) -> ItemView {
    ItemView { content, status: TodoStatus::Pending, blocker: None }
}

/// Tasks that have not been started.
pub open spec fn fresh_items(items: Seq<String>) -> Seq<ItemView> {
    Seq::new(items.len(), |j: int| fresh_item(items[j]@))
}

/// A list of phases whose tasks have not been started.
pub open spec fn fresh_phases(list: Seq<InitListEntry>) -> Seq<PhaseView> {
    Seq::new(
        list.len(),
        |i: int| PhaseView { name: list[i].phase@, tasks: fresh_items(list[i].items@) },
    )
}

/// The new list that the arguments ask for: the phases given, else one phase with the items given.
pub open spec fn init_list(args: TodoArgs) -> Option<Seq<PhaseView>> {
    if args.list is Some && args.list->0@.len() > 0 {
        Some(fresh_phases(args.list->0@))
    } else if args.items is Some && args.items->0@.len() > 0 {
        Some(
            seq![
                PhaseView {
                    name: match args.phase {
                        Some(name) => name@,
                        None => "Tasks"@,
                    },
                    tasks: fresh_items(args.items->0@),
                },
            ],
        )
    } else {
        None
    }
}

/// The errors of the tasks of the phase `i` that an earlier task repeats, up to the task `j`.
pub open spec fn repeated_tasks(p: Seq<PhaseView>, i: int, j: int) -> Seq<Seq<char>>
    decreases j,
{
    if j <= 0 {
        Seq::empty()
    } else {
        let content = content_at(p, i, j - 1);
        repeated_tasks(p, i, j - 1) + if task_before(p, content, i, j - 1) {
            seq!["Duplicate task \""@ + content + "\" in init list"@]
        } else {
            Seq::empty()
        }
    }
}

/// The errors of a new list up to the phase `i`: names and texts must be unique, for they are
/// addresses.
pub open spec fn repetitions(p: Seq<PhaseView>, i: int) -> Seq<Seq<char>>
    decreases i,
{
    if i <= 0 {
        Seq::empty()
    } else {
        let name = p[i - 1].name;
        repetitions(p, i - 1) + (if phase_before(p, name, i - 1) {
            seq!["Duplicate phase \""@ + name + "\" in init list"@]
        } else {
            Seq::empty()
        }) + repeated_tasks(p, i - 1, p[i - 1].tasks.len() as int)
    }
}

/// The tasks of a phase that has just been planned.
fn make_items(items: &Vec<String>) -> (r: Vec<TodoItem>)
    ensures
        items_of(r@) == fresh_items(items@),
{
    let mut r: Vec<TodoItem> = Vec::new();
    let mut j: usize = 0;
    while j < items.len()
        invariant
            j <= items@.len(),
            r@.len() == j,
            forall|k: int| 0 <= k < j ==> (#[trigger] r@[k])@ == fresh_item(items@[k]@),
        decreases items@.len() - j,
    {
        r.push(
            TodoItem { content: items[j].clone(), status: TodoStatus::Pending, blocker: None },
        );
        j += 1;
    }
    assert(items_of(r@) =~= fresh_items(items@));
    r
}

/// Adds the errors of a new list: names and texts that occur twice.
fn find_repetitions(phases: &Vec<TodoPhase>, errors: &mut Vec<String>)
    ensures
        texts(final(errors)@) == texts(old(errors)@) + repetitions(
            phases_of(phases@),
            phases@.len() as int,
        ),
{
    let ghost p = phases_of(phases@);
    let ghost e0 = texts(errors@);
    let mut i: usize = 0;
    assert(e0 + Seq::<Seq<char>>::empty() =~= e0);
    while i < phases.len()
        invariant
            i <= phases@.len(),
            p == phases_of(phases@),
            texts(errors@) == e0 + repetitions(p, i as int),
        decreases phases@.len() - i,
    {
        let ghost e1 = texts(errors@);
        let name = phases[i].name.as_str();
        if phase_seen(phases, name, i) {
            push_error(errors, "Duplicate phase \"", name, "\" in init list");
        }
        let ghost e2 = texts(errors@);
        let mut j: usize = 0;
        assert(e2 + Seq::<Seq<char>>::empty() =~= e2);
        while j < phases[i].tasks.len()
            invariant
                i < phases@.len(),
                j <= phases@[i as int].tasks@.len(),
                p == phases_of(phases@),
                texts(errors@) == e2 + repeated_tasks(p, i as int, j as int),
            decreases phases@[i as int].tasks@.len() - j,
        {
            let ghost e3 = texts(errors@);
            let content = phases[i].tasks[j].content.as_str();
            assert(p[i as int].tasks[j as int] == phases@[i as int].tasks@[j as int]@);
            if task_seen(phases, content, i, j) {
                push_error(errors, "Duplicate task \"", content, "\" in init list");
            }
            j += 1;
            assert(texts(errors@) =~= e2 + repeated_tasks(p, i as int, j as int));
        }
        i += 1;
        assert(texts(errors@) =~= e0 + repetitions(p, i as int));
    }
}

/// Makes the new list that the arguments ask for. What repeats an address is an error; so is a
/// request without any task.
fn init_phases(args: &TodoArgs, errors: &mut Vec<String>) -> (r: Vec<TodoPhase>)
    ensures
        phases_of(r@) == match init_list(*args) {
            Some(p) => p,
            None => Seq::empty(),
        },
        texts(final(errors)@) == texts(old(errors)@) + match init_list(*args) {
            Some(p) => repetitions(p, p.len() as int),
            None => seq!["Missing list for init operation"@],
        },
{
    let mut phases: Vec<TodoPhase> = Vec::new();
    let mut given = false;
    if let Some(list) = &args.list {
        let mut i: usize = 0;
        while i < list.len()
            invariant
                i <= list@.len(),
                phases@.len() == i,
                forall|k: int|
                    0 <= k < i ==> (#[trigger] phases@[k])@ == fresh_phases(list@)[k],
            decreases list@.len() - i,
        {
            phases.push(
                TodoPhase { name: list[i].phase.clone(), tasks: make_items(&list[i].items) },
            );
            assert(phases@[i as int]@ =~= fresh_phases(list@)[i as int]);
            i += 1;
        }
        given = list.len() > 0;
        assert(phases_of(phases@) =~= fresh_phases(list@));
    }
    if !given {
        match &args.items {
            Some(items) if items.len() > 0 => {
                let name = match &args.phase {
                    Some(name) => name.clone(),
                    None => "Tasks".to_owned(),
                };
                phases.push(TodoPhase { name, tasks: make_items(items) });
                assert(phases_of(phases@) =~= init_list(*args)->0);
            },
            _ => {
                push_message(errors, "Missing list for init operation");
                assert(phases_of(phases@) =~= Seq::<PhaseView>::empty());
                return phases;
            },
        }
    }
    find_repetitions(&phases, errors);
    phases
}

/// `tasks` without those whose text is `content`.
pub open spec fn without(tasks: Seq<ItemView>, content: Seq<char>) -> Seq<ItemView>
    decreases tasks.len(),
{
    if tasks.len() == 0 {
        tasks
    } else if tasks.last().content == content {
        without(tasks.drop_last(), content)
    } else {
        without(tasks.drop_last(), content).push(tasks.last())
    }
}

/// The list after a removal: every task with the given text, else every task of the first phase
/// with the given name, else every task.
pub open spec fn removed(
    p: Seq<PhaseView>,
    task: Option<Seq<char>>,
    phase: Option<Seq<char>>,
) -> Seq<PhaseView> {
    Seq::new(
        p.len(),
        |i: int|
            match task {
                Some(content) => PhaseView { tasks: without(p[i].tasks, content), ..p[i] },
                None => if phase is None || p[i].name == phase->0 && !phase_before(
                    p,
                    phase->0,
                    i,
                ) {
                    PhaseView { tasks: Seq::empty(), ..p[i] }
                } else {
                    p[i]
                },
            },
    )
}

/// Removes the tasks with the text `content` from a phase.
fn remove_from(phase: &mut TodoPhase, content: &str)
    ensures
        final(phase)@ == (PhaseView {
            name: old(phase)@.name,
            tasks: without(old(phase)@.tasks, content@),
        }),
{
    let ghost tasks = items_of(phase.tasks@);
    let ghost n0 = tasks.len() as int;
    let ghost gone = 0int;
    let mut j: usize = 0;
    assert(tasks.take(0) =~= Seq::<ItemView>::empty());
    while j < phase.tasks.len()
        invariant
            0 <= gone,
            phase.tasks@.len() + gone == tasks.len(),
            n0 == tasks.len(),
            j <= phase.tasks@.len(),
            phase.name@ == old(phase)@.name,
            items_of(phase.tasks@).take(j as int) == without(tasks.take(j + gone), content@),
            items_of(phase.tasks@).skip(j as int) == tasks.skip(j + gone),
        decreases phase.tasks@.len() - j,
    {
        let ghost k = j + gone;
        let ghost now = items_of(phase.tasks@);
        proof {
            assert(now.skip(j as int)[0] == tasks.skip(k)[0]);
            assert(now[j as int] == tasks[k]);
            assert(tasks.take(k + 1).drop_last() =~= tasks.take(k));
            assert(tasks.take(k + 1).last() == tasks[k]);
        }
        if str_eq(phase.tasks[j].content.as_str(), content) {
            let _gone = phase.tasks.remove(j);
            proof {
                let after = items_of(phase.tasks@);
                assert(after.take(j as int) =~= now.take(j as int));
                let left = after.skip(j as int);
                let want = tasks.skip(k + 1);
                assert forall|x: int| 0 <= x < left.len() implies #[trigger] left[x] == want[x] by {
                    assert(now.skip(j as int)[x + 1] == tasks.skip(k)[x + 1]);
                }
                assert(after.skip(j as int) =~= tasks.skip(k + 1));
                gone = gone + 1;
            }
        } else {
            proof {
                assert(now.take(j + 1) =~= now.take(j as int).push(now[j as int]));
                let left = now.skip(j + 1);
                let want = tasks.skip(k + 1);
                assert forall|x: int| 0 <= x < left.len() implies #[trigger] left[x] == want[x] by {
                    assert(now.skip(j as int)[x + 1] == tasks.skip(k)[x + 1]);
                }
                assert(now.skip(j + 1) =~= tasks.skip(k + 1));
            }
            j += 1;
        }
    }
    proof {
        assert(items_of(phase.tasks@).take(j as int) =~= items_of(phase.tasks@));
        assert(tasks.take(n0) =~= tasks);
    }
}

/// Removes tasks: those with the given text, else those of a phase, else all.
fn remove_tasks(
    phases: &mut Vec<TodoPhase>,
    task: Option<&str>,
    phase: Option<&str>,
    errors: &mut Vec<String>,
)
    ensures
        texts(final(errors)@) == texts(old(errors)@) + target_errors(
            phases_of(old(phases)@),
            opt_view(task),
            opt_view(phase),
        ),
        phases_of(final(phases)@) == if target_errors(
            phases_of(old(phases)@),
            opt_view(task),
            opt_view(phase),
        ).len() == 0 {
            removed(phases_of(old(phases)@), opt_view(task), opt_view(phase))
        } else {
            phases_of(old(phases)@)
        },
{
    let ghost p = phases_of(phases@);
    if !validate_target(phases, task, phase, errors) {
        return;
    }
    let ghost goal = removed(p, opt_view(task), opt_view(phase));
    let mut seen_phase = false;
    let mut i: usize = 0;
    while i < phases.len()
        invariant
            phases@.len() == p.len(),
            i <= p.len(),
            goal == removed(p, opt_view(task), opt_view(phase)),
            task is None && phase is Some ==> seen_phase == phase_before(
                p,
                phase->0@,
                i as int,
            ),
            forall|a: int| 0 <= a < i ==> (#[trigger] phases@[a])@ == goal[a],
            forall|a: int| i <= a < p.len() ==> (#[trigger] phases@[a])@ == p[a],
        decreases p.len() - i,
    {
        assert(phases@[i as int]@ == p[i as int]);
        match task {
            Some(content) => {
                remove_from(&mut phases[i], content);
            },
            None => {
                let hit = match phase {
                    Some(name) => !seen_phase && str_eq(phases[i].name.as_str(), name),
                    None => true,
                };
                proof {
                    if let Some(name) = phase {
                        if phase_before(p, name@, i + 1) && !phase_before(p, name@, i as int) {
                            let a = choose|a: int|
                                0 <= a < i + 1 && (#[trigger] p[a]).name == name@;
                            assert(a == i);
                        }
                        if hit {
                            assert(p[i as int].name == name@);
                        }
                    }
                }
                if hit {
                    phases[i].tasks.clear();
                    seen_phase = true;
                    assert(phases@[i as int]@.tasks =~= Seq::<ItemView>::empty());
                }
            },
        }
        assert(phases@[i as int]@ =~= goal[i as int]);
        i += 1;
    }
    assert(phases_of(phases@) =~= goal);
}

/// Whether the item `k` cannot be added: the list has it, or an item before it is the same.
pub open spec fn is_taken(p: Seq<PhaseView>, items: Seq<Seq<char>>, k: int) -> bool {
    has_task(p, items[k]) || exists|m: int| 0 <= m < k && #[trigger] items[m] == items[k]
}

/// The errors of the items that cannot be added, up to the item `k`.
pub open spec fn taken(p: Seq<PhaseView>, items: Seq<Seq<char>>, k: int) -> Seq<Seq<char>>
    decreases k,
{
    if k <= 0 {
        Seq::empty()
    } else {
        taken(p, items, k - 1) + if is_taken(p, items, k - 1) {
            seq!["Task \""@ + items[k - 1] + "\" already exists"@]
        } else {
            Seq::empty()
        }
    }
}

/// The errors of an addition.
pub open spec fn append_errors(p: Seq<PhaseView>, args: TodoArgs) -> Seq<Seq<char>> {
    if args.phase is None {
        seq!["Missing phase name for append operation"@]
    } else if args.items is None || args.items->0@.len() == 0 {
        seq!["Missing items for append operation"@]
    } else {
        taken(p, texts(args.items->0@), args.items->0@.len() as int)
    }
}

/// The list after an addition to the first phase with the given name, or to a new phase.
pub open spec fn appended(
    p: Seq<PhaseView>,
    name: Seq<char>,
    tasks: Seq<ItemView>,
) -> Seq<PhaseView> {
    if has_phase(p, name) {
        Seq::new(
            p.len(),
            |i: int|
                if p[i].name == name && !phase_before(p, name, i) {
                    PhaseView { tasks: p[i].tasks + tasks, ..p[i] }
                } else {
                    p[i]
                },
        )
    } else {
        p.push(PhaseView { name, tasks })
    }
}

/// Whether an item before `k` is the same.
fn item_seen(items: &Vec<String>, k: usize) -> (r: bool)
    requires
        k < items@.len(),
    ensures
        r == exists|m: int| 0 <= m < k && #[trigger] texts(items@)[m] == texts(items@)[k as int],
{
    let ghost t = texts(items@);
    let mut m: usize = 0;
    while m < k
        invariant
            m <= k < items@.len(),
            t == texts(items@),
            forall|x: int| 0 <= x < m ==> #[trigger] t[x] != t[k as int],
        decreases k - m,
    {
        if items[m] == items[k] {
            assert(t[m as int] == t[k as int]);
            return true;
        }
        m += 1;
    }
    false
}

/// Adds tasks to a phase, which is made where the list has none of that name. One item that
/// cannot be added keeps all of them out.
fn append_items(phases: &mut Vec<TodoPhase>, args: &TodoArgs, errors: &mut Vec<String>)
    ensures
        texts(final(errors)@) == texts(old(errors)@) + append_errors(
            phases_of(old(phases)@),
            *args,
        ),
        phases_of(final(phases)@) == if append_errors(phases_of(old(phases)@), *args).len() == 0 {
            appended(phases_of(old(phases)@), args.phase->0@, fresh_items(args.items->0@))
        } else {
            phases_of(old(phases)@)
        },
{
    let ghost p = phases_of(phases@);
    let ghost e0 = texts(errors@);
    let name = match &args.phase {
        Some(name) => name,
        None => {
            push_message(errors, "Missing phase name for append operation");
            return;
        },
    };
    let items = match &args.items {
        Some(items) => items,
        None => {
            push_message(errors, "Missing items for append operation");
            return;
        },
    };
    if items.len() == 0 {
        push_message(errors, "Missing items for append operation");
        return;
    }
    let ghost t = texts(items@);
    let mut duplicate = false;
    let mut k: usize = 0;
    assert(e0 + Seq::<Seq<char>>::empty() =~= e0);
    while k < items.len()
        invariant
            k <= items@.len(),
            t == texts(items@),
            p == phases_of(phases@),
            texts(errors@) == e0 + taken(p, t, k as int),
            duplicate == (taken(p, t, k as int).len() > 0),
        decreases items@.len() - k,
    {
        let content = items[k].as_str();
        if item_seen(items, k) || task_seen(phases, content, phases.len(), 0) {
            push_error(errors, "Task \"", content, "\" already exists");
            duplicate = true;
        }
        k += 1;
        assert(texts(errors@) =~= e0 + taken(p, t, k as int));
    }
    if duplicate {
        return;
    }
    let mut tasks = make_items(items);
    let ghost more = fresh_items(items@);
    let ghost goal = appended(p, name@, more);
    let mut i: usize = 0;
    while i < phases.len()
        invariant
            i <= phases@.len(),
            p == phases_of(phases@),
            !phase_before(p, name@, i as int),
            more == items_of(tasks@),
            goal == appended(p, name@, more),
            p == phases_of(old(phases)@),
            args.phase is Some && args.items is Some,
            name@ == args.phase->0@,
            more == fresh_items(args.items->0@),
            append_errors(p, *args).len() == 0,
            texts(errors@) == texts(old(errors)@) + append_errors(p, *args),
        decreases phases@.len() - i,
    {
        if str_eq(phases[i].name.as_str(), name.as_str()) {
            assert(p[i as int].name == name@);
            let ghost old_tasks = phases@[i as int].tasks@;
            phases[i].tasks.append(&mut tasks);
            proof {
                assert(items_of(phases@[i as int].tasks@) =~= items_of(old_tasks) + more);
                assert forall|a: int| 0 <= a < p.len() implies #[trigger] phases_of(phases@)[a]
                    == goal[a] by {
                    if a != i {
                        assert(phases@[a]@ == p[a]);
                        if a > i && p[a].name == name@ {
                            assert(phase_before(p, name@, a));
                        }
                    } else {
                        assert(phases@[a]@ =~= goal[a]);
                    }
                }
                assert(phases_of(phases@) =~= goal);
            }
            return;
        }
        proof {
            assert(p[i as int].name != name@);
            if phase_before(p, name@, i + 1) {
                let a = choose|a: int| 0 <= a < i + 1 && (#[trigger] p[a]).name == name@;
                assert(a == i);
            }
        }
        i += 1;
    }
    phases.push(TodoPhase { name: name.clone(), tasks });
    assert(phases_of(phases@) =~= goal);
}

/// The errors of an operation.
pub open spec fn op_errors(p: Seq<PhaseView>, args: TodoArgs) -> Seq<Seq<char>> {
    let task = opt_text(args.task);
    let phase = opt_text(args.phase);
    match args.op {
        TodoOp::Init => match init_list(args) {
            Some(q) => repetitions(q, q.len() as int),
            None => seq!["Missing list for init operation"@],
        },
        TodoOp::Start => if task is None {
            seq!["Missing task content"@]
        } else {
            target_errors(p, task, None)
        },
        TodoOp::Done | TodoOp::Drop | TodoOp::Rm => target_errors(p, task, phase),
        TodoOp::Block => if task is None && phase is None {
            seq!["block requires a task or phase target"@]
        } else {
            target_errors(p, task, phase)
        },
        TodoOp::Unblock => if task is None && phase is None {
            seq!["unblock requires a task or phase target"@]
        } else {
            target_errors(p, task, phase)
        },
        TodoOp::Append => append_errors(p, args),
        TodoOp::View => Seq::empty(),
    }
}

/// The list after an operation without errors. A start changes one task, a block or an unblock
/// leaves alone what is not open or not blocked.
pub open spec fn op_result(p: Seq<PhaseView>, args: TodoArgs) -> Seq<PhaseView> {
    let task = opt_text(args.task);
    let phase = opt_text(args.phase);
    match args.op {
        TodoOp::Init => init_list(args)->0,
        TodoOp::Start => changed(p, task, None, Change::Start(args.task->0)),
        TodoOp::Done => changed(p, task, phase, Change::Give(TodoStatus::Completed)),
        TodoOp::Drop => changed(p, task, phase, Change::Give(TodoStatus::Abandoned)),
        TodoOp::Block => blocked(p, task, phase, blocker_of(opt_text(args.reason))),
        TodoOp::Unblock => changed(p, task, phase, Change::Unblock),
        TodoOp::Rm => removed(p, task, phase),
        TodoOp::Append => appended(p, args.phase->0@, fresh_items(args.items->0@)),
        TodoOp::View => p,
    }
}

/// The list after the addressed tasks that are open have been blocked.
pub open spec fn blocked(
    p: Seq<PhaseView>,
    task: Option<Seq<char>>,
    phase: Option<Seq<char>>,
    reason: Option<Seq<char>>,
) -> Seq<PhaseView> {
    Seq::new(
        p.len(),
        |i: int|
            PhaseView {
                name: p[i].name,
                tasks: Seq::new(
                    p[i].tasks.len(),
                    |j: int|
                        if is_target(p, task, phase, i, j) && (status_at(p, i, j)
                            == TodoStatus::Pending || status_at(p, i, j) == TodoStatus::InProgress
                            || status_at(p, i, j) == TodoStatus::Blocked) {
                            ItemView {
                                status: TodoStatus::Blocked,
                                blocker: reason,
                                ..p[i].tasks[j]
                            }
                        } else {
                            p[i].tasks[j]
                        },
                ),
            },
    )
}

/// The list after an operation: one that has errors changes nothing, but for `init`, which gives the
/// list that it was asked for, errors or not, and the empty one where it was asked for none.
pub open spec fn after_op(p: Seq<PhaseView>, args: TodoArgs) -> Seq<PhaseView> {
    if args.op == TodoOp::Init {
        match init_list(args) {
            Some(q) => q,
            None => Seq::empty(),
        }
    } else if op_errors(p, args).len() > 0 {
        p
    } else {
        op_result(p, args)
    }
}

/// Applies an operation to the list, or adds its errors.
pub fn apply_entry(phases: &mut Vec<TodoPhase>, args: &TodoArgs, errors: &mut Vec<String>)
    ensures
        texts(final(errors)@) == texts(old(errors)@) + op_errors(phases_of(old(phases)@), *args),
        phases_of(final(phases)@) == after_op(phases_of(old(phases)@), *args),
{
    let ghost p = phases_of(phases@);
    let ghost e0 = texts(errors@);
    let task = opt_str(&args.task);
    let phase = opt_str(&args.phase);
    assert(e0 + Seq::<Seq<char>>::empty() =~= e0);
    match args.op {
        TodoOp::Init => {
            *phases = init_phases(args, errors);
        },
        TodoOp::Start => {
            match &args.task {
                Some(content) => {
                    if validate_task(phases, content.as_str(), errors) {
                        change_targets(
                            phases,
                            Some(content.as_str()),
                            None,
                            &Change::Start(content.clone()),
                        );
                    }
                },
                None => {
                    push_message(errors, "Missing task content");
                },
            }
        },
        TodoOp::Done => {
            if validate_target(phases, task, phase, errors) {
                change_targets(phases, task, phase, &Change::Give(TodoStatus::Completed));
            }
        },
        TodoOp::Drop => {
            if validate_target(phases, task, phase, errors) {
                change_targets(phases, task, phase, &Change::Give(TodoStatus::Abandoned));
            }
        },
        TodoOp::Block => {
            if task.is_none() && phase.is_none() {
                push_message(errors, "block requires a task or phase target");
            } else if validate_target(phases, task, phase, errors) {
                let reason = normalize_blocker(opt_str(&args.reason));
                let change = Change::Block(reason);
                change_targets(phases, task, phase, &change);
                proof {
                    let q = phases_of(phases@);
                    let goal = blocked(
                        p,
                        opt_view(task),
                        opt_view(phase),
                        blocker_of(opt_text(args.reason)),
                    );
                    assert forall|i: int| 0 <= i < p.len() implies #[trigger] q[i] == goal[i] by {
                        assert(q[i].tasks =~= goal[i].tasks);
                    }
                    assert(q =~= goal);
                }
            }
        },
        TodoOp::Unblock => {
            if task.is_none() && phase.is_none() {
                push_message(errors, "unblock requires a task or phase target");
            } else if validate_target(phases, task, phase, errors) {
                change_targets(phases, task, phase, &Change::Unblock);
            }
        },
        TodoOp::Rm => {
            remove_tasks(phases, task, phase, errors);
        },
        TodoOp::Append => {
            append_items(phases, args, errors);
        },
        TodoOp::View => {},
    }
}

/// An operation other than `init` that has errors leaves the list as it was; to view it changes
/// nothing and has no errors.
pub proof fn lemma_refused_changes_nothing(p: Seq<PhaseView>, args: TodoArgs)
    ensures
        args.op != TodoOp::Init && op_errors(p, args).len() > 0 ==> after_op(p, args) == p,
        args.op == TodoOp::View ==> after_op(p, args) == p && op_errors(p, args).len() == 0,
{
}

} // verus!
