//! One call of the todo tool: an operation on the list, and what is said of its outcome.

use vstd::prelude::*;

use crate::strings::{dec, join_texts, joined, push_wide_dec, texts};
use crate::tools::todo::{
    apply_entry, is_place, items_of, lemma_settled_has_one_active, normalize_in_progress, op_errors,
    op_result, phases_of, settled, status_at, ItemView, PhaseView, TodoArgs, TodoItem, TodoOp,
    TodoPhase, TodoStatus,
};
use crate::tools::todo_markdown::marker_of;

verus! {

broadcast use vstd::seq::group_seq_axioms;

/// The name of an operation.
pub open spec fn op_text(op: TodoOp) -> Seq<char> {
    match op {
        TodoOp::Init => "init"@,
        TodoOp::Start => "start"@,
        TodoOp::Done => "done"@,
        TodoOp::Drop => "drop"@,
        TodoOp::Block => "block"@,
        TodoOp::Unblock => "unblock"@,
        TodoOp::Rm => "rm"@,
        TodoOp::Append => "append"@,
        TodoOp::View => "view"@,
    }
}

impl TodoOp {
    /// The name of the operation.
    pub fn name(self) -> (r: &'static str)
        ensures
            r@ == op_text(self),
    {
        match self {
            TodoOp::Init => "init",
            TodoOp::Start => "start",
            TodoOp::Done => "done",
            TodoOp::Drop => "drop",
            TodoOp::Block => "block",
            TodoOp::Unblock => "unblock",
            TodoOp::Rm => "rm",
            TodoOp::Append => "append",
            TodoOp::View => "view",
        }
    }
}

/// What is counted.
pub enum Tally {
    All,
    /// Done or given up.
    Closed,
    Blocked,
}

/// Whether a task counts.
pub open spec fn counts(item: ItemView, what: Tally) -> bool {
    match what {
        Tally::All => true,
        Tally::Closed => item.status == TodoStatus::Completed || item.status
            == TodoStatus::Abandoned,
        Tally::Blocked => item.status == TodoStatus::Blocked,
    }
}

/// How many tasks count.
pub open spec fn tally_tasks(tasks: Seq<ItemView>, what: Tally) -> nat
    decreases tasks.len(),
{
    if tasks.len() == 0 {
        0
    } else {
        tally_tasks(tasks.drop_last(), what) + if counts(tasks.last(), what) {
            1nat
        } else {
            0nat
        }
    }
}

/// How many tasks of the list count.
pub open spec fn tally(p: Seq<PhaseView>, what: Tally) -> nat
    decreases p.len(),
{
    if p.len() == 0 {
        0
    } else {
        tally(p.drop_last(), what) + tally_tasks(p.last().tasks, what)
    }
}

/// All tasks, the closed ones and the blocked ones.
struct Counts {
    total: u128,
    closed: u128,
    blocked: u128,
}

fn count(phases: &Vec<TodoPhase>) -> (r: Counts)
    ensures
        r.total == tally(phases_of(phases@), Tally::All),
        r.closed == tally(phases_of(phases@), Tally::Closed),
        r.blocked == tally(phases_of(phases@), Tally::Blocked),
        r.closed <= r.total,
{
    let ghost p = phases_of(phases@);
    let mut total: u128 = 0;
    let mut closed: u128 = 0;
    let mut blocked: u128 = 0;
    let mut i: usize = 0;
    assert(p.take(0) =~= Seq::<PhaseView>::empty());
    while i < phases.len()
        invariant
            i <= phases@.len(),
            p == phases_of(phases@),
            total == tally(p.take(i as int), Tally::All),
            closed == tally(p.take(i as int), Tally::Closed),
            blocked == tally(p.take(i as int), Tally::Blocked),
            total <= i * 0xffff_ffff_ffff_ffff,
            closed <= total,
            blocked <= total,
        decreases phases@.len() - i,
    {
        let ghost t = p[i as int].tasks;
        let ghost t0 = total;
        let ghost c0 = closed;
        let ghost b0 = blocked;
        let mut j: usize = 0;
        assert(t.take(0) =~= Seq::<ItemView>::empty());
        while j < phases[i].tasks.len()
            invariant
                i < phases@.len(),
                j <= phases@[i as int].tasks@.len(),
                t == items_of(phases@[i as int].tasks@),
                total == t0 + tally_tasks(t.take(j as int), Tally::All),
                closed == c0 + tally_tasks(t.take(j as int), Tally::Closed),
                blocked == b0 + tally_tasks(t.take(j as int), Tally::Blocked),
                total == t0 + j,
                t0 <= i * 0xffff_ffff_ffff_ffff,
                closed <= total,
                blocked <= total,
            decreases phases@[i as int].tasks@.len() - j,
        {
            let status = phases[i].tasks[j].status;
            proof {
                assert(t.take(j + 1).drop_last() =~= t.take(j as int));
                assert(t.take(j + 1).last() == phases@[i as int].tasks@[j as int]@);
            }
            total += 1;
            if status == TodoStatus::Completed || status == TodoStatus::Abandoned {
                closed += 1;
            }
            if status == TodoStatus::Blocked {
                blocked += 1;
            }
            j += 1;
        }
        proof {
            assert(t.take(t.len() as int) =~= t);
            assert(p.take(i + 1).drop_last() =~= p.take(i as int));
            assert(p.take(i + 1).last() == p[i as int]);
        }
        i += 1;
    }
    assert(p.take(p.len() as int) =~= p);
    Counts { total, closed, blocked }
}

/// The title of a call: the operation, and how many tasks are closed.
pub open spec fn title_of(op: TodoOp, p: Seq<PhaseView>) -> Seq<char> {
    "todo "@ + op_text(op) + " ("@ + dec(tally(p, Tally::Closed)) + "/"@ + dec(
        tally(p, Tally::All),
    ) + " done)"@
}

/// The title of a call.
fn build_title(op: TodoOp, phases: &Vec<TodoPhase>) -> (r: String)
    ensures
        r@ == title_of(op, phases_of(phases@)),
{
    let n = count(phases);
    let mut r = String::new();
    r.append("todo ");
    r.append(op.name());
    r.append(" (");
    push_wide_dec(&mut r, n.closed);
    r.append("/");
    push_wide_dec(&mut r, n.total);
    r.append(" done)");
    assert(r@ =~= title_of(op, phases_of(phases@)));
    r
}

/// What is said of the whole list.
pub open spec fn overall(p: Seq<PhaseView>) -> Seq<char> {
    let total = tally(p, Tally::All);
    let closed = tally(p, Tally::Closed);
    let blocked = tally(p, Tally::Blocked);
    let s = "Overall: "@ + dec(closed) + "/"@ + dec(total) + " done, "@ + dec(
        (total - closed) as nat,
    ) + " open"@;
    if blocked > 0 {
        s + ", "@ + dec(blocked) + " blocked."@
    } else {
        s + "."@
    }
}

/// What is said of a status.
pub open spec fn tag_of(item: ItemView) -> Seq<char> {
    match item.status {
        TodoStatus::InProgress => " (in progress)"@,
        TodoStatus::Abandoned => " (dropped)"@,
        TodoStatus::Blocked => match item.blocker {
            Some(reason) => " (blocked: "@ + reason + ")"@,
            None => " (blocked)"@,
        },
        TodoStatus::Pending | TodoStatus::Completed => Seq::empty(),
    }
}

/// What is said of a task.
pub open spec fn task_summary(item: ItemView) -> Seq<char> {
    "  ["@.push(marker_of(item.status)) + "] "@ + item.content + tag_of(item)
}

/// What is said of the tasks of a phase.
pub open spec fn task_summaries(tasks: Seq<ItemView>) -> Seq<Seq<char>> {
    Seq::new(tasks.len(), |j: int| task_summary(tasks[j]))
}

/// What is said of each phase and task.
pub open spec fn phase_summaries(p: Seq<PhaseView>) -> Seq<Seq<char>>
    decreases p.len(),
{
    if p.len() == 0 {
        Seq::empty()
    } else {
        phase_summaries(p.drop_last()).push(p.last().name + ":"@) + task_summaries(p.last().tasks)
    }
}

/// What is said of the list.
pub open spec fn summary(p: Seq<PhaseView>, read_only: bool) -> Seq<char> {
    if tally(p, Tally::All) == 0 {
        if read_only {
            "Todo list is empty."@
        } else {
            "Todo list cleared."@
        }
    } else {
        joined(seq![overall(p)] + phase_summaries(p), "\n"@)
    }
}

/// What is said of a task.
fn summarize_task(task: &TodoItem) -> (r: String)
    ensures
        r@ == task_summary(task@),
{
    let mut r = String::new();
    r.append("  [");
    r.push(task.status.marker());
    r.append("] ");
    r.append(task.content.as_str());
    match task.status {
        TodoStatus::InProgress => r.append(" (in progress)"),
        TodoStatus::Abandoned => r.append(" (dropped)"),
        TodoStatus::Blocked => match &task.blocker {
            Some(reason) => {
                r.append(" (blocked: ");
                r.append(reason.as_str());
                r.append(")");
            },
            None => r.append(" (blocked)"),
        },
        TodoStatus::Pending | TodoStatus::Completed => {},
    }
    assert(r@ =~= task_summary(task@));
    r
}

/// What is said of the list: how far it is, and each task of each phase.
pub fn summarize(phases: &Vec<TodoPhase>, read_only: bool) -> (r: String)
    ensures
        r@ == summary(phases_of(phases@), read_only),
{
    let ghost p = phases_of(phases@);
    let n = count(phases);
    if n.total == 0 {
        return if read_only {
            "Todo list is empty.".to_owned()
        } else {
            "Todo list cleared.".to_owned()
        };
    }
    let mut first = String::new();
    first.append("Overall: ");
    push_wide_dec(&mut first, n.closed);
    first.append("/");
    push_wide_dec(&mut first, n.total);
    first.append(" done, ");
    push_wide_dec(&mut first, n.total - n.closed);
    first.append(" open");
    if n.blocked > 0 {
        first.append(", ");
        push_wide_dec(&mut first, n.blocked);
        first.append(" blocked.");
    } else {
        first.append(".");
    }
    assert(first@ =~= overall(p));
    let mut out: Vec<String> = Vec::new();
    out.push(first);
    let mut i: usize = 0;
    proof {
        assert(p.take(0) =~= Seq::<PhaseView>::empty());
        assert(texts(out@) =~= seq![overall(p)] + phase_summaries(p.take(0)));
    }
    while i < phases.len()
        invariant
            i <= phases@.len(),
            p == phases_of(phases@),
            texts(out@) == seq![overall(p)] + phase_summaries(p.take(i as int)),
        decreases phases@.len() - i,
    {
        let ghost l0 = texts(out@);
        let mut name = phases[i].name.clone();
        name.append(":");
        let ghost heading = name@;
        out.push(name);
        let ghost l1 = texts(out@);
        assert(l1 =~= l0.push(p[i as int].name + ":"@));
        let ghost t = p[i as int].tasks;
        let mut j: usize = 0;
        assert(l1 + task_summaries(t).take(0) =~= l1);
        while j < phases[i].tasks.len()
            invariant
                i < phases@.len(),
                j <= phases@[i as int].tasks@.len(),
                t == items_of(phases@[i as int].tasks@),
                texts(out@) == l1 + task_summaries(t).take(j as int),
            decreases phases@[i as int].tasks@.len() - j,
        {
            let ghost l2 = texts(out@);
            let line = summarize_task(&phases[i].tasks[j]);
            let ghost said = line@;
            assert(said == task_summary(t[j as int]));
            out.push(line);
            assert(texts(out@) =~= l2.push(said));
            j += 1;
            assert(task_summaries(t).take(j as int) =~= task_summaries(t).take(j - 1).push(
                task_summary(t[j - 1]),
            ));
            assert(texts(out@) =~= l1 + task_summaries(t).take(j as int));
        }
        proof {
            assert(task_summaries(t).take(t.len() as int) =~= task_summaries(t));
            assert(p.take(i + 1).drop_last() =~= p.take(i as int));
            assert(p.take(i + 1).last() == p[i as int]);
            assert(texts(out@) =~= seq![overall(p)] + phase_summaries(p.take(i + 1)));
        }
        i += 1;
    }
    assert(p.take(p.len() as int) =~= p);
    join_texts(&out, "\n")
}

/// The outcome of a call.
#[derive(Debug, Clone)]
pub struct TodoRun {
    /// The list after the call.
    pub phases: Vec<TodoPhase>,
    /// Whether the list has to be written.
    pub save: bool,
    pub title: String,
    pub body: String,
}

/// The list after a call without errors.
pub open spec fn list_after(p: Seq<PhaseView>, args: TodoArgs) -> Seq<PhaseView> {
    if args.op == TodoOp::View {
        p
    } else {
        settled(op_result(p, args))
    }
}

/// One call of the tool on the list `previous`. With an error nothing is written, so the list
/// stays as it was.
pub fn run_todo(previous: Vec<TodoPhase>, args: &TodoArgs) -> (r: Result<TodoRun, String>)
    ensures
        r is Ok <==> op_errors(phases_of(previous@), *args).len() == 0,
        r matches Ok(run) ==> {
            let after = list_after(phases_of(previous@), *args);
            &&& phases_of(run.phases@) == after
            &&& run.save == (args.op != TodoOp::View)
            &&& run.title@ == title_of(args.op, after)
            &&& run.body@ == summary(after, args.op == TodoOp::View)
        },
        r matches Err(message) ==> message@ == "Todo operation failed: "@ + joined(
            op_errors(phases_of(previous@), *args),
            "; "@,
        ),
{
    let read_only = args.op == TodoOp::View;
    let ghost p = phases_of(previous@);
    let mut phases = previous;
    let mut errors: Vec<String> = Vec::new();
    assert(texts(errors@) =~= Seq::<Seq<char>>::empty());
    apply_entry(&mut phases, args, &mut errors);
    assert(texts(errors@) =~= op_errors(p, *args));
    assert(texts(errors@).len() == errors@.len());
    if errors.len() > 0 {
        let mut message = String::new();
        message.append("Todo operation failed: ");
        message.append(join_texts(&errors, "; ").as_str());
        assert(message@ =~= "Todo operation failed: "@ + joined(op_errors(p, *args), "; "@));
        return Err(message);
    }
    if !read_only {
        normalize_in_progress(&mut phases);
    }
    let title = build_title(args.op, &phases);
    let body = summarize(&phases, read_only);
    Ok(TodoRun { phases, save: !read_only, title, body })
}

/// Whatever was on the list, after a call that may change it at most one task is under way.
pub proof fn lemma_one_active_after_a_call(
    p: Seq<PhaseView>,
    args: TodoArgs,
    a: int,
    b: int,
    i: int,
    j: int,
)
    requires
        args.op != TodoOp::View,
        is_place(list_after(p, args), a, b),
        is_place(list_after(p, args), i, j),
        status_at(list_after(p, args), a, b) == TodoStatus::InProgress,
        status_at(list_after(p, args), i, j) == TodoStatus::InProgress,
    ensures
        a == i && b == j,
{
    lemma_settled_has_one_active(op_result(p, args), a, b, i, j);
}

} // verus!
