//! What each operation does to the todo list, and what it leaves alone.

use vstd::prelude::*;

use crate::strings::{dec, holds, is_space, lemma_holds, lemma_joined_holds, opt_text, texts};
use crate::tools::todo::{
    after_op, before, blocked, blocker_of, collapsed, content_at, fresh_items, has_phase, has_task,
    is_place, is_target, lemma_run_len, op_errors, phase_before, repeated_tasks, repetitions,
    run_len, settled, status_at, taken, target_errors, task_before, without, ItemView, PhaseView,
    TodoArgs, TodoOp, TodoStatus,
};
use crate::tools::todo_markdown::task_line;
use crate::tools::todo_run::{
    counts, overall, phase_summaries, summary, tally, tally_tasks, task_summaries, task_summary,
    title_of, Tally,
};

verus! {

broadcast use vstd::seq::group_seq_axioms;

// Addresses

/// Whether the phase `i` is the first one with a name.
pub open spec fn first_phase(p: Seq<PhaseView>, name: Seq<char>, i: int) -> bool {
    &&& 0 <= i < p.len()
    &&& p[i].name == name
    &&& forall|a: int| 0 <= a < i ==> (#[trigger] p[a]).name != name
}

/// Whether the task at `(i, j)` is the first one with a text.
pub open spec fn first_task(p: Seq<PhaseView>, content: Seq<char>, i: int, j: int) -> bool {
    &&& is_place(p, i, j)
    &&& p[i].tasks[j].content == content
    &&& forall|a: int, b: int|
        is_place(p, a, b) && (a < i || a == i && b < j) ==> #[trigger] content_at(p, a, b) != content
}

/// Whether the task at `(i, j)` is meant: the first one with the text, or else all those of the first
/// phase with the name, or else all.
pub open spec fn is_meant(
    p: Seq<PhaseView>,
    task: Option<Seq<char>>,
    phase: Option<Seq<char>>,
    i: int,
    j: int,
) -> bool {
    match (task, phase) {
        (Some(content), _) => first_task(p, content, i, j),
        (None, Some(name)) => first_phase(p, name, i),
        (None, None) => true,
    }
}

/// Whether there is what is meant.
pub open spec fn is_there(
    p: Seq<PhaseView>,
    task: Option<Seq<char>>,
    phase: Option<Seq<char>>,
) -> bool {
    match (task, phase) {
        (Some(content), _) => exists|i: int, j: int|
            is_place(p, i, j) && #[trigger] content_at(p, i, j) == content,
        (None, Some(name)) => exists|i: int| 0 <= i < p.len() && (#[trigger] p[i]).name == name,
        (None, None) => true,
    }
}

proof fn lemma_meant(
    p: Seq<PhaseView>,
    task: Option<Seq<char>>,
    phase: Option<Seq<char>>,
    i: int,
    j: int,
)
    requires
        is_place(p, i, j),
    ensures
        is_target(p, task, phase, i, j) == is_meant(p, task, phase, i, j),
{
    match task {
        Some(content) => {
            if task_before(p, content, i, j) {
                let (a, b) = choose|a: int, b: int|
                    is_place(p, a, b) && before(a, b, i, j) && #[trigger] content_at(p, a, b)
                        == content;
                assert(content_at(p, a, b) == content);
            }
        },
        None => {},
    }
}

proof fn lemma_there(p: Seq<PhaseView>, task: Option<Seq<char>>, phase: Option<Seq<char>>)
    ensures
        target_errors(p, task, phase).len() == 0 <==> is_there(p, task, phase),
{
    match task {
        Some(content) => {
            if is_there(p, task, phase) {
                let (i, j) = choose|i: int, j: int|
                    is_place(p, i, j) && #[trigger] content_at(p, i, j) == content;
                assert(before(i, j, p.len() as int, 0));
                assert(content_at(p, i, j) == content);
            }
            if has_task(p, content) {
                let (a, b) = choose|a: int, b: int|
                    is_place(p, a, b) && before(a, b, p.len() as int, 0) && #[trigger] content_at(
                        p,
                        a,
                        b,
                    ) == content;
                assert(content_at(p, a, b) == content);
            }
        },
        None => {},
    }
}

/// Whether two lists have the same phases, each with as many tasks, of the same texts.
pub open spec fn same_tasks(p: Seq<PhaseView>, q: Seq<PhaseView>) -> bool {
    &&& q.len() == p.len()
    &&& forall|i: int|
        0 <= i < p.len() ==> (#[trigger] q[i]).name == p[i].name && q[i].tasks.len()
            == p[i].tasks.len()
    &&& forall|i: int, j: int|
        is_place(p, i, j) ==> #[trigger] content_at(q, i, j) == content_at(p, i, j)
}

// Each operation

/// Where what is meant is not there, or nothing is meant that has to be, the operation is refused.
pub proof fn lemma_refused(p: Seq<PhaseView>, args: TodoArgs)
    ensures
        ({
            let task = opt_text(args.task);
            let phase = opt_text(args.phase);
            match args.op {
                TodoOp::Start => op_errors(p, args).len() == 0 <==> task is Some && is_there(p, task, None),
                TodoOp::Done | TodoOp::Drop | TodoOp::Rm => op_errors(p, args).len() == 0 <==> is_there(
                    p,
                    task,
                    phase,
                ),
                TodoOp::Block | TodoOp::Unblock => op_errors(p, args).len() == 0 <==> (task is Some
                    || phase is Some) && is_there(p, task, phase),
                _ => true,
            }
        }),
        args.op != TodoOp::Init && op_errors(p, args).len() > 0 ==> after_op(p, args) == p,
{
    lemma_there(p, opt_text(args.task), opt_text(args.phase));
    lemma_there(p, opt_text(args.task), None);
}

/// To mark tasks as done or given up gives just those that are meant that status, and leaves all
/// others, and all that is said of any task, as it was.
pub proof fn lemma_tasks_are_closed(p: Seq<PhaseView>, args: TodoArgs, i: int, j: int)
    requires
        args.op == TodoOp::Done || args.op == TodoOp::Drop,
        op_errors(p, args).len() == 0,
        is_place(p, i, j),
    ensures
        same_tasks(p, after_op(p, args)),
        after_op(p, args)[i].tasks[j].blocker == p[i].tasks[j].blocker,
        after_op(p, args)[i].tasks[j].status == if !is_meant(
            p,
            opt_text(args.task),
            opt_text(args.phase),
            i,
            j,
        ) {
            p[i].tasks[j].status
        } else if args.op == TodoOp::Done {
            TodoStatus::Completed
        } else {
            TodoStatus::Abandoned
        },
{
    lemma_meant(p, opt_text(args.task), opt_text(args.phase), i, j);
}

/// To start a task gives the first one with that text the status of a task under way, and makes any
/// other one that was under way pending; nothing else changes.
pub proof fn lemma_task_is_started(p: Seq<PhaseView>, args: TodoArgs, i: int, j: int)
    requires
        args.op == TodoOp::Start,
        op_errors(p, args).len() == 0,
        is_place(p, i, j),
    ensures
        args.task is Some,
        same_tasks(p, after_op(p, args)),
        after_op(p, args)[i].tasks[j].blocker == p[i].tasks[j].blocker,
        first_task(p, args.task->0@, i, j) ==> after_op(p, args)[i].tasks[j].status
            == TodoStatus::InProgress,
        !first_task(p, args.task->0@, i, j) && p[i].tasks[j].content != args.task->0@
            && p[i].tasks[j].status == TodoStatus::InProgress ==> after_op(p, args)[i].tasks[j].status
            == TodoStatus::Pending,
        !first_task(p, args.task->0@, i, j) && (p[i].tasks[j].content == args.task->0@
            || p[i].tasks[j].status != TodoStatus::InProgress) ==> after_op(p, args)[i].tasks[j]
            == p[i].tasks[j],
{
    lemma_meant(p, opt_text(args.task), None, i, j);
}

/// To block tasks blocks just those that are meant and open, for the reason that is given, and leaves
/// all others as they were.
pub proof fn lemma_tasks_are_blocked(p: Seq<PhaseView>, args: TodoArgs, i: int, j: int)
    requires
        args.op == TodoOp::Block,
        op_errors(p, args).len() == 0,
        is_place(p, i, j),
    ensures
        same_tasks(p, after_op(p, args)),
        ({
            let was = p[i].tasks[j];
            let is = after_op(p, args)[i].tasks[j];
            if is_meant(p, opt_text(args.task), opt_text(args.phase), i, j) && was.status
                != TodoStatus::Completed && was.status != TodoStatus::Abandoned {
                &&& is.status == TodoStatus::Blocked
                &&& is.blocker == match args.reason {
                    Some(reason) => if collapsed(reason@).len() > 0 {
                        Some(collapsed(reason@))
                    } else {
                        None
                    },
                    None => None,
                }
            } else {
                is == was
            }
        }),
{
    lemma_meant(p, opt_text(args.task), opt_text(args.phase), i, j);
    assert(blocker_of(opt_text(args.reason)) == match args.reason {
        Some(reason) => if collapsed(reason@).len() > 0 {
            Some(collapsed(reason@))
        } else {
            None
        },
        None => None,
    });
}

/// To unblock tasks makes just those that are meant and blocked pending, without a reason, and leaves
/// all others as they were.
pub proof fn lemma_tasks_are_unblocked(p: Seq<PhaseView>, args: TodoArgs, i: int, j: int)
    requires
        args.op == TodoOp::Unblock,
        op_errors(p, args).len() == 0,
        is_place(p, i, j),
    ensures
        same_tasks(p, after_op(p, args)),
        ({
            let was = p[i].tasks[j];
            let is = after_op(p, args)[i].tasks[j];
            if is_meant(p, opt_text(args.task), opt_text(args.phase), i, j) && was.status
                == TodoStatus::Blocked {
                is.status == TodoStatus::Pending && is.blocker is None
            } else {
                is == was
            }
        }),
{
    lemma_meant(p, opt_text(args.task), opt_text(args.phase), i, j);
}

/// To block tasks that were pending and to unblock them again gives the list back.
pub proof fn lemma_blocked_and_back(p: Seq<PhaseView>, a: TodoArgs, b: TodoArgs)
    requires
        a.op == TodoOp::Block,
        b.op == TodoOp::Unblock,
        a.task == b.task,
        a.phase == b.phase,
        op_errors(p, a).len() == 0,
        forall|i: int, j: int|
            is_place(p, i, j) && #[trigger] is_meant(p, opt_text(a.task), opt_text(a.phase), i, j)
                ==> p[i].tasks[j].status == TodoStatus::Pending && p[i].tasks[j].blocker is None,
    ensures
        after_op(after_op(p, a), b) == p,
        op_errors(after_op(p, a), b).len() == 0,
{
    let q = after_op(p, a);
    let task = opt_text(a.task);
    let phase = opt_text(a.phase);
    lemma_there(p, task, phase);
    lemma_there(q, task, phase);
    assert forall|i: int, j: int| is_place(p, i, j) implies #[trigger] content_at(q, i, j)
        == content_at(p, i, j) by {}
    assert(is_there(q, task, phase)) by {
        match (task, phase) {
            (Some(content), _) => {
                let (i, j) = choose|i: int, j: int|
                    is_place(p, i, j) && #[trigger] content_at(p, i, j) == content;
                assert(is_place(q, i, j) && content_at(q, i, j) == content);
            },
            (None, Some(name)) => {
                let i = choose|i: int| 0 <= i < p.len() && (#[trigger] p[i]).name == name;
                assert(q[i].name == name);
            },
            (None, None) => {},
        }
    }
    let r = after_op(q, b);
    assert forall|i: int| 0 <= i < p.len() implies r[i] == p[i] by {
        assert forall|j: int| 0 <= j < p[i].tasks.len() implies r[i].tasks[j] == p[i].tasks[j] by {
            lemma_meant(p, task, phase, i, j);
            lemma_meant(q, task, phase, i, j);
            lemma_same_meant(p, q, task, phase, i, j);
            if is_meant(p, task, phase, i, j) {
                assert(r[i].tasks[j].status == TodoStatus::Pending);
            }
        }
        assert(r[i].tasks =~= p[i].tasks);
    }
    assert(r =~= p);
}

proof fn lemma_same_meant(
    p: Seq<PhaseView>,
    q: Seq<PhaseView>,
    task: Option<Seq<char>>,
    phase: Option<Seq<char>>,
    i: int,
    j: int,
)
    requires
        same_tasks(p, q),
        is_place(p, i, j),
    ensures
        is_meant(p, task, phase, i, j) == is_meant(q, task, phase, i, j),
{
    match (task, phase) {
        (Some(content), _) => {
            assert(content_at(q, i, j) == content_at(p, i, j));
            if first_task(p, content, i, j) {
                assert forall|a: int, b: int|
                    is_place(q, a, b) && (a < i || a == i && b < j) implies #[trigger] content_at(
                    q,
                    a,
                    b,
                ) != content by {
                    assert(is_place(p, a, b));
                    assert(content_at(p, a, b) != content);
                }
            }
            if first_task(q, content, i, j) {
                assert forall|a: int, b: int|
                    is_place(p, a, b) && (a < i || a == i && b < j) implies #[trigger] content_at(
                    p,
                    a,
                    b,
                ) != content by {
                    assert(is_place(q, a, b));
                    assert(content_at(q, a, b) != content);
                }
            }
        },
        (None, Some(name)) => {
            if first_phase(p, name, i) {
                assert forall|a: int| 0 <= a < i implies (#[trigger] q[a]).name != name by {
                    assert(p[a].name != name);
                }
            }
            if first_phase(q, name, i) {
                assert forall|a: int| 0 <= a < i implies (#[trigger] p[a]).name != name by {
                    assert(q[a].name != name);
                }
            }
        },
        (None, None) => {},
    }
}

proof fn lemma_without(tasks: Seq<ItemView>, content: Seq<char>)
    ensures
        without(tasks, content) == tasks.filter(|t: ItemView| t.content != content),
    decreases tasks.len(),
{
    reveal(Seq::filter);
    if tasks.len() > 0 {
        lemma_without(tasks.drop_last(), content);
    }
}

/// To remove the tasks of a phase leaves every phase but the first one with that name as it was, with
/// all its tasks, and that one without any.
pub proof fn lemma_phase_is_emptied(p: Seq<PhaseView>, args: TodoArgs, i: int)
    requires
        args.op == TodoOp::Rm,
        args.task is None,
        args.phase is Some,
        first_phase(p, args.phase->0@, i),
    ensures
        op_errors(p, args).len() == 0,
        after_op(p, args).len() == p.len(),
        after_op(p, args)[i].name == p[i].name,
        after_op(p, args)[i].tasks.len() == 0,
        forall|k: int| 0 <= k < p.len() && k != i ==> #[trigger] after_op(p, args)[k] == p[k],
{
    lemma_there(p, None, opt_text(args.phase));
    assert(p[i].name == args.phase->0@);
    assert forall|k: int| 0 <= k < p.len() && k != i implies #[trigger] after_op(p, args)[k] == p[k] by {
        if p[k].name == args.phase->0@ {
            assert(p[i].name == args.phase->0@);
            assert(i < k);
            assert(phase_before(p, args.phase->0@, k));
        }
    }
}

/// To remove a task takes all tasks with that text out of every phase, and no other; to remove
/// without saying what takes all tasks out. The phases themselves stay.
pub proof fn lemma_tasks_are_removed(p: Seq<PhaseView>, args: TodoArgs, i: int)
    requires
        args.op == TodoOp::Rm,
        op_errors(p, args).len() == 0,
        0 <= i < p.len(),
    ensures
        after_op(p, args).len() == p.len(),
        after_op(p, args)[i].name == p[i].name,
        args.task is Some ==> after_op(p, args)[i].tasks == p[i].tasks.filter(
            |t: ItemView| t.content != args.task->0@,
        ),
        args.task is None && args.phase is None ==> after_op(p, args)[i].tasks.len() == 0,
{
    if let Some(content) = args.task {
        lemma_without(p[i].tasks, content@);
    }
}

/// A new task as it is added: pending, and nothing is in its way.
pub open spec fn is_new(t: ItemView, content: Seq<char>) -> bool {
    t.content == content && t.status == TodoStatus::Pending && t.blocker is None
}

/// Whether tasks are new ones with the given texts.
pub open spec fn are_new(tasks: Seq<ItemView>, items: Seq<String>) -> bool {
    &&& tasks.len() == items.len()
    &&& forall|j: int| 0 <= j < items.len() ==> is_new(#[trigger] tasks[j], items[j]@)
}

/// To add tasks puts new ones behind those of the first phase with that name, or into a new phase
/// behind all others; nothing else changes.
pub proof fn lemma_tasks_are_added(p: Seq<PhaseView>, args: TodoArgs)
    requires
        args.op == TodoOp::Append,
        op_errors(p, args).len() == 0,
    ensures
        args.phase is Some && args.items is Some && args.items->0@.len() > 0,
        ({
            let q = after_op(p, args);
            let name = args.phase->0@;
            let items = args.items->0@;
            &&& forall|i: int|
                #[trigger] first_phase(p, name, i) ==> {
                    &&& q.len() == p.len()
                    &&& q[i].name == p[i].name
                    &&& q[i].tasks.len() == p[i].tasks.len() + items.len()
                    &&& q[i].tasks.take(p[i].tasks.len() as int) == p[i].tasks
                    &&& are_new(q[i].tasks.skip(p[i].tasks.len() as int), items)
                    &&& forall|k: int| 0 <= k < p.len() && k != i ==> #[trigger] q[k] == p[k]
                }
            &&& (forall|i: int| 0 <= i < p.len() ==> (#[trigger] p[i]).name != name) ==> {
                &&& q.len() == p.len() + 1
                &&& q.drop_last() == p
                &&& q.last().name == name
                &&& are_new(q.last().tasks, items)
            }
        }),
{
    let q = after_op(p, args);
    let name = args.phase->0@;
    let items = args.items->0@;
    let fresh = fresh_items(items);
    assert forall|i: int| #[trigger] first_phase(p, name, i) implies {
        &&& q.len() == p.len()
        &&& q[i].name == p[i].name
        &&& q[i].tasks.len() == p[i].tasks.len() + items.len()
        &&& q[i].tasks.take(p[i].tasks.len() as int) == p[i].tasks
        &&& are_new(q[i].tasks.skip(p[i].tasks.len() as int), items)
        &&& forall|k: int| 0 <= k < p.len() && k != i ==> #[trigger] q[k] == p[k]
    } by {
        assert(p[i].name == name);
        assert(has_phase(p, name));
        assert(q[i].tasks == p[i].tasks + fresh);
        assert(q[i].tasks.take(p[i].tasks.len() as int) =~= p[i].tasks);
        assert(q[i].tasks.skip(p[i].tasks.len() as int) =~= fresh);
        assert forall|k: int| 0 <= k < p.len() && k != i implies #[trigger] q[k] == p[k] by {
            if p[k].name == name {
                assert(phase_before(p, name, k)) by {
                    assert(p[i].name == name);
                }
            }
        }
    }
    if forall|i: int| 0 <= i < p.len() ==> (#[trigger] p[i]).name != name {
        assert(!has_phase(p, name));
        assert(q.drop_last() =~= p);
    }
}

/// A new list has just the phases and tasks that are given, none of them started; where only tasks
/// are given they make one phase.
pub proof fn lemma_list_is_replaced(p: Seq<PhaseView>, args: TodoArgs)
    requires
        args.op == TodoOp::Init,
    ensures
        ({
            let q = after_op(p, args);
            if args.list is Some && args.list->0@.len() > 0 {
                &&& q.len() == args.list->0@.len()
                &&& forall|i: int|
                    0 <= i < q.len() ==> (#[trigger] q[i]).name == args.list->0@[i].phase@ && are_new(
                        q[i].tasks,
                        args.list->0@[i].items@,
                    )
            } else if args.items is Some && args.items->0@.len() > 0 {
                &&& q.len() == 1
                &&& q[0].name == match args.phase {
                    Some(name) => name@,
                    None => "Tasks"@,
                }
                &&& are_new(q[0].tasks, args.items->0@)
            } else {
                &&& q.len() == 0
                &&& op_errors(p, args) == seq!["Missing list for init operation"@]
            }
        }),
{
}

proof fn lemma_repeated_tasks(p: Seq<PhaseView>, i: int, j: int)
    requires
        0 <= i < p.len(),
        0 <= j <= p[i].tasks.len(),
    ensures
        repeated_tasks(p, i, j).len() == 0 <==> forall|b: int|
            0 <= b < j ==> #[trigger] first_task(p, p[i].tasks[b].content, i, b),
    decreases j,
{
    if j > 0 {
        lemma_repeated_tasks(p, i, j - 1);
        let content = content_at(p, i, j - 1);
        lemma_meant(p, Some(content), None, i, j - 1);
        if forall|b: int| 0 <= b < j ==> #[trigger] first_task(p, p[i].tasks[b].content, i, b) {
            assert(first_task(p, p[i].tasks[j - 1].content, i, j - 1));
        }
    }
}

proof fn lemma_repetitions(p: Seq<PhaseView>, i: int)
    requires
        0 <= i <= p.len(),
    ensures
        repetitions(p, i).len() == 0 <==> {
            &&& forall|a: int| 0 <= a < i ==> #[trigger] first_phase(p, p[a].name, a)
            &&& forall|a: int, b: int|
                0 <= a < i && 0 <= b < p[a].tasks.len() ==> #[trigger] first_task(
                    p,
                    p[a].tasks[b].content,
                    a,
                    b,
                )
        },
    decreases i,
{
    if i > 0 {
        lemma_repetitions(p, i - 1);
        let n = p[i - 1].tasks.len() as int;
        lemma_repeated_tasks(p, i - 1, n);
        let whole = repetitions(p, i);
        let name = p[i - 1].name;
        assert(phase_before(p, name, i - 1) <==> !first_phase(p, name, i - 1));
        if (forall|a: int| 0 <= a < i ==> #[trigger] first_phase(p, p[a].name, a)) && (forall|
            a: int,
            b: int,
        |
            0 <= a < i && 0 <= b < p[a].tasks.len() ==> #[trigger] first_task(
                p,
                p[a].tasks[b].content,
                a,
                b,
            )) {
            assert(first_phase(p, p[i - 1].name, i - 1));
            assert(forall|b: int|
                0 <= b < n ==> #[trigger] first_task(p, p[i - 1].tasks[b].content, i - 1, b));
            assert(whole.len() == 0);
        }
    }
}

/// A new list is refused just where a name of a phase or the text of a task is given twice.
pub proof fn lemma_new_list_has_no_repetition(p: Seq<PhaseView>, args: TodoArgs)
    requires
        args.op == TodoOp::Init,
        after_op(p, args).len() > 0,
    ensures
        ({
            let q = after_op(p, args);
            op_errors(p, args).len() == 0 <==> {
                &&& forall|a: int| 0 <= a < q.len() ==> #[trigger] first_phase(q, q[a].name, a)
                &&& forall|a: int, b: int|
                    0 <= a < q.len() && 0 <= b < q[a].tasks.len() ==> #[trigger] first_task(
                        q,
                        q[a].tasks[b].content,
                        a,
                        b,
                    )
            }
        }),
{
    let q = after_op(p, args);
    lemma_repetitions(q, q.len() as int);
}

proof fn lemma_taken(p: Seq<PhaseView>, items: Seq<Seq<char>>, k: int)
    requires
        0 <= k <= items.len(),
    ensures
        taken(p, items, k).len() == 0 <==> forall|m: int|
            0 <= m < k ==> !is_there(p, Some(#[trigger] items[m]), None) && forall|n: int|
                0 <= n < m ==> #[trigger] items[n] != items[m],
    decreases k,
{
    if k > 0 {
        lemma_taken(p, items, k - 1);
        lemma_there(p, Some(items[k - 1]), None);
        if forall|m: int|
            0 <= m < k ==> !is_there(p, Some(#[trigger] items[m]), None) && forall|n: int|
                0 <= n < m ==> #[trigger] items[n] != items[m] {
            assert(!is_there(p, Some(items[k - 1]), None));
        }
    }
}

/// Tasks are added just where a phase is named, there is something to add, and no text is given twice
/// or on the list already.
pub proof fn lemma_added_unless_there(p: Seq<PhaseView>, args: TodoArgs)
    requires
        args.op == TodoOp::Append,
    ensures
        op_errors(p, args).len() == 0 <==> {
            &&& args.phase is Some
            &&& args.items is Some
            &&& args.items->0@.len() > 0
            &&& forall|m: int|
                0 <= m < args.items->0@.len() ==> !is_there(
                    p,
                    Some(#[trigger] texts(args.items->0@)[m]),
                    None,
                ) && forall|n: int|
                    0 <= n < m ==> #[trigger] texts(args.items->0@)[n] != texts(args.items->0@)[m]
        },
{
    if args.items is Some {
        lemma_taken(p, texts(args.items->0@), args.items->0@.len() as int);
    }
}

// One task under way

/// To leave one task under way changes no more than it has to: texts and reasons stay, and so does
/// the status of a task that is done, given up or blocked; where a task is under way the first such
/// one stays so and a pending one stays pending.
pub proof fn lemma_little_is_settled(p: Seq<PhaseView>, i: int, j: int)
    requires
        is_place(p, i, j),
    ensures
        same_tasks(p, settled(p)),
        settled(p)[i].tasks[j].blocker == p[i].tasks[j].blocker,
        ({
            let was = p[i].tasks[j].status;
            let is = settled(p)[i].tasks[j].status;
            &&& was == TodoStatus::Completed || was == TodoStatus::Abandoned || was
                == TodoStatus::Blocked ==> is == was
            &&& was == TodoStatus::InProgress && (forall|a: int, b: int|
                is_place(p, a, b) && (a < i || a == i && b < j) ==> #[trigger] status_at(p, a, b)
                    != TodoStatus::InProgress) ==> is == was
            &&& was == TodoStatus::Pending && (exists|a: int, b: int|
                is_place(p, a, b) && #[trigger] status_at(p, a, b) == TodoStatus::InProgress) ==> is
                == was
        }),
{
    let was = p[i].tasks[j].status;
    if was == TodoStatus::Pending && (exists|a: int, b: int|
        is_place(p, a, b) && #[trigger] status_at(p, a, b) == TodoStatus::InProgress) {
        let (a, b) = choose|a: int, b: int|
            is_place(p, a, b) && #[trigger] status_at(p, a, b) == TodoStatus::InProgress;
        assert(before(a, b, p.len() as int, 0));
        assert(status_at(p, a, b) == TodoStatus::InProgress);
    }
}

// What is said

/// All tasks of a list, one phase behind the other.
pub open spec fn all_tasks(p: Seq<PhaseView>) -> Seq<ItemView> {
    Seq::new(p.len(), |i: int| p[i].tasks).flatten_alt()
}

proof fn lemma_tally_tasks(tasks: Seq<ItemView>, what: Tally)
    ensures
        tally_tasks(tasks, what) == tasks.filter(|t: ItemView| counts(t, what)).len(),
    decreases tasks.len(),
{
    reveal(Seq::filter);
    if tasks.len() > 0 {
        lemma_tally_tasks(tasks.drop_last(), what);
    }
}

proof fn lemma_tally(p: Seq<PhaseView>, what: Tally)
    ensures
        tally(p, what) == all_tasks(p).filter(|t: ItemView| counts(t, what)).len(),
    decreases p.len(),
{
    let l = Seq::new(p.len(), |i: int| p[i].tasks);
    let f = |t: ItemView| counts(t, what);
    if p.len() > 0 {
        lemma_tally(p.drop_last(), what);
        lemma_tally_tasks(p.last().tasks, what);
        assert(l.drop_last() =~= Seq::new(p.drop_last().len(), |i: int| p.drop_last()[i].tasks));
        Seq::filter_distributes_over_add(all_tasks(p.drop_last()), p.last().tasks, f);
        assert(l.last() == p.last().tasks);
        assert(all_tasks(p) == all_tasks(p.drop_last()) + p.last().tasks);
    } else {
        reveal(Seq::filter);
    }
}

proof fn lemma_all_count(tasks: Seq<ItemView>)
    ensures
        tasks.filter(|t: ItemView| counts(t, Tally::All)) == tasks,
    decreases tasks.len(),
{
    reveal(Seq::filter);
    if tasks.len() > 0 {
        lemma_all_count(tasks.drop_last());
        assert(tasks.drop_last().push(tasks.last()) =~= tasks);
    } else {
        assert(tasks.filter(|t: ItemView| counts(t, Tally::All)) =~= tasks);
    }
}

/// What is told of a list counts its tasks: all of them, those that are done or given up, and those
/// that are blocked.
pub proof fn lemma_tasks_are_counted(p: Seq<PhaseView>)
    ensures
        tally(p, Tally::All) == all_tasks(p).len(),
        tally(p, Tally::Closed) == all_tasks(p).filter(
            |t: ItemView| t.status == TodoStatus::Completed || t.status == TodoStatus::Abandoned,
        ).len(),
        tally(p, Tally::Blocked) == all_tasks(p).filter(
            |t: ItemView| t.status == TodoStatus::Blocked,
        ).len(),
{
    lemma_tally(p, Tally::All);
    lemma_tally(p, Tally::Closed);
    lemma_tally(p, Tally::Blocked);
    lemma_all_count(all_tasks(p));
    assert((|t: ItemView| counts(t, Tally::Closed)) =~= (|t: ItemView|
        t.status == TodoStatus::Completed || t.status == TodoStatus::Abandoned));
    assert((|t: ItemView| counts(t, Tally::Blocked)) =~= (|t: ItemView| t.status
        == TodoStatus::Blocked));
}

/// A task as a list shows it: a mark for its status, its text, and where that is not plain from the
/// mark its status in words.
pub open spec fn task_shown(t: ItemView) -> Seq<char> {
    match t.status {
        TodoStatus::Pending => "  ["@ + seq![' '] + "] "@ + t.content,
        TodoStatus::InProgress => "  ["@ + seq!['/'] + "] "@ + t.content + " (in progress)"@,
        TodoStatus::Completed => "  ["@ + seq!['x'] + "] "@ + t.content,
        TodoStatus::Abandoned => "  ["@ + seq!['-'] + "] "@ + t.content + " (dropped)"@,
        TodoStatus::Blocked => "  ["@ + seq!['!'] + "] "@ + t.content + match t.blocker {
            Some(reason) => " (blocked: "@ + reason + ")"@,
            None => " (blocked)"@,
        },
    }
}

proof fn lemma_summaries(p: Seq<PhaseView>, i: int, j: int)
    requires
        0 <= i < p.len(),
    ensures
        phase_summaries(p).contains(p[i].name + ":"@),
        0 <= j < p[i].tasks.len() ==> phase_summaries(p).contains(task_shown(p[i].tasks[j])),
    decreases p.len(),
{
    let front = phase_summaries(p.drop_last());
    let back = task_summaries(p.last().tasks);
    let all = phase_summaries(p);
    assert(all == front.push(p.last().name + ":"@) + back);
    if i == p.len() - 1 {
        assert(all[front.len() as int] == p[i].name + ":"@);
        if 0 <= j < p[i].tasks.len() {
            let t = p[i].tasks[j];
            assert("  ["@.push(' ') =~= "  ["@ + seq![' ']);
            assert("  ["@.push('/') =~= "  ["@ + seq!['/']);
            assert("  ["@.push('x') =~= "  ["@ + seq!['x']);
            assert("  ["@.push('-') =~= "  ["@ + seq!['-']);
            assert("  ["@.push('!') =~= "  ["@ + seq!['!']);
            assert(task_summary(t) =~= task_shown(t));
            assert(all[front.len() + 1 + j] == task_shown(t));
        }
    } else {
        lemma_summaries(p.drop_last(), i, j);
        assert forall|x: Seq<char>| front.contains(x) implies all.contains(x) by {
            let k = choose|k: int| 0 <= k < front.len() && front[k] == x;
            assert(all[k] == x);
        }
    }
}

/// What is told of a list has each of its phases and each of its tasks with its status.
pub proof fn lemma_each_task_is_told(p: Seq<PhaseView>, read_only: bool, i: int, j: int)
    requires
        is_place(p, i, j),
    ensures
        holds(summary(p, read_only), p[i].name + ":"@),
        holds(summary(p, read_only), task_shown(p[i].tasks[j])),
{
    lemma_tasks_are_counted(p);
    lemma_place_is_counted(p, i, j);
    lemma_summaries(p, i, j);
    let lines = seq![overall(p)] + phase_summaries(p);
    let k = choose|k: int|
        0 <= k < phase_summaries(p).len() && phase_summaries(p)[k] == p[i].name + ":"@;
    let m = choose|m: int|
        0 <= m < phase_summaries(p).len() && phase_summaries(p)[m] == task_shown(p[i].tasks[j]);
    let a = p[i].name + ":"@;
    let b = task_shown(p[i].tasks[j]);
    assert(lines[k + 1] == a);
    assert(lines[m + 1] == b);
    assert(a =~= Seq::<char>::empty() + a + Seq::<char>::empty());
    assert(b =~= Seq::<char>::empty() + b + Seq::<char>::empty());
    lemma_holds(Seq::empty(), a, Seq::empty());
    lemma_holds(Seq::empty(), b, Seq::empty());
    lemma_joined_holds(lines, "\n"@, k + 1, a);
    lemma_joined_holds(lines, "\n"@, m + 1, b);
}

proof fn lemma_place_is_counted(p: Seq<PhaseView>, i: int, j: int)
    requires
        is_place(p, i, j),
    ensures
        all_tasks(p).contains(p[i].tasks[j]),
        all_tasks(p).len() > 0,
    decreases p.len(),
{
    let l = Seq::new(p.len(), |i: int| p[i].tasks);
    let q = p.drop_last();
    assert(l.drop_last() =~= Seq::new(q.len(), |i: int| q[i].tasks));
    assert(l.last() == p.last().tasks);
    let front = all_tasks(q);
    assert(all_tasks(p) == front + p.last().tasks);
    if i == p.len() - 1 {
        assert(all_tasks(p)[front.len() + j] == p[i].tasks[j]);
    } else {
        lemma_place_is_counted(q, i, j);
        let k = choose|k: int| 0 <= k < front.len() && front[k] == p[i].tasks[j];
        assert(all_tasks(p)[k] == p[i].tasks[j]);
    }
}

/// The first line of what is told, and the title of a call, say how many tasks are closed of how many.
pub proof fn lemma_counts_are_told(op: TodoOp, p: Seq<PhaseView>)
    ensures
        ({
            let all = all_tasks(p).len();
            let closed = all_tasks(p).filter(
                |t: ItemView| t.status == TodoStatus::Completed || t.status == TodoStatus::Abandoned,
            ).len();
            &&& holds(title_of(op, p), " ("@ + dec(closed) + "/"@ + dec(all) + " done)"@)
            &&& holds(
                overall(p),
                "Overall: "@ + dec(closed) + "/"@ + dec(all) + " done, "@ + dec((all - closed) as nat)
                    + " open"@,
            )
        }),
{
    lemma_tasks_are_counted(p);
    let all = tally(p, Tally::All);
    let closed = tally(p, Tally::Closed);
    let a = " ("@ + dec(closed) + "/"@ + dec(all) + " done)"@;
    let front = title_of(op, p).take(title_of(op, p).len() - a.len());
    assert(title_of(op, p) =~= front + a + Seq::<char>::empty());
    lemma_holds(front, a, Seq::empty());
    let b = "Overall: "@ + dec(closed) + "/"@ + dec(all) + " done, "@ + dec((all - closed) as nat)
        + " open"@;
    let back = overall(p).skip(b.len() as int);
    assert(overall(p) =~= Seq::<char>::empty() + b + back);
    lemma_holds(Seq::empty(), b, back);
}

/// A task as a checklist has it.
pub proof fn lemma_marks(t: ItemView)
    ensures
        t.status == TodoStatus::Pending ==> task_line(t) == "- ["@ + seq![' '] + "] "@ + t.content,
        t.status == TodoStatus::InProgress ==> task_line(t) == "- ["@ + seq!['/'] + "] "@ + t.content,
        t.status == TodoStatus::Completed ==> task_line(t) == "- ["@ + seq!['x'] + "] "@ + t.content,
        t.status == TodoStatus::Abandoned ==> task_line(t) == "- ["@ + seq!['-'] + "] "@ + t.content,
        t.status == TodoStatus::Blocked ==> task_line(t) == "- ["@ + seq!['!'] + "] "@ + t.content
            + match t.blocker {
            Some(reason) => " <!-- blocker: "@ + reason + " -->"@,
            None => Seq::empty(),
        },
{
    assert("- ["@.push(' ') =~= "- ["@ + seq![' ']);
    assert("- ["@.push('/') =~= "- ["@ + seq!['/']);
    assert("- ["@.push('x') =~= "- ["@ + seq!['x']);
    assert("- ["@.push('-') =~= "- ["@ + seq!['-']);
    assert("- ["@.push('!') =~= "- ["@ + seq!['!']);
    if t.status == TodoStatus::Blocked {
        match t.blocker {
            Some(reason) => {
                assert(task_line(t) =~= "- ["@ + seq!['!'] + "] "@ + t.content + (" <!-- blocker: "@
                    + reason + " -->"@));
            },
            None => {
                assert(task_line(t) =~= "- ["@ + seq!['!'] + "] "@ + t.content + Seq::<char>::empty());
            },
        }
    }
}

// Reasons

/// Whether a text is without white space.
pub open spec fn is_solid(s: Seq<char>) -> bool {
    forall|i: int| 0 <= i < s.len() ==> !is_space(#[trigger] s[i])
}

proof fn lemma_solid_run(s: Seq<char>)
    requires
        is_solid(s),
    ensures
        run_len(s, false) == s.len(),
    decreases s.len(),
{
    if s.len() > 0 {
        assert forall|i: int| 0 <= i < s.drop_first().len() implies !is_space(
            #[trigger] s.drop_first()[i],
        ) by {
            assert(s.drop_first()[i] == s[i + 1]);
        }
        assert(!is_space(s[0]));
        lemma_solid_run(s.drop_first());
    }
}

proof fn lemma_run_stops(s: Seq<char>, n: int)
    requires
        0 <= n < s.len(),
        forall|i: int| 0 <= i < n ==> !is_space(#[trigger] s[i]),
        is_space(s[n]),
    ensures
        run_len(s, false) == n,
{
    lemma_run_len(s, false);
    let k = run_len(s, false) as int;
    if k < n {
        assert(!is_space(s[k]));
    }
    if k > n {
        assert(is_space(s[n]) == false);
    }
}

/// A reason of one word stays as it is, white space in front of one goes, and of white space between a
/// word and what follows one blank stays, or none where nothing follows: so what is kept are the words
/// with one blank between them.
pub proof fn lemma_words_are_kept(word: Seq<char>, c: char, rest: Seq<char>)
    requires
        is_solid(word),
        word.len() > 0,
        is_space(c),
    ensures
        collapsed(Seq::empty()) == Seq::<char>::empty(),
        collapsed(seq![c] + rest) == collapsed(rest),
        collapsed(word) == word,
        collapsed(word + seq![c] + rest) == if collapsed(rest).len() == 0 {
            word
        } else {
            word + seq![' '] + collapsed(rest)
        },
{
    let lead = seq![c] + rest;
    assert(lead.drop_first() =~= rest);
    assert(collapsed(lead) == collapsed(rest));
    lemma_solid_run(word);
    assert(!is_space(word[0]));
    assert(word.take(word.len() as int) =~= word);
    assert(word.skip(word.len() as int) =~= Seq::<char>::empty());
    assert(collapsed(word.skip(word.len() as int)).len() == 0);
    assert(collapsed(word) == word);
    let s = word + seq![c] + rest;
    let n = word.len() as int;
    assert forall|i: int| 0 <= i < n implies !is_space(#[trigger] s[i]) by {
        assert(s[i] == word[i]);
    }
    assert(s[n] == c);
    lemma_run_stops(s, n);
    assert(!is_space(s[0]));
    assert(s.take(n) =~= word);
    assert(s.skip(n) =~= lead);
    assert(word.push(' ') + collapsed(rest) =~= word + seq![' '] + collapsed(rest));
}

} // verus!
