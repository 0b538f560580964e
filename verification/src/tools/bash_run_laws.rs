//! What becomes of a run: what is kept of its output, how it is ended, and when it is over.

use vstd::prelude::*;

use crate::tools::bash_stream::{
    after_graces, is_over, stepped, Cause, Ending, EventView, RunView, Signal, Timer,
};
use crate::utf8::lossy;

verus! {

broadcast use vstd::seq::group_seq_axioms;

/// The first thirty thousand bytes of what a run writes are kept, in the order in which they come, of
/// both outputs alike; nothing else of the run changes but what is held back for the next piece.
pub proof fn lemma_first_bytes_are_kept(s: RunView, raw: Seq<u8>)
    requires
        s.buffer.len() <= 30_000,
        s.stdout_open,
        s.stderr_open,
    ensures
        ({
            let all = s.buffer + raw;
            let kept = if all.len() <= 30_000 {
                all
            } else {
                all.take(30_000)
            };
            let out = stepped(s, EventView::Stdout(raw)).0;
            let err = stepped(s, EventView::Stderr(raw)).0;
            &&& out.buffer == kept
            &&& err.buffer == kept
            &&& out.err_pending == s.err_pending && err.out_pending == s.out_pending
            &&& out.stdout_open && out.stderr_open && err.stdout_open && err.stderr_open
            &&& out.exit == s.exit && err.exit == s.exit
            &&& out.ending == s.ending && err.ending == s.ending
        }),
{
    let all = s.buffer + raw;
    let out = stepped(s, EventView::Stdout(raw)).0;
    let err = stepped(s, EventView::Stderr(raw)).0;
    if all.len() <= 30_000 {
        assert(raw.take(raw.len() as int) =~= raw);
        assert(out.buffer =~= all);
        assert(err.buffer =~= all);
    } else {
        assert(out.buffer =~= all.take(30_000));
        assert(err.buffer =~= all.take(30_000));
    }
}

/// Where an output ends, what was held back of it is shown, and nothing of it comes any more; the other
/// one goes on.
pub proof fn lemma_output_is_closed(s: RunView, raw: Seq<u8>)
    requires
        s.stdout_open,
        s.stderr_open,
    ensures
        ({
            let (out, shown) = stepped(s, EventView::StdoutClosed);
            &&& !out.stdout_open && out.stderr_open
            &&& shown.report == lossy(s.out_pending)
            &&& out.buffer == s.buffer && out.exit == s.exit && out.err_pending == s.err_pending
            &&& stepped(out, EventView::Stdout(raw)).0.buffer == s.buffer
            &&& stepped(out, EventView::Stdout(raw)).1.report.len() == 0
        }),
        ({
            let (err, shown) = stepped(s, EventView::StderrClosed);
            &&& !err.stderr_open && err.stdout_open
            &&& shown.report == lossy(s.err_pending)
            &&& err.buffer == s.buffer && err.exit == s.exit && err.out_pending == s.out_pending
            &&& stepped(err, EventView::Stderr(raw)).0.buffer == s.buffer
            &&& stepped(err, EventView::Stderr(raw)).1.report.len() == 0
        }),
{
}

/// A run that nobody ends is over when its process has ended and both outputs are closed, in whatever
/// order that happens, and no sooner; the code is the one that the process ended with first.
pub proof fn lemma_run_completes(s: RunView, e: EventView)
    requires
        s.ending is None,
        !s.terminating,
        e != EventView::Deadline,
        e != EventView::Cancel,
    ensures
        ({
            let (after, step) = stepped(s, e);
            &&& after.ending is None
            &&& step.signal is None
            &&& step.done == match after.exit {
                Some(code) => if !after.stdout_open && !after.stderr_open {
                    Some(Cause::Completed(code))
                } else {
                    None
                },
                None => None,
            }
            &&& s.exit is Some ==> after.exit == s.exit
            &&& s.exit is None ==> after.exit == match e {
                EventView::Exited(code) => Some(code),
                EventView::WaitFailed => Some(None),
                _ => None,
            }
            &&& after.stdout_open == (s.stdout_open && e != EventView::StdoutClosed)
            &&& after.stderr_open == (s.stderr_open && e != EventView::StderrClosed)
        }),
{
}

/// A run that is out of time, or that the user wants to end, is given no time any more, for the reason
/// that came first; its output is still taken.
pub proof fn lemma_run_is_to_end(s: RunView)
    requires
        s.ending is None,
        !s.terminating,
        !is_over(s),
    ensures
        ({
            let (late, step) = stepped(s, EventView::Deadline);
            &&& late.ending == Some(Ending::TimedOut)
            &&& late.terminating && late.stage == 0
            &&& step.timer == Timer::Now && step.done is None && step.signal is None
            &&& late.stdout_open == s.stdout_open && late.stderr_open == s.stderr_open
            &&& late.buffer == s.buffer
        }),
        ({
            let (ended, step) = stepped(s, EventView::Cancel);
            &&& ended.ending == Some(Ending::Cancelled)
            &&& ended.terminating && ended.stage == 0
            &&& step.timer == Timer::Now && step.done is None && step.signal is None
            &&& ended.stdout_open == s.stdout_open && ended.stderr_open == s.stderr_open
            &&& ended.buffer == s.buffer
        }),
        stepped(stepped(s, EventView::Deadline).0, EventView::Cancel).0.ending == Some(
            Ending::TimedOut,
        ),
        stepped(stepped(s, EventView::Cancel).0, EventView::Deadline).0.ending == Some(
            Ending::Cancelled,
        ),
{
}

proof fn lemma_after_graces(s: RunView, n: nat)
    requires
        s.ending is Some,
        s.terminating,
        !is_over(s),
        s.stage == 0,
        n <= s.levels,
    ensures
        after_graces(s, n) == (RunView { stage: n, ..s }),
    decreases n,
{
    if n > 0 {
        lemma_after_graces(s, (n - 1) as nat);
    }
}

/// A run that is to end is first asked to, and is killed each time that it was given and did not use;
/// when that was tried often enough it is given up, for the reason that it was to end.
pub proof fn lemma_run_is_ended_by_force(s: RunView, n: nat)
    requires
        s.ending is Some,
        s.terminating,
        !is_over(s),
        s.stage == 0,
        n <= s.levels,
    ensures
        ({
            let step = stepped(after_graces(s, n), EventView::Grace).1;
            &&& n < s.levels ==> step.signal == Some(
                if n == 0 {
                    Signal::Terminate
                } else {
                    Signal::Kill
                },
            ) && step.timer == Timer::Again && step.done is None
            &&& n == s.levels ==> step.signal is None && step.done == Some(
                match s.ending {
                    Some(Ending::TimedOut) => Cause::TimedOut,
                    _ => Cause::Cancelled,
                },
            )
        }),
{
    lemma_after_graces(s, n);
}

/// A run that is to end is over as soon as it has ended by itself, for the reason that it was to end.
pub proof fn lemma_ended_run_is_over(s: RunView, code: Option<i32>)
    requires
        s.ending is Some,
        s.exit is None,
        !s.stdout_open,
        !s.stderr_open,
    ensures
        stepped(s, EventView::Exited(code)).1.done == Some(
            match s.ending {
                Some(Ending::TimedOut) => Cause::TimedOut,
                _ => Cause::Cancelled,
            },
        ),
{
}

} // verus!
