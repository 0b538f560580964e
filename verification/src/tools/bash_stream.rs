//! A command that runs: what it writes, and how it is brought to an end.

use vstd::prelude::*;
use vstd::utf8::{
    decode_first_scalar, decode_utf8, encode_utf8, pop_first_scalar, valid_utf8,
};

use crate::utf8::{lossy, lossy_text, valid_len};

verus! {

broadcast use vstd::seq::group_seq_axioms;

/// How many bytes of what a command writes are kept.
pub const MAX_INLINE_BYTES: usize = 30_000;

// Text from the bytes of a stream

/// The length of the longest prefix, of at most `k` bytes, that is UTF-8.
pub open spec fn text_len(b: Seq<u8>, k: nat) -> nat
    decreases k,
{
    if k == 0 || valid_utf8(b.take(k as int)) {
        k
    } else {
        text_len(b, (k - 1) as nat)
    }
}

proof fn lemma_text_len(b: Seq<u8>, n: nat, k: nat)
    requires
        n <= k <= b.len(),
        valid_utf8(b.take(n as int)),
        forall|j: int| n < j <= b.len() ==> !valid_utf8(#[trigger] b.take(j)),
    ensures
        text_len(b, k) == n,
    decreases k,
{
    if k > n {
        assert(!valid_utf8(b.take(k as int)));
        lemma_text_len(b, n, (k - 1) as nat);
    }
}

proof fn lemma_text_len_is_text(b: Seq<u8>, k: nat)
    requires
        k <= b.len(),
    ensures
        text_len(b, k) <= k,
        valid_utf8(b.take(text_len(b, k) as int)),
    decreases k,
{
    if k > 0 && !valid_utf8(b.take(k as int)) {
        lemma_text_len_is_text(b, (k - 1) as nat);
    } else if k == 0 {
        assert(b.take(0) =~= Seq::<u8>::empty());
    }
}

proof fn lemma_text_len_is_longest(b: Seq<u8>, k: nat, j: int)
    requires
        k <= b.len(),
        text_len(b, k) < j <= k,
    ensures
        !valid_utf8(b.take(j)),
    decreases k,
{
    if j < k {
        lemma_text_len_is_longest(b, (k - 1) as nat, j);
    }
}

/// Bytes behind UTF-8 are UTF-8 together with it just where they are so by themselves.
proof fn lemma_behind_text(a: Seq<u8>, b: Seq<u8>)
    requires
        valid_utf8(a),
    ensures
        valid_utf8(a + b) == valid_utf8(b),
        valid_utf8(b) ==> decode_utf8(a + b) == decode_utf8(a) + decode_utf8(b),
    decreases a.len(),
{
    if a.len() == 0 {
        assert(a + b =~= b);
        assert(decode_utf8(a) + decode_utf8(b) =~= decode_utf8(b));
    } else {
        let rest = pop_first_scalar(a);
        assert(pop_first_scalar(a + b) =~= rest + b);
        lemma_behind_text(rest, b);
        if valid_utf8(b) {
            assert(decode_first_scalar(a + b) == decode_first_scalar(a));
            assert(decode_utf8(a + b) =~= decode_utf8(a) + decode_utf8(b));
        }
    }
}

proof fn lemma_text_len_behind(a: Seq<u8>, b: Seq<u8>)
    requires
        valid_utf8(a),
    ensures
        text_len(a + b, (a + b).len()) == a.len() + text_len(b, b.len()),
{
    let m = text_len(b, b.len());
    let n = a.len() + m;
    lemma_text_len_is_text(b, b.len());
    lemma_behind_text(a, b.take(m as int));
    assert((a + b).take(n as int) =~= a + b.take(m as int));
    assert forall|j: int| n < j <= (a + b).len() implies !valid_utf8(#[trigger] (a + b).take(j)) by {
        let t = j - a.len();
        lemma_text_len_is_longest(b, b.len(), t);
        lemma_behind_text(a, b.take(t));
        assert((a + b).take(j) =~= a + b.take(t));
    }
    lemma_text_len(a + b, n as nat, (a + b).len());
}

/// Makes text of the bytes of a stream, however they come in pieces.
#[derive(Debug)]
pub struct Utf8ChunkDecoder {
    pub pending: Vec<u8>,
}

/// The text in bytes, as far as it is whole.
pub open spec fn whole_text(b: Seq<u8>) -> Seq<char> {
    decode_utf8(b.take(text_len(b, b.len()) as int))
}

/// What is left of bytes behind the text that is whole.
pub open spec fn left_over(b: Seq<u8>) -> Seq<u8> {
    b.skip(text_len(b, b.len()) as int)
}

/// Pieces in one.
pub open spec fn joined(chunks: Seq<Seq<u8>>) -> Seq<u8>
    decreases chunks.len(),
{
    if chunks.len() == 0 {
        Seq::empty()
    } else {
        joined(chunks.drop_last()) + chunks.last()
    }
}

/// What comes of a stream in pieces: the text that is given back for them, and what is left over.
pub open spec fn streamed(chunks: Seq<Seq<u8>>) -> (Seq<char>, Seq<u8>)
    decreases chunks.len(),
{
    if chunks.len() == 0 {
        (Seq::empty(), Seq::empty())
    } else {
        let (text, rest) = streamed(chunks.drop_last());
        let b = rest + chunks.last();
        (text + whole_text(b), left_over(b))
    }
}

/// However the bytes of a stream are cut into pieces, the same text comes of them, with nothing in it
/// that the bytes do not say, and the same is left over.
pub proof fn lemma_cuts_do_not_matter(chunks: Seq<Seq<u8>>)
    ensures
        streamed(chunks).0 == whole_text(joined(chunks)),
        streamed(chunks).1 == left_over(joined(chunks)),
        encode_utf8(streamed(chunks).0) + streamed(chunks).1 == joined(chunks),
    decreases chunks.len(),
{
    let all = joined(chunks);
    lemma_no_byte_is_lost(all);
    if chunks.len() == 0 {
        assert(all.take(0) =~= Seq::<u8>::empty());
        assert(streamed(chunks).0 =~= whole_text(all));
        assert(streamed(chunks).1 =~= left_over(all));
    } else {
        let front = joined(chunks.drop_last());
        lemma_cuts_do_not_matter(chunks.drop_last());
        let n = text_len(front, front.len()) as int;
        lemma_text_len_is_text(front, front.len());
        let a = front.take(n);
        let b = left_over(front) + chunks.last();
        assert(all =~= a + b);
        lemma_text_len_behind(a, b);
        let m = text_len(b, b.len()) as int;
        lemma_text_len_is_text(b, b.len());
        assert(all.take(n + m) =~= a + b.take(m));
        lemma_behind_text(a, b.take(m));
        assert(all.skip(n + m) =~= b.skip(m));
    }
}

impl Default for Utf8ChunkDecoder {
    fn default() -> (r: Self)
        ensures
            r.pending@ == Seq::<u8>::empty(),
    {
        Utf8ChunkDecoder { pending: Vec::new() }
    }
}

impl Utf8ChunkDecoder {
    /// Takes in bytes and gives back the text that is whole.
    pub fn push(&mut self, bytes: &[u8]) -> (r: String)
        ensures
            r@ == whole_text(old(self).pending@ + bytes@),
            final(self).pending@ == left_over(old(self).pending@ + bytes@),
    {
        self.pending.extend_from_slice(bytes);
        let ghost all = self.pending@;
        assert(all =~= old(self).pending@ + bytes@);
        let n: usize = valid_len(self.pending.as_slice());
        proof {
            lemma_text_len(all, n as nat, all.len());
        }
        let rest = self.pending.split_off(n);
        assert(self.pending@ =~= all.take(n as int));
        let text = lossy_text(self.pending.as_slice());
        self.pending = rest;
        assert(self.pending@ =~= all.skip(n as int));
        text
    }

    /// The stream is over: what is left becomes text as far as that can be. However the stream came
    /// in pieces, all the text that was given back is what `String::from_utf8_lossy` makes of all its
    /// bytes.
    pub fn finish(&mut self) -> (r: String)
        ensures
            r@ == lossy(old(self).pending@),
            valid_utf8(old(self).pending@) ==> r@ == decode_utf8(old(self).pending@),
            final(self).pending@ == Seq::<u8>::empty(),
            forall|chunks: Seq<Seq<u8>>|
                (#[trigger] streamed(chunks)).1 == old(self).pending@ ==> streamed(chunks).0 + r@
                    == lossy(joined(chunks)),
    {
        let text = lossy_text(self.pending.as_slice());
        proof {
            let left = self.pending@;
            assert forall|chunks: Seq<Seq<u8>>| (#[trigger] streamed(chunks)).1 == left implies streamed(
                chunks,
            ).0 + text@ == lossy(joined(chunks)) by {
                let all = joined(chunks);
                let n = text_len(all, all.len()) as int;
                lemma_cuts_do_not_matter(chunks);
                lemma_text_len_is_text(all, all.len());
                assert(all.take(n) + left =~= all);
            }
        }
        self.pending.clear();
        text
    }
}

/// No byte is lost on the way to text: the text that is given back and what is left over are the
/// bytes that came in.
pub proof fn lemma_no_byte_is_lost(b: Seq<u8>)
    ensures
        encode_utf8(whole_text(b)) + left_over(b) == b,
{
    let n = text_len(b, b.len());
    lemma_text_len_is_text(b, b.len());
    vstd::utf8::decode_utf8_encode_utf8(b.take(n as int));
    assert(b.take(n as int) + b.skip(n as int) =~= b);
}

/// Bytes that are UTF-8 are given back as text at once.
pub proof fn lemma_text_is_not_held_back(b: Seq<u8>)
    requires
        valid_utf8(b),
    ensures
        whole_text(b) == decode_utf8(b),
        left_over(b).len() == 0,
{
    assert(b.take(b.len() as int) =~= b);
}

// What is kept

/// How many bytes of a chunk are kept where `kept` are kept already.
pub open spec fn taken(kept: nat, chunk: nat) -> nat {
    let room = if kept < MAX_INLINE_BYTES {
        (MAX_INLINE_BYTES - kept) as nat
    } else {
        0
    };
    if chunk <= room {
        chunk
    } else {
        room
    }
}

/// A count that stops at the most that can be counted.
pub open spec fn counted(n: nat) -> nat {
    if n <= u64::MAX {
        n
    } else {
        u64::MAX as nat
    }
}

/// Keeps as much of a chunk as there is room for, and counts the rest.
fn keep(raw: &[u8], buffer: &mut Vec<u8>, dropped: &mut u64)
    ensures
        final(buffer)@ == old(buffer)@ + raw@.take(taken(old(buffer)@.len(), raw@.len()) as int),
        *final(dropped) == counted(
            (*old(dropped) + (raw@.len() - taken(old(buffer)@.len(), raw@.len()))) as nat,
        ),
{
    let room: usize = if buffer.len() < MAX_INLINE_BYTES {
        MAX_INLINE_BYTES - buffer.len()
    } else {
        0
    };
    if raw.len() <= room {
        buffer.extend_from_slice(raw);
        assert(raw@.take(raw@.len() as int) =~= raw@);
    } else {
        let head = vstd::slice::slice_subrange(raw, 0, room);
        buffer.extend_from_slice(head);
        assert(head@ =~= raw@.take(room as int));
        let more: u64 = (raw.len() - room) as u64;
        *dropped = dropped.saturating_add(more);
    }
    assert(buffer@ =~= old(buffer)@ + raw@.take(
        taken(old(buffer)@.len(), raw@.len()) as int,
    ));
}

// The run

/// Why a run is brought to an end.
#[derive(Debug, Clone, Copy, PartialEq, Eq, Structural)]
pub enum Ending {
    Cancelled,
    TimedOut,
}

/// How a run ended.
#[derive(Debug, Clone, Copy, PartialEq, Eq, Structural)]
pub enum Cause {
    /// By itself, with an exit code if there is one.
    Completed(Option<i32>),
    Cancelled,
    TimedOut,
}

/// What happens to a run.
#[derive(Debug, Clone)]
pub enum RunEvent {
    /// The time is over.
    Deadline,
    /// The user wants it to end.
    Cancel,
    /// The time is over that the processes were given to end by themselves.
    Grace,
    /// It wrote something.
    Stdout(Vec<u8>),
    StdoutClosed,
    Stderr(Vec<u8>),
    StderrClosed,
    /// The shell is gone, with an exit code if there is one.
    Exited(Option<i32>),
    /// How the shell ended cannot be told.
    WaitFailed,
}

/// What happens to a run.
#[verifier::ext_equal]
pub enum EventView {
    Deadline,
    Cancel,
    Grace,
    Stdout(Seq<u8>),
    StdoutClosed,
    Stderr(Seq<u8>),
    StderrClosed,
    Exited(Option<i32>),
    WaitFailed,
}

impl View for RunEvent {
    type V = EventView;

    open spec fn view(&self) -> EventView {
        match *self {
            RunEvent::Deadline => EventView::Deadline,
            RunEvent::Cancel => EventView::Cancel,
            RunEvent::Grace => EventView::Grace,
            RunEvent::Stdout(b) => EventView::Stdout(b@),
            RunEvent::StdoutClosed => EventView::StdoutClosed,
            RunEvent::Stderr(b) => EventView::Stderr(b@),
            RunEvent::StderrClosed => EventView::StderrClosed,
            RunEvent::Exited(code) => EventView::Exited(code),
            RunEvent::WaitFailed => EventView::WaitFailed,
        }
    }
}

/// A signal to all processes of a run.
#[derive(Debug, Clone, Copy, PartialEq, Eq, Structural)]
pub enum Signal {
    /// To end.
    Terminate,
    /// To be killed.
    Kill,
}

/// What becomes of the timer that the processes are given.
#[derive(Debug, Clone, Copy, PartialEq, Eq, Structural)]
pub enum Timer {
    /// It stays as it is.
    Keep,
    /// It runs out at once.
    Now,
    /// It starts again.
    Again,
}

/// What is to be done after an event.
#[derive(Debug)]
pub struct Step {
    /// The text to show; nothing where it is empty.
    pub report: String,
    pub signal: Option<Signal>,
    pub timer: Timer,
    /// How the run ended, if it did.
    pub done: Option<Cause>,
}

/// What is to be done after an event.
#[verifier::ext_equal]
pub struct StepView {
    pub report: Seq<char>,
    pub signal: Option<Signal>,
    pub timer: Timer,
    pub done: Option<Cause>,
}

impl View for Step {
    type V = StepView;

    open spec fn view(&self) -> StepView {
        StepView {
            report: self.report@,
            signal: self.signal,
            timer: self.timer,
            done: self.done,
        }
    }
}

/// A run.
#[derive(Debug)]
pub struct Run {
    pub stdout_open: bool,
    pub stderr_open: bool,
    /// Whether the shell is gone, and with which exit code.
    pub exit: Option<Option<i32>>,
    /// Why it is brought to an end.
    pub ending: Option<Ending>,
    /// Whether that has begun.
    pub terminating: bool,
    /// How many signals were sent.
    pub stage: u8,
    /// How many signals there are.
    pub levels: u8,
    pub buffer: Vec<u8>,
    pub dropped: u64,
    pub out_text: Utf8ChunkDecoder,
    pub err_text: Utf8ChunkDecoder,
}

/// A run.
#[verifier::ext_equal]
pub struct RunView {
    pub stdout_open: bool,
    pub stderr_open: bool,
    pub exit: Option<Option<i32>>,
    pub ending: Option<Ending>,
    pub terminating: bool,
    pub stage: nat,
    pub levels: nat,
    pub buffer: Seq<u8>,
    pub dropped: nat,
    pub out_pending: Seq<u8>,
    pub err_pending: Seq<u8>,
}

impl View for Run {
    type V = RunView;

    open spec fn view(&self) -> RunView {
        RunView {
            stdout_open: self.stdout_open,
            stderr_open: self.stderr_open,
            exit: self.exit,
            ending: self.ending,
            terminating: self.terminating,
            stage: self.stage as nat,
            levels: self.levels as nat,
            buffer: self.buffer@,
            dropped: self.dropped as nat,
            out_pending: self.out_text.pending@,
            err_pending: self.err_text.pending@,
        }
    }
}

/// A run that has just begun.
pub open spec fn begun(levels: nat) -> RunView {
    RunView {
        stdout_open: true,
        stderr_open: true,
        exit: None,
        ending: None,
        terminating: false,
        stage: 0,
        levels,
        buffer: Seq::empty(),
        dropped: 0,
        out_pending: Seq::empty(),
        err_pending: Seq::empty(),
    }
}

/// Nothing to do.
pub open spec fn idle() -> StepView {
    StepView { report: Seq::empty(), signal: None, timer: Timer::Keep, done: None }
}

/// Text to show.
pub open spec fn show(text: Seq<char>) -> StepView {
    StepView { report: text, signal: None, timer: Timer::Keep, done: None }
}

/// The cause that an ending is.
pub open spec fn cause_of(e: Ending) -> Cause {
    match e {
        Ending::Cancelled => Cause::Cancelled,
        Ending::TimedOut => Cause::TimedOut,
    }
}

/// A run with one more chunk kept.
pub open spec fn kept(s: RunView, raw: Seq<u8>) -> RunView {
    let n = taken(s.buffer.len(), raw.len());
    RunView {
        buffer: s.buffer + raw.take(n as int),
        dropped: counted((s.dropped + (raw.len() - n)) as nat),
        ..s
    }
}

/// What an event itself does.
pub open spec fn handled(s: RunView, e: EventView) -> (RunView, StepView) {
    match e {
        EventView::Deadline => if s.ending is None {
            (RunView { ending: Some(Ending::TimedOut), ..s }, idle())
        } else {
            (s, idle())
        },
        EventView::Cancel => if s.ending is None {
            (RunView { ending: Some(Ending::Cancelled), ..s }, idle())
        } else {
            (s, idle())
        },
        EventView::Grace => if !s.terminating {
            (s, idle())
        } else if s.stage < s.levels {
            (
                RunView { stage: s.stage + 1, ..s },
                StepView {
                    signal: Some(
                        if s.stage == 0 {
                            Signal::Terminate
                        } else {
                            Signal::Kill
                        },
                    ),
                    timer: Timer::Again,
                    ..idle()
                },
            )
        } else {
            (
                s,
                StepView {
                    done: Some(
                        match s.ending {
                            Some(x) => cause_of(x),
                            None => Cause::Cancelled,
                        },
                    ),
                    ..idle()
                },
            )
        },
        EventView::Stdout(raw) => if s.stdout_open {
            let all = s.out_pending + raw;
            (RunView { out_pending: left_over(all), ..kept(s, raw) }, show(whole_text(all)))
        } else {
            (s, idle())
        },
        EventView::StdoutClosed => if s.stdout_open {
            (
                RunView { stdout_open: false, out_pending: Seq::empty(), ..s },
                show(lossy(s.out_pending)),
            )
        } else {
            (s, idle())
        },
        EventView::Stderr(raw) => if s.stderr_open {
            let all = s.err_pending + raw;
            (RunView { err_pending: left_over(all), ..kept(s, raw) }, show(whole_text(all)))
        } else {
            (s, idle())
        },
        EventView::StderrClosed => if s.stderr_open {
            (
                RunView { stderr_open: false, err_pending: Seq::empty(), ..s },
                show(lossy(s.err_pending)),
            )
        } else {
            (s, idle())
        },
        EventView::Exited(code) => if s.exit is None {
            (RunView { exit: Some(code), ..s }, idle())
        } else {
            (s, idle())
        },
        EventView::WaitFailed => if s.exit is None {
            (RunView { exit: Some(None), ..s }, idle())
        } else {
            (s, idle())
        },
    }
}

/// Whether nothing more is to come from a run.
pub open spec fn is_over(s: RunView) -> bool {
    s.exit is Some && !s.stdout_open && !s.stderr_open
}

/// What follows from what an event did: a run of which nothing more is to come is done, and one
/// that is to end is brought to an end.
pub open spec fn settled(s: RunView, step: StepView) -> (RunView, StepView) {
    match (step.done, s.ending) {
        (Some(_), _) => (s, step),
        (None, None) => (
            s,
            if is_over(s) {
                StepView { done: Some(Cause::Completed(s.exit->Some_0)), ..step }
            } else {
                step
            },
        ),
        (None, Some(ending)) => {
            let (s2, step2) = if s.terminating {
                (s, step)
            } else {
                (
                    RunView { terminating: true, stage: 0, ..s },
                    StepView { timer: Timer::Now, ..step },
                )
            };
            (
                s2,
                if is_over(s) {
                    StepView { done: Some(cause_of(ending)), ..step2 }
                } else {
                    step2
                },
            )
        },
    }
}

/// What an event does to a run, and what is to be done then.
pub open spec fn stepped(s: RunView, e: EventView) -> (RunView, StepView) {
    let (s2, step) = handled(s, e);
    settled(s2, step)
}

impl Run {
    /// A run that has just begun. `levels` is how many signals there are to end it with.
    pub fn new(levels: u8) -> (r: Self)
        ensures
            r@ == begun(levels as nat),
    {
        let r = Run {
            stdout_open: true,
            stderr_open: true,
            exit: None,
            ending: None,
            terminating: false,
            stage: 0,
            levels,
            buffer: Vec::new(),
            dropped: 0,
            out_text: Utf8ChunkDecoder { pending: Vec::new() },
            err_text: Utf8ChunkDecoder { pending: Vec::new() },
        };
        assert(r@ =~= begun(levels as nat));
        r
    }

    /// What an event itself does.
    fn handle(&mut self, event: &RunEvent) -> (r: Step)
        ensures
            (final(self)@, r@) == handled(old(self)@, event@),
    {
        let mut report = String::new();
        let mut signal: Option<Signal> = None;
        let mut timer = Timer::Keep;
        let mut done: Option<Cause> = None;
        match event {
            RunEvent::Deadline => {
                if self.ending.is_none() {
                    self.ending = Some(Ending::TimedOut);
                }
            },
            RunEvent::Cancel => {
                if self.ending.is_none() {
                    self.ending = Some(Ending::Cancelled);
                }
            },
            RunEvent::Grace => {
                if self.terminating {
                    if self.stage < self.levels {
                        signal = Some(
                            if self.stage == 0 {
                                Signal::Terminate
                            } else {
                                Signal::Kill
                            },
                        );
                        self.stage = self.stage + 1;
                        timer = Timer::Again;
                    } else {
                        done = Some(
                            match self.ending {
                                Some(Ending::TimedOut) => Cause::TimedOut,
                                _ => Cause::Cancelled,
                            },
                        );
                    }
                }
            },
            RunEvent::Stdout(raw) => {
                if self.stdout_open {
                    report = self.out_text.push(raw.as_slice());
                    keep(raw.as_slice(), &mut self.buffer, &mut self.dropped);
                }
            },
            RunEvent::StdoutClosed => {
                if self.stdout_open {
                    self.stdout_open = false;
                    report = self.out_text.finish();
                }
            },
            RunEvent::Stderr(raw) => {
                if self.stderr_open {
                    report = self.err_text.push(raw.as_slice());
                    keep(raw.as_slice(), &mut self.buffer, &mut self.dropped);
                }
            },
            RunEvent::StderrClosed => {
                if self.stderr_open {
                    self.stderr_open = false;
                    report = self.err_text.finish();
                }
            },
            RunEvent::Exited(code) => {
                if self.exit.is_none() {
                    self.exit = Some(*code);
                }
            },
            RunEvent::WaitFailed => {
                if self.exit.is_none() {
                    self.exit = Some(None);
                }
            },
        }
        let r = Step { report, signal, timer, done };
        assert(self@ =~= handled(old(self)@, event@).0);
        assert(r@ =~= handled(old(self)@, event@).1);
        r
    }

    /// Takes an event in and says what is to be done.
    pub fn step(&mut self, event: &RunEvent) -> (r: Step)
        ensures
            (final(self)@, r@) == stepped(old(self)@, event@),
    {
        let mut r = self.handle(event);
        let ghost (s, step) = (self@, r@);
        if r.done.is_none() {
            let exit = self.exit;
            let closed = !self.stdout_open && !self.stderr_open;
            match self.ending {
                None => {
                    if let Some(code) = exit {
                        if closed {
                            r.done = Some(Cause::Completed(code));
                        }
                    }
                },
                Some(ending) => {
                    if !self.terminating {
                        self.terminating = true;
                        self.stage = 0;
                        r.timer = Timer::Now;
                    }
                    if exit.is_some() && closed {
                        r.done = Some(
                            match ending {
                                Ending::TimedOut => Cause::TimedOut,
                                Ending::Cancelled => Cause::Cancelled,
                            },
                        );
                    }
                },
            }
        }
        assert(self@ =~= settled(s, step).0);
        assert(r@ =~= settled(s, step).1);
        r
    }
}

// Laws

/// Why a run is brought to an end is settled once: of a time limit and a wish to end it, the first
/// that comes counts.
pub proof fn lemma_ending_stays(s: RunView, e: EventView)
    requires
        s.ending is Some,
    ensures
        stepped(s, e).0.ending == s.ending,
        stepped(s, e).1.done matches Some(c) ==> c == cause_of(s.ending->Some_0),
{
}

/// What is kept of a run's output never grows beyond the limit.
pub proof fn lemma_buffer_is_bounded(s: RunView, e: EventView)
    requires
        s.buffer.len() <= MAX_INLINE_BYTES,
    ensures
        stepped(s, e).0.buffer.len() <= MAX_INLINE_BYTES,
        s.buffer.is_prefix_of(stepped(s, e).0.buffer),
{
}

/// Each byte that comes in is kept or counted.
pub proof fn lemma_each_byte_is_accounted_for(s: RunView, raw: Seq<u8>)
    requires
        s.dropped + raw.len() <= u64::MAX,
    ensures
        kept(s, raw).buffer.len() + kept(s, raw).dropped == s.buffer.len() + s.dropped + raw.len(),
{
}

/// A run that is to end goes on showing what it writes.
pub proof fn lemma_output_is_shown_to_the_end(s: RunView, raw: Seq<u8>)
    requires
        s.stdout_open,
    ensures
        stepped(s, EventView::Stdout(raw)).1.report == whole_text(s.out_pending + raw),
{
}

/// How many times the processes have been given time.
pub open spec fn after_graces(s: RunView, n: nat) -> RunView
    decreases n,
{
    if n == 0 {
        s
    } else {
        stepped(after_graces(s, (n - 1) as nat), EventView::Grace).0
    }
}

proof fn lemma_graces(s: RunView, n: nat)
    requires
        s.terminating,
        s.ending is Some,
        s.stage + n <= s.levels,
    ensures
        after_graces(s, n).stage == s.stage + n,
        after_graces(s, n).terminating,
        after_graces(s, n).ending == s.ending,
        after_graces(s, n).levels == s.levels,
    decreases n,
{
    if n > 0 {
        lemma_graces(s, (n - 1) as nat);
    }
}

/// A run that is to end does end: when all signals were sent and the time after the last of them is
/// over, nobody waits any longer.
pub proof fn lemma_ends(s: RunView)
    requires
        s.terminating,
        s.ending is Some,
        s.stage <= s.levels,
    ensures
        stepped(after_graces(s, (s.levels - s.stage) as nat), EventView::Grace).1.done == Some(
            cause_of(s.ending->Some_0),
        ),
{
    lemma_graces(s, (s.levels - s.stage) as nat);
}

} // verus!
