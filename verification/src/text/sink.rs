//! A size limit on output that arrives in chunks: a fixed head, a rolling tail, and a column
//! limit on each line whatever chunks the line came in.

use std::collections::VecDeque;

use vstd::prelude::*;

use crate::strings::{
    byte_len, flat, lemma_encode_concat, lemma_encode_push, lemma_flat_first, lemma_flat_push,
    lemma_offset_monotone, split_newline, str_len, texts,
};
use crate::text::truncate::{
    after_line, first_line, first_line_len, lemma_first_line, lemma_within, next_line, omission,
    push_omission, suffix_within, surplus, take_suffix_within, TruncateLimits, Truncated,
    TruncatedView,
};
use crate::text::width::{
    char_columns, columns, fitting, lemma_concat, lemma_fitting, scan_after, scan_columns,
    truncate_to_width, truncated_to_width, visible_width, visible_width_up_to, Scan,
};

verus! {

broadcast use vstd::seq::group_seq_axioms;

/// What an [`OutputSink`] holds.
#[verifier::ext_equal]
pub struct SinkView {
    /// The lines kept from the start of the stream.
    pub head: Seq<char>,
    pub head_lines: nat,
    /// A line did not fit the head: all later lines go to the tail.
    pub head_full: bool,
    /// The last lines, oldest first.
    pub tail: Seq<Seq<char>>,
    /// The line that has not ended yet, cut to the column limit.
    pub line: Seq<char>,
    /// The columns of `line`, as long as none of it is hidden.
    pub width: nat,
    /// The rest of the line is hidden.
    pub capped: bool,
    /// The bytes of the whole stream.
    pub bytes: nat,
    /// The lines of the whole stream that have ended.
    pub lines: nat,
    /// The bytes that the column limit took away.
    pub column_dropped: nat,
}

/// The state before anything has arrived.
pub open spec fn empty_sink() -> SinkView {
    SinkView {
        head: Seq::empty(),
        head_lines: 0,
        head_full: false,
        tail: Seq::empty(),
        line: Seq::empty(),
        width: 0,
        capped: false,
        bytes: 0,
        lines: 0,
        column_dropped: 0,
    }
}

/// The columns left for the line under way, a column limit being set and `…` being kept room for.
pub open spec fn room(l: TruncateLimits, v: SinkView) -> nat {
    surplus(surplus(l.max_columns as nat, columns("…"@)), v.width)
}

/// `frag`, which holds no line break, is added to the line under way.
pub open spec fn fed(l: TruncateLimits, v: SinkView, frag: Seq<char>) -> SinkView {
    if v.capped || l.max_columns == 0 {
        SinkView {
            width: 0,
            capped: true,
            column_dropped: v.column_dropped + byte_len(frag),
            ..v
        }
    } else if columns(frag) > room(l, v) {
        let shown = truncated_to_width(frag, room(l, v), Seq::empty());
        SinkView {
            line: (v.line + shown).push('…'),
            width: 0,
            capped: true,
            column_dropped: (v.column_dropped + byte_len(frag) - byte_len(shown)) as nat,
            ..v
        }
    } else {
        SinkView { line: v.line + frag, width: v.width + columns(frag), ..v }
    }
}

/// The tail brought back within its limits: whole lines go from the front, and a single line that
/// is too long keeps its end.
pub open spec fn evicted(
    tail: Seq<Seq<char>>,
    max_lines: nat,
    max_bytes: nat,
) -> Seq<Seq<char>>
    decreases tail.len(),
{
    if tail.len() <= max_lines && byte_len(flat(tail)) <= max_bytes {
        tail
    } else if tail.len() > 1 {
        evicted(tail.drop_first(), max_lines, max_bytes)
    } else {
        let end = suffix_within(tail[0], max_bytes);
        if end.len() == 0 {
            Seq::empty()
        } else {
            seq![end]
        }
    }
}

/// A line that has ended goes to the head or to the tail.
pub open spec fn routed(l: TruncateLimits, v: SinkView, line: Seq<char>) -> SinkView {
    let head_bytes = l.max_bytes as nat / 2;
    let head_lines = l.max_lines as nat / 2;
    let tail_bytes = (l.max_bytes - head_bytes) as nat;
    let tail_lines = (l.max_lines - head_lines) as nat;
    if !v.head_full && byte_len(v.head) + byte_len(line) <= head_bytes && v.head_lines + 1
        <= head_lines {
        SinkView { head: v.head + line, head_lines: v.head_lines + 1, ..v }
    } else if tail_lines == 0 || tail_bytes == 0 {
        SinkView { head_full: true, ..v }
    } else {
        SinkView {
            head_full: true,
            tail: evicted(v.tail.push(line), tail_lines, tail_bytes),
            ..v
        }
    }
}

/// The line under way ends.
pub open spec fn closed(l: TruncateLimits, v: SinkView, terminated: bool) -> SinkView {
    let line = if terminated {
        v.line.push('\n')
    } else {
        v.line
    };
    routed(
        l,
        SinkView { line: Seq::empty(), width: 0, capped: false, lines: v.lines + 1, ..v },
        line,
    )
}

/// `chunk` arrives, line by line.
pub open spec fn run(l: TruncateLimits, v: SinkView, chunk: Seq<char>) -> SinkView
    decreases chunk.len(),
{
    if chunk.len() == 0 {
        v
    } else {
        proof {
            lemma_first_line(chunk);
        }
        if first_line(chunk).last() == '\n' {
            run(l, closed(l, fed(l, v, first_line(chunk).drop_last()), true), after_line(chunk))
        } else {
            fed(l, v, chunk)
        }
    }
}

/// The state after `chunk`.
pub open spec fn pushed(l: TruncateLimits, v: SinkView, chunk: Seq<char>) -> SinkView {
    SinkView { bytes: v.bytes + byte_len(chunk), ..run(l, v, chunk) }
}

/// The state after a last line without a line break.
pub open spec fn settled(l: TruncateLimits, v: SinkView) -> SinkView {
    if v.line.len() > 0 || v.capped {
        closed(l, v, false)
    } else {
        v
    }
}

/// The result: the head, a note where something was left out, and the tail. What the column limit
/// took away does not count as left out.
pub open spec fn finished(l: TruncateLimits, v: SinkView) -> TruncatedView {
    let s = settled(l, v);
    let dropped_lines = surplus(s.lines, s.head_lines + s.tail.len());
    let dropped_bytes = surplus(
        surplus(s.bytes, s.column_dropped),
        byte_len(s.head) + byte_len(flat(s.tail)),
    );
    TruncatedView {
        text: if dropped_lines > 0 || dropped_bytes > 0 {
            s.head + omission(dropped_lines, dropped_bytes) + flat(s.tail)
        } else {
            s.head + flat(s.tail)
        },
        dropped_lines,
        dropped_bytes,
        first_line_exceeds_limit: false,
    }
}

/// A limit on a stream of output.
#[derive(Debug)]
pub struct OutputSink {
    limits: TruncateLimits,
    /// The columns of `…`.
    ellipsis_width: usize,
    head_text: String,
    head_lines: usize,
    head_full: bool,
    tail_lines: VecDeque<String>,
    tail_bytes: usize,
    pending_line: String,
    pending_width: usize,
    pending_capped: bool,
    total_bytes: usize,
    total_lines: usize,
    column_dropped_bytes: usize,
}

impl View for OutputSink {
    type V = SinkView;

    closed spec fn view(&self) -> SinkView {
        SinkView {
            head: self.head_text@,
            head_lines: self.head_lines as nat,
            head_full: self.head_full,
            tail: texts(self.tail_lines@),
            line: self.pending_line@,
            width: if self.pending_capped {
                0
            } else {
                self.pending_width as nat
            },
            capped: self.pending_capped,
            bytes: self.total_bytes as nat,
            lines: self.total_lines as nat,
            column_dropped: self.column_dropped_bytes as nat,
        }
    }
}

impl OutputSink {
    /// The limits that the sink was made with.
    pub closed spec fn limits(&self) -> TruncateLimits {
        self.limits
    }

    /// The windows stay within their limits, and what is counted has arrived.
    pub closed spec fn wf(&self) -> bool {
        let v = self@;
        let l = self.limits;
        &&& self.parts_wf()
        &&& v.lines + (if v.line.len() > 0 || v.capped {
            1nat
        } else {
            0nat
        }) <= v.bytes
        &&& v.column_dropped <= v.bytes
        &&& self.pending_width <= l.max_columns
    }

    spec fn parts_wf(&self) -> bool {
        let v = self@;
        let l = self.limits;
        &&& self.ellipsis_width == if columns("…"@) > usize::MAX {
            usize::MAX as nat
        } else {
            columns("…"@)
        }
        &&& byte_len(v.head) <= l.max_bytes as nat / 2
        &&& v.head_lines <= l.max_lines as nat / 2
        &&& self.tail_bytes == byte_len(flat(v.tail))
        &&& self.tail_bytes <= l.max_bytes - l.max_bytes as nat / 2
        &&& v.tail.len() <= l.max_lines - l.max_lines as nat / 2
    }

    /// A sink under the given limits.
    #[must_use]
    pub fn new(limits: TruncateLimits) -> (r: Self)
        ensures
            r.wf(),
            r.limits() == limits,
            r@ == empty_sink(),
    {
        let r = OutputSink {
            limits,
            ellipsis_width: visible_width("…"),
            head_text: String::new(),
            head_lines: 0,
            head_full: false,
            tail_lines: VecDeque::new(),
            tail_bytes: 0,
            pending_line: String::new(),
            pending_width: 0,
            pending_capped: false,
            total_bytes: 0,
            total_lines: 0,
            column_dropped_bytes: 0,
        };
        assert(r@ =~= empty_sink());
        r
    }

    /// Forgets everything but the limits.
    pub fn reset(&mut self)
        requires
            old(self).wf(),
        ensures
            final(self).wf(),
            final(self).limits() == old(self).limits(),
            final(self)@ == empty_sink(),
    {
        self.head_text = String::new();
        self.head_lines = 0;
        self.head_full = false;
        self.tail_lines.clear();
        self.tail_bytes = 0;
        self.pending_line = String::new();
        self.pending_width = 0;
        self.pending_capped = false;
        self.total_bytes = 0;
        self.total_lines = 0;
        self.column_dropped_bytes = 0;
        assert(self@ =~= empty_sink());
    }

    /// Takes a line that has ended into the head or the tail.
    fn route_line(&mut self, line: String)
        requires
            old(self).parts_wf(),
        ensures
            final(self).parts_wf(),
            final(self).limits == old(self).limits,
            final(self)@ == routed(old(self).limits, old(self)@, line@),
    {
        let ghost l = self.limits;
        let ghost v = self@;
        let n = str_len(line.as_str());
        let head_capacity_bytes: usize = self.limits.max_bytes / 2;
        let head_capacity_lines: usize = self.limits.max_lines / 2;
        if !self.head_full {
            if n <= head_capacity_bytes - str_len(self.head_text.as_str()) && self.head_lines
                < head_capacity_lines {
                proof {
                    lemma_encode_concat(self.head_text@, line@);
                }
                self.head_text.append(line.as_str());
                self.head_lines += 1;
                assert(self@ =~= routed(l, v, line@));
                return;
            }
            self.head_full = true;
        }
        let tail_capacity_bytes: usize = self.limits.max_bytes - head_capacity_bytes;
        let tail_capacity_lines: usize = self.limits.max_lines - head_capacity_lines;
        if tail_capacity_lines == 0 || tail_capacity_bytes == 0 {
            assert(self@ =~= routed(l, v, line@));
            return;
        }
        let ghost goal = evicted(
            v.tail.push(line@),
            tail_capacity_lines as nat,
            tail_capacity_bytes as nat,
        );
        while self.tail_lines.len() > 0 && (n > tail_capacity_bytes || self.tail_bytes
            > tail_capacity_bytes - n || self.tail_lines.len() >= tail_capacity_lines)
            invariant
                n == byte_len(line@),
                self.parts_wf(),
                self.limits == l,
                tail_capacity_bytes == l.max_bytes - l.max_bytes as nat / 2,
                tail_capacity_lines == l.max_lines - l.max_lines as nat / 2,
                tail_capacity_lines > 0,
                self@ == (SinkView { head_full: true, tail: self@.tail, ..v }),
                goal == evicted(
                    self@.tail.push(line@),
                    tail_capacity_lines as nat,
                    tail_capacity_bytes as nat,
                ),
            decreases self.tail_lines@.len(),
        {
            let ghost before = self@.tail;
            proof {
                lemma_flat_push(before, line@);
                lemma_flat_first(before);
            }
            if let Some(gone) = self.tail_lines.pop_front() {
                self.tail_bytes -= str_len(gone.as_str());
            }
            proof {
                assert(self@.tail =~= before.drop_first());
                assert(before.push(line@).drop_first() =~= before.drop_first().push(line@));
                assert(self@ =~= (SinkView { head_full: true, tail: self@.tail, ..v }));
            }
        }
        let ghost kept = self@.tail;
        proof {
            lemma_flat_push(kept, line@);
        }
        if n <= tail_capacity_bytes {
            self.tail_bytes += n;
            self.tail_lines.push_back(line);
            assert(self@.tail =~= kept.push(line@));
        } else {
            let end = take_suffix_within(line.as_str(), tail_capacity_bytes);
            proof {
                assert(kept =~= Seq::<Seq<char>>::empty());
                assert(kept.push(line@).len() == 1);
                assert(kept.push(line@)[0] == line@);
                assert(flat(kept.push(line@)) =~= line@);
                lemma_within(line@, tail_capacity_bytes as nat);
                lemma_flat_push(kept, end@);
            }
            self.tail_bytes = str_len(end);
            if !end.is_empty() {
                self.tail_lines.push_back(end.to_owned());
                assert(self@.tail =~= kept.push(end@));
                assert(self@.tail =~= seq![end@]);
            } else {
                assert(self@.tail =~= kept);
                assert(flat(kept) =~= Seq::<char>::empty());
                assert(end@ =~= Seq::<char>::empty());
            }
        }
        assert(self@ =~= routed(l, v, line@));
    }

    /// Ends the line under way, with a line break where `terminated`.
    fn close_current_line(&mut self, terminated: bool)
        requires
            old(self).parts_wf(),
            old(self).total_lines < usize::MAX,
        ensures
            final(self).parts_wf(),
            final(self).limits == old(self).limits,
            final(self)@ == closed(old(self).limits, old(self)@, terminated),
    {
        let ghost v = self@;
        let ghost l = self.limits;
        self.total_lines += 1;
        let mut line = self.pending_line.clone();
        if terminated {
            line.push('\n');
        }
        self.pending_line = String::new();
        self.pending_width = 0;
        self.pending_capped = false;
        assert(self@ =~= (SinkView {
            line: Seq::empty(),
            width: 0,
            capped: false,
            lines: v.lines + 1,
            ..v
        }));
        self.route_line(line);
    }

    /// Adds a piece without a line break to the line under way.
    fn feed(&mut self, frag: &str)
        requires
            old(self).parts_wf(),
            old(self).pending_width <= old(self).limits.max_columns,
            old(self)@.column_dropped + byte_len(frag@) <= usize::MAX,
        ensures
            final(self).parts_wf(),
            final(self).limits == old(self).limits,
            final(self)@ == fed(old(self).limits, old(self)@, frag@),
            final(self).pending_width <= final(self).limits.max_columns,
    {
        let ghost v = self@;
        let ghost l = self.limits;
        let n = str_len(frag);
        if self.pending_capped || self.limits.max_columns == 0 {
            self.pending_capped = true;
            self.column_dropped_bytes += n;
            assert(self@ =~= fed(l, v, frag@));
            return;
        }
        let budget: usize = if self.limits.max_columns > self.ellipsis_width {
            self.limits.max_columns - self.ellipsis_width
        } else {
            0
        };
        let remaining: usize = if budget > self.pending_width {
            budget - self.pending_width
        } else {
            0
        };
        assert(remaining == room(l, v));
        let (added, exceeded) = visible_width_up_to(frag, remaining);
        if exceeded {
            let shown = truncate_to_width(frag, remaining, "");
            proof {
                reveal_strlit("");
                assert(""@ =~= Seq::<char>::empty());
                lemma_shown(frag@, remaining as nat);
            }
            self.column_dropped_bytes += n - str_len(shown.as_str());
            self.pending_line.append(shown.as_str());
            self.pending_line.push('…');
            self.pending_capped = true;
        } else {
            self.pending_line.append(frag);
            self.pending_width += added;
        }
        assert(self@ =~= fed(l, v, frag@));
    }

    /// Takes a piece of output. A line may arrive in any number of pieces.
    pub fn push(&mut self, chunk: &str)
        requires
            old(self).wf(),
            old(self)@.bytes + byte_len(chunk@) <= usize::MAX,
        ensures
            final(self).wf(),
            final(self).limits() == old(self).limits(),
            final(self)@ == pushed(old(self).limits(), old(self)@, chunk@),
    {
        let ghost l = self.limits;
        let ghost v0 = self@;
        let ghost all = v0.bytes + byte_len(chunk@);
        let total: usize = str_len(chunk);
        self.total_bytes += total;
        let ghost v1 = self@;
        proof {
            lemma_run_bytes(l, v0, chunk@, all);
            assert(v1 =~= (SinkView { bytes: all, ..v0 }));
        }
        let mut rest = chunk;
        while !rest.is_empty()
            invariant
                self.parts_wf(),
                self.limits == l,
                self.pending_width <= l.max_columns,
                self@.bytes == all,
                all <= usize::MAX,
                self@.lines + (if self@.line.len() > 0 || self@.capped {
                    1nat
                } else {
                    0nat
                }) + byte_len(rest@) <= all,
                self@.column_dropped + byte_len(rest@) <= all,
                run(l, v1, chunk@) == run(l, self@, rest@),
            decreases rest@.len(),
        {
            let ghost v = self@;
            let (line, tail) = next_line(rest);
            proof {
                lemma_first_line(rest@);
                lemma_line_bytes(line@);
            }
            let (frag, terminated) = split_newline(line);
            proof {
                lemma_line_bytes(frag@);
            }
            self.feed(frag);
            proof {
                lemma_fed(l, v, frag@);
            }
            if terminated {
                self.close_current_line(true);
            } else {
                assert(tail@.len() == 0);
                assert(frag@ =~= rest@);
            }
            rest = tail;
        }
        assert(self@ =~= pushed(l, v0, chunk@));
    }

    /// Ends the stream.
    #[must_use]
    pub fn finish(self) -> (r: Truncated)
        requires
            self.wf(),
        ensures
            r@ == finished(self.limits(), self@),
    {
        let mut sink = self;
        let ghost l = sink.limits;
        let ghost v = sink@;
        if !sink.pending_line.as_str().is_empty() || sink.pending_capped {
            sink.close_current_line(false);
        }
        let ghost s = sink@;
        assert(s == settled(l, v));
        let effective: usize = if sink.total_bytes > sink.column_dropped_bytes {
            sink.total_bytes - sink.column_dropped_bytes
        } else {
            0
        };
        let kept_lines: usize = sink.head_lines + sink.tail_lines.len();
        let kept_bytes: usize = str_len(sink.head_text.as_str()) + sink.tail_bytes;
        let dropped_lines: usize = if sink.total_lines > kept_lines {
            sink.total_lines - kept_lines
        } else {
            0
        };
        let dropped_bytes: usize = if effective > kept_bytes {
            effective - kept_bytes
        } else {
            0
        };
        let mut text = sink.head_text.clone();
        if dropped_lines > 0 || dropped_bytes > 0 {
            push_omission(&mut text, dropped_lines, dropped_bytes);
        }
        let ghost front = text@;
        let mut i: usize = 0;
        while i < sink.tail_lines.len()
            invariant
                i <= sink.tail_lines@.len(),
                s.tail == texts(sink.tail_lines@),
                text@ == front + flat(s.tail.take(i as int)),
            decreases sink.tail_lines@.len() - i,
        {
            proof {
                assert(s.tail.take(i + 1) =~= s.tail.take(i as int).push(s.tail[i as int]));
                lemma_flat_push(s.tail.take(i as int), s.tail[i as int]);
            }
            text.append(sink.tail_lines[i].as_str());
            i += 1;
            assert(text@ =~= front + flat(s.tail.take(i as int)));
        }
        proof {
            assert(s.tail.take(s.tail.len() as int) =~= s.tail);
            assert(text@ =~= finished(l, v).text);
        }
        Truncated { text, dropped_lines, dropped_bytes, first_line_exceeds_limit: false }
    }
}

/// A line has at least as many bytes as characters.
proof fn lemma_line_bytes(line: Seq<char>)
    ensures
        line.len() <= byte_len(line),
        line.len() > 0 && line.last() == '\n' ==> byte_len(line) == byte_len(line.drop_last()) + 1,
{
    lemma_offset_monotone(line, 0, line.len() as int);
    assert(line.take(0) =~= Seq::<char>::empty());
    assert(line.take(line.len() as int) =~= line);
    if line.len() > 0 {
        assert(line =~= line.drop_last().push(line.last()));
        lemma_encode_push(line.drop_last(), line.last());
    }
}

/// What is shown of a piece that does not fit is shorter than the piece.
proof fn lemma_shown(frag: Seq<char>, budget: nat)
    requires
        columns(frag) > budget,
    ensures
        ({
            let shown = truncated_to_width(frag, budget, Seq::empty());
            &&& byte_len(shown) < byte_len(frag)
            &&& shown.len() < frag.len()
            &&& shown == frag.take(shown.len() as int)
        }),
{
    let shown = truncated_to_width(frag, budget, Seq::empty());
    lemma_fitting(Scan::Text, frag, budget);
    if budget == 0 {
        assert(frag.take(0) =~= shown);
    } else {
        assert(fitting(frag, budget) + Seq::<char>::empty() =~= fitting(frag, budget));
    }
    lemma_offset_monotone(frag, shown.len() as int, frag.len() as int);
    assert(frag.take(frag.len() as int) =~= frag);
}

/// What a piece adds to the counters is covered by its bytes.
proof fn lemma_fed(l: TruncateLimits, v: SinkView, frag: Seq<char>)
    ensures
        fed(l, v, frag).column_dropped <= v.column_dropped + byte_len(frag),
        fed(l, v, frag).lines == v.lines,
        fed(l, v, frag).bytes == v.bytes,
        frag.len() == 0 && l.max_columns > 0 && !v.capped ==> fed(l, v, frag) == v,
{
    if !v.capped && l.max_columns > 0 && columns(frag) > room(l, v) {
        lemma_shown(frag, room(l, v));
    }
    assert(v.line + Seq::<char>::empty() =~= v.line);
    if frag.len() == 0 && l.max_columns > 0 && !v.capped {
        assert(frag =~= Seq::<char>::empty());
        assert(fed(l, v, frag) =~= v);
    }
}

/// The bytes counted beforehand have no part in what a chunk does.
proof fn lemma_run_bytes(l: TruncateLimits, v: SinkView, chunk: Seq<char>, bytes: nat)
    ensures
        run(l, SinkView { bytes, ..v }, chunk) == (SinkView { bytes, ..run(l, v, chunk) }),
    decreases chunk.len(),
{
    let w = SinkView { bytes, ..v };
    lemma_first_line(chunk);
    if chunk.len() > 0 {
        let line = first_line(chunk);
        if line.last() == '\n' {
            let a = fed(l, v, line.drop_last());
            let b = fed(l, w, line.drop_last());
            assert(b =~= (SinkView { bytes, ..a }));
            let c = closed(l, a, true);
            let d = closed(l, b, true);
            assert(d =~= (SinkView { bytes, ..c }));
            lemma_run_bytes(l, c, after_line(chunk), bytes);
        } else {
            assert(fed(l, w, chunk) =~= (SinkView { bytes, ..fed(l, v, chunk) }));
        }
    } else {
        assert(w =~= (SinkView { bytes, ..run(l, v, chunk) }));
    }
}

/// The pieces `f` and `g` of one line may arrive apart: the seam does not fall into an escape
/// sequence, and where the line is full just there, what follows takes a column.
pub open spec fn clean_seam(l: TruncateLimits, v: SinkView, f: Seq<char>, g: Seq<char>) -> bool {
    ||| v.capped
    ||| l.max_columns == 0
    ||| columns(f) > room(l, v)
    ||| scan_after(Scan::Text, f) == Scan::Text && (columns(g) + columns(f) > room(l, v) ==> if room(
        l,
        v,
    ) == 0 {
        f.len() == 0
    } else {
        columns(f) == room(l, v) ==> scan_columns(Scan::Text, g[0]) > 0
    })
}

/// The part of `chunk` that belongs to the line under way, without the line break.
pub open spec fn first_piece(chunk: Seq<char>) -> Seq<char> {
    let line = first_line(chunk);
    if line.len() > 0 && line.last() == '\n' {
        line.drop_last()
    } else {
        line
    }
}

/// `a` and `b` may arrive apart: the seam within the line that `a` leaves open is clean.
pub open spec fn clean_cut(l: TruncateLimits, v: SinkView, a: Seq<char>, b: Seq<char>) -> bool
    decreases a.len(),
{
    if a.len() == 0 || b.len() == 0 {
        true
    } else {
        proof {
            lemma_first_line(a);
        }
        if first_line(a).last() == '\n' {
            clean_cut(l, closed(l, fed(l, v, first_line(a).drop_last()), true), after_line(a), b)
        } else {
            clean_seam(l, v, a, first_piece(b))
        }
    }
}

proof fn lemma_fed_twice(l: TruncateLimits, v: SinkView, f: Seq<char>, g: Seq<char>)
    requires
        clean_seam(l, v, f, g),
    ensures
        fed(l, fed(l, v, f), g) == fed(l, v, f + g),
{
    let a = fed(l, v, f);
    let whole = fed(l, v, f + g);
    lemma_encode_concat(f, g);
    if v.capped || l.max_columns == 0 {
        assert(fed(l, a, g) =~= whole);
    } else {
        let r = room(l, v);
        lemma_concat(Scan::Text, f, g, r);
        if columns(f) > r {
            lemma_shown(f, r);
            let shown = truncated_to_width(f, r, Seq::empty());
            assert(truncated_to_width(f + g, r, Seq::empty()) =~= shown);
            assert(fed(l, a, g) =~= whole);
        } else {
            let r2 = room(l, a);
            assert(r2 == r - columns(f));
            assert(v.line + (f + g) =~= (v.line + f) + g);
            if columns(g) > r2 {
                lemma_shown(g, r2);
                let shown = truncated_to_width(g, r2, Seq::empty());
                let all = truncated_to_width(f + g, r, Seq::empty());
                if r == 0 {
                    assert(all =~= f + shown);
                } else {
                    if r2 == 0 {
                        assert(fitting(g, 0) =~= Seq::<char>::empty());
                    }
                    assert(fitting(g, r2) + Seq::<char>::empty() =~= fitting(g, r2));
                    assert(shown =~= fitting(g, r2));
                    assert(all =~= f + shown);
                }
                lemma_encode_concat(f, shown);
                assert((v.line + f) + shown =~= v.line + all);
                assert(fed(l, a, g) =~= whole);
            } else {
                assert(fed(l, a, g) =~= whole);
            }
        }
    }
}

/// What arrives in two chunks, cut at a clean seam, leaves the same state as in one.
pub proof fn lemma_two_chunks(l: TruncateLimits, v: SinkView, a: Seq<char>, b: Seq<char>)
    requires
        clean_cut(l, v, a, b),
    ensures
        pushed(l, pushed(l, v, a), b) == pushed(l, v, a + b),
{
    lemma_two_runs(l, v, a, b);
    lemma_encode_concat(a, b);
    let bytes = v.bytes + byte_len(a);
    lemma_run_bytes(l, run(l, v, a), b, bytes);
    assert(pushed(l, v, a) =~= (SinkView { bytes, ..run(l, v, a) }));
    assert(pushed(l, pushed(l, v, a), b) =~= pushed(l, v, a + b));
}

proof fn lemma_two_runs(l: TruncateLimits, v: SinkView, a: Seq<char>, b: Seq<char>)
    requires
        clean_cut(l, v, a, b),
    ensures
        run(l, run(l, v, a), b) == run(l, v, a + b),
    decreases a.len(),
{
    let s = a + b;
    lemma_first_line(a);
    lemma_first_line(b);
    lemma_first_line(s);
    if a.len() == 0 {
        assert(s =~= b);
    } else if b.len() == 0 {
        assert(s =~= a);
    } else if first_line(a).last() == '\n' {
        let n = first_line_len(a) as int;
        lemma_first_line_unique(s, n);
        assert(first_line(s) =~= first_line(a));
        assert(after_line(s) =~= after_line(a) + b);
        lemma_two_runs(
            l,
            closed(l, fed(l, v, first_line(a).drop_last()), true),
            after_line(a),
            b,
        );
    } else {
        assert(first_line(a) =~= a);
        let n = first_line_len(b) as int;
        let g = first_piece(b);
        assert forall|i: int| 0 <= i < a.len() + n - 1 implies s[i] != '\n' by {
            if i >= a.len() {
                assert(s[i] == b[i - a.len()]);
            }
        }
        if n < b.len() {
            assert(s[a.len() + n - 1] == b[n - 1]);
        }
        lemma_first_line_unique(s, a.len() + n);
        assert(first_line(s) =~= a + first_line(b));
        assert(after_line(s) =~= after_line(b));
        lemma_fed_twice(l, v, a, g);
        if first_line(b).last() == '\n' {
            assert(first_line(s).drop_last() =~= a + g);
        } else {
            assert(s =~= a + g);
        }
    }
}

/// The first line ends behind the first line break, or where the text ends.
proof fn lemma_first_line_unique(s: Seq<char>, n: int)
    requires
        0 < n <= s.len(),
        forall|i: int| 0 <= i < n - 1 ==> s[i] != '\n',
        n < s.len() ==> s[n - 1] == '\n',
    ensures
        first_line_len(s) == n,
{
    lemma_first_line(s);
    let m = first_line_len(s) as int;
    if m < n {
        assert(s[m - 1] == '\n');
    }
    if n < m {
        assert(s[n - 1] == '\n');
    }
}

/// A character that takes a column, or a line break.
pub open spec fn takes_column(c: char) -> bool {
    c == '\n' || c != '\u{1b}' && char_columns(c) > 0
}

/// Text in which every character but a line break takes a column.
pub open spec fn plain(s: Seq<char>) -> bool {
    forall|i: int| 0 <= i < s.len() ==> takes_column(#[trigger] s[i])
}

proof fn lemma_plain_scan(s: Seq<char>)
    requires
        forall|i: int| 0 <= i < s.len() ==> s[i] != '\u{1b}',
    ensures
        scan_after(Scan::Text, s) == Scan::Text,
    decreases s.len(),
{
    if s.len() > 0 {
        lemma_plain_scan(s.drop_first());
    }
}

proof fn lemma_plain_cut(l: TruncateLimits, v: SinkView, a: Seq<char>, b: Seq<char>)
    requires
        plain(a),
        plain(b),
    ensures
        clean_cut(l, v, a, b),
    decreases a.len(),
{
    lemma_first_line(a);
    lemma_first_line(b);
    if a.len() > 0 && b.len() > 0 {
        if first_line(a).last() == '\n' {
            let rest = after_line(a);
            assert forall|i: int| 0 <= i < rest.len() implies takes_column(#[trigger] rest[i]) by {
                assert(rest[i] == a[i + first_line_len(a)]);
            }
            lemma_plain_cut(
                l,
                closed(l, fed(l, v, first_line(a).drop_last()), true),
                rest,
                b,
            );
        } else {
            let g = first_piece(b);
            lemma_plain_scan(a);
            assert(a.len() == first_line_len(a));
            assert(a[0] != '\n') by {
                assert(first_line(a).last() == a[a.len() - 1]);
            }
            assert(columns(a) > 0);
            if g.len() > 0 {
                assert(g[0] == b[0]);
                assert(g[0] != '\n') by {
                    if first_line(b).last() == '\n' {
                        assert(first_line_len(b) > 1);
                    }
                }
            }
        }
    }
}

/// The state after the given chunks, one behind the other.
pub open spec fn pushed_all(l: TruncateLimits, v: SinkView, chunks: Seq<Seq<char>>) -> SinkView
    decreases chunks.len(),
{
    if chunks.len() == 0 {
        v
    } else {
        pushed_all(l, pushed(l, v, chunks[0]), chunks.drop_first())
    }
}

/// How a plain text is cut into chunks makes no difference.
pub proof fn lemma_chunking_is_irrelevant(
    l: TruncateLimits,
    v: SinkView,
    chunks: Seq<Seq<char>>,
)
    requires
        plain(flat(chunks)),
    ensures
        pushed_all(l, v, chunks) == pushed(l, v, flat(chunks)),
    decreases chunks.len(),
{
    if chunks.len() == 0 {
        assert(pushed(l, v, flat(chunks)) =~= v);
    } else {
        let a = chunks[0];
        let b = flat(chunks.drop_first());
        let s = flat(chunks);
        assert forall|i: int| 0 <= i < a.len() implies takes_column(#[trigger] a[i]) by {
            assert(s[i] == a[i]);
        }
        assert forall|i: int| 0 <= i < b.len() implies takes_column(#[trigger] b[i]) by {
            assert(s[a.len() + i] == b[i]);
        }
        lemma_chunking_is_irrelevant(l, pushed(l, v, a), chunks.drop_first());
        lemma_plain_cut(l, v, a, b);
        lemma_two_chunks(l, v, a, b);
    }
}

/// How a text of printable ASCII and line breaks is cut into chunks makes no difference.
pub proof fn lemma_chunking_of_ascii_is_irrelevant(
    l: TruncateLimits,
    v: SinkView,
    chunks: Seq<Seq<char>>,
)
    requires
        forall|i: int|
            0 <= i < flat(chunks).len() ==> (#[trigger] flat(chunks)[i]) == '\n' || ' ' <= flat(
                chunks,
            )[i] && flat(chunks)[i] <= '~',
    ensures
        pushed_all(l, v, chunks) == pushed(l, v, flat(chunks)),
{
    assert forall|i: int| 0 <= i < flat(chunks).len() implies takes_column(
        #[trigger] flat(chunks)[i],
    ) by {}
    lemma_chunking_is_irrelevant(l, v, chunks);
}

/// Whether the windows of a state are within the limits: half of them for the head, what is left of
/// them for the tail.
pub open spec fn is_bounded(l: TruncateLimits, v: SinkView) -> bool {
    &&& byte_len(v.head) <= l.max_bytes as nat / 2
    &&& v.head_lines <= l.max_lines as nat / 2
    &&& byte_len(flat(v.tail)) <= l.max_bytes - l.max_bytes as nat / 2
    &&& v.tail.len() <= l.max_lines - l.max_lines as nat / 2
}

proof fn lemma_evicted_is_bounded(tail: Seq<Seq<char>>, max_lines: nat, max_bytes: nat)
    requires
        max_lines > 0,
    ensures
        evicted(tail, max_lines, max_bytes).len() <= max_lines,
        byte_len(flat(evicted(tail, max_lines, max_bytes))) <= max_bytes,
    decreases tail.len(),
{
    if tail.len() <= max_lines && byte_len(flat(tail)) <= max_bytes {
    } else if tail.len() > 1 {
        lemma_evicted_is_bounded(tail.drop_first(), max_lines, max_bytes);
    } else {
        let end = suffix_within(tail[0], max_bytes);
        lemma_within(tail[0], max_bytes);
        if end.len() == 0 {
            lemma_encode_concat(Seq::<char>::empty(), Seq::<char>::empty());
            assert(flat(Seq::<Seq<char>>::empty()) =~= Seq::<char>::empty());
        } else {
            let none = Seq::<Seq<char>>::empty();
            lemma_flat_push(none, end);
            assert(none.push(end) =~= seq![end]);
            assert(flat(none) + end =~= end);
        }
    }
}

proof fn lemma_routed_is_bounded(l: TruncateLimits, v: SinkView, line: Seq<char>)
    requires
        is_bounded(l, v),
    ensures
        is_bounded(l, routed(l, v, line)),
{
    let tail_bytes = (l.max_bytes - l.max_bytes as nat / 2) as nat;
    let tail_lines = (l.max_lines - l.max_lines as nat / 2) as nat;
    lemma_encode_concat(v.head, line);
    if tail_lines > 0 {
        lemma_evicted_is_bounded(v.tail.push(line), tail_lines, tail_bytes);
    }
}

proof fn lemma_run_is_bounded(l: TruncateLimits, v: SinkView, chunk: Seq<char>)
    requires
        is_bounded(l, v),
    ensures
        is_bounded(l, run(l, v, chunk)),
    decreases chunk.len(),
{
    lemma_first_line(chunk);
    if chunk.len() > 0 && first_line(chunk).last() == '\n' {
        let fed_line = fed(l, v, first_line(chunk).drop_last());
        let ended = SinkView {
            line: Seq::empty(),
            width: 0,
            capped: false,
            lines: fed_line.lines + 1,
            ..fed_line
        };
        lemma_routed_is_bounded(l, ended, fed_line.line.push('\n'));
        lemma_run_is_bounded(l, closed(l, fed_line, true), after_line(chunk));
    }
}

proof fn lemma_chunks_are_bounded(l: TruncateLimits, v: SinkView, chunks: Seq<Seq<char>>)
    requires
        is_bounded(l, v),
    ensures
        is_bounded(l, pushed_all(l, v, chunks)),
        is_bounded(l, settled(l, pushed_all(l, v, chunks))),
    decreases chunks.len(),
{
    if chunks.len() == 0 {
        let ended = SinkView {
            line: Seq::empty(),
            width: 0,
            capped: false,
            lines: v.lines + 1,
            ..v
        };
        lemma_routed_is_bounded(l, ended, v.line);
    } else {
        lemma_run_is_bounded(l, v, chunks[0]);
        lemma_chunks_are_bounded(l, pushed(l, v, chunks[0]), chunks.drop_first());
    }
}

/// However much arrives, and in whatever chunks, what is kept stays within the limits, to the end.
pub proof fn lemma_windows_are_bounded(l: TruncateLimits, chunks: Seq<Seq<char>>)
    ensures
        is_bounded(l, pushed_all(l, empty_sink(), chunks)),
        is_bounded(l, settled(l, pushed_all(l, empty_sink(), chunks))),
{
    lemma_encode_concat(Seq::<char>::empty(), Seq::<char>::empty());
    assert(flat(Seq::<Seq<char>>::empty()) =~= Seq::<char>::empty());
    lemma_chunks_are_bounded(l, empty_sink(), chunks);
}

} // verus!
