//! Frames on a stream of bytes: one JSON value on each line.

use vstd::prelude::*;
use vstd::slice::slice_subrange;

use crate::strings::{dec, find_byte, push_dec};

verus! {

broadcast use vstd::seq::group_seq_axioms;

/// How many bytes a frame may have.
pub const MAX_FRAME_BYTES: usize = 268_435_456;

/// The capacity up to which a buffer is left as it is.
pub const SHRINK_CAPACITY_THRESHOLD: usize = 262_144;

/// The capacity that a buffer is brought back to.
pub const SHRINK_RETAIN_CAPACITY: usize = 65_536;

/// Why no frame can be had from a stream.
#[derive(Debug, Clone, Copy, PartialEq, Eq, Structural)]
pub enum FrameError {
    /// A frame has more bytes than it may have. The connection has to be closed.
    TooLarge { len: usize, limit: usize },
}

/// An error in words.
pub open spec fn frame_error_text(e: FrameError) -> Seq<char> {
    match e {
        FrameError::TooLarge { len, limit } => "帧长度已达 "@ + dec(len as nat)
            + " 字节，超过上限 "@ + dec(limit as nat),
    }
}

impl FrameError {
    /// The error in words.
    pub fn to_string(&self) -> (r: String)
        ensures
            r@ == frame_error_text(*self),
    {
        match self {
            FrameError::TooLarge { len, limit } => {
                let mut r = "帧长度已达 ".to_owned();
                push_dec(&mut r, *len as u64);
                r.append(" 字节，超过上限 ");
                push_dec(&mut r, *limit as u64);
                r
            },
        }
    }
}

/// The byte that ends a frame.
pub const NEWLINE: u8 = 10;

/// A frame as it stands on a stream.
pub open spec fn encoded(json: Seq<u8>) -> Seq<u8> {
    json.push(NEWLINE)
}

/// Adds a frame to `out`. `json` is a JSON value on one line.
pub fn encode(json: &[u8], out: &mut Vec<u8>)
    ensures
        final(out)@ == old(out)@ + encoded(json@),
{
    out.extend_from_slice(json);
    out.push(NEWLINE);
    assert(out@ =~= old(out)@ + encoded(json@));
}

/// Whether a byte is white space.
pub open spec fn is_blank_byte(b: u8) -> bool {
    b == 32 || b == 9 || b == 10 || b == 12 || b == 13
}

/// Whether a line is white space.
pub open spec fn is_blank(line: Seq<u8>) -> bool {
    forall|i: int| 0 <= i < line.len() ==> is_blank_byte(#[trigger] line[i])
}

/// Where the first line ends.
pub open spec fn line_end(buf: Seq<u8>, from: int) -> Option<int>
    decreases buf.len() - from,
{
    if from < 0 || from >= buf.len() {
        None
    } else if buf[from] == NEWLINE {
        Some(from)
    } else {
        line_end(buf, from + 1)
    }
}

/// What can be had from a stream.
#[verifier::ext_equal]
pub enum Taken {
    /// The next line that is not blank, and what is behind it.
    Line { line: Seq<u8>, rest: Seq<u8> },
    /// No whole line, and what is left without the blank ones.
    Nothing { rest: Seq<u8> },
    /// A line that is too long: how long it is so far, and what is left.
    TooLarge { len: nat, rest: Seq<u8> },
}

/// What can be had from a stream, where a line may have `max` bytes.
pub open spec fn taken(buf: Seq<u8>, max: nat) -> Taken
    decreases buf.len(),
{
    match line_end(buf, 0) {
        None => if buf.len() > max {
            Taken::TooLarge { len: buf.len(), rest: buf }
        } else {
            Taken::Nothing { rest: buf }
        },
        Some(e) => if e > max {
            Taken::TooLarge { len: e as nat, rest: buf }
        } else if 0 <= e < buf.len() {
            if is_blank(buf.take(e)) {
                taken(buf.skip(e + 1), max)
            } else {
                Taken::Line { line: buf.take(e), rest: buf.skip(e + 1) }
            }
        } else {
            Taken::Nothing { rest: buf }
        },
    }
}

proof fn lemma_line_end(buf: Seq<u8>, from: int)
    requires
        0 <= from <= buf.len(),
    ensures
        match line_end(buf, from) {
            Some(e) => from <= e < buf.len() && buf[e] == NEWLINE && forall|i: int|
                from <= i < e ==> buf[i] != NEWLINE,
            None => forall|i: int| from <= i < buf.len() ==> buf[i] != NEWLINE,
        },
    decreases buf.len() - from,
{
    if from < buf.len() && buf[from] != NEWLINE {
        lemma_line_end(buf, from + 1);
    }
}

proof fn lemma_line_end_is(buf: Seq<u8>, from: int, e: int)
    requires
        0 <= from <= e < buf.len(),
        buf[e] == NEWLINE,
        forall|i: int| from <= i < e ==> buf[i] != NEWLINE,
    ensures
        line_end(buf, from) == Some(e),
    decreases e - from,
{
    if from < e {
        lemma_line_end_is(buf, from + 1, e);
    }
}

/// `Vec::capacity` of std: never less than the length. How much more it is, the allocator decides.
#[verifier::external_body]
fn capacity_of(v: &Vec<u8>) -> (r: usize)
    ensures
        r >= v@.len(),
{
    v.capacity()
}

/// `Vec::shrink_to` of std: the elements stay. What becomes of the capacity, the allocator decides.
#[verifier::external_body]
fn shrink(v: &mut Vec<u8>, min_capacity: usize)
    ensures
        final(v)@ == old(v)@,
{
    v.shrink_to(min_capacity);
}

/// Takes frames from bytes as they come.
#[derive(Debug)]
pub struct FrameDecoder {
    buf: Vec<u8>,
    /// What comes before this was searched already and holds no line break.
    scan_from: usize,
    max_frame: usize,
}

impl FrameDecoder {
    /// The bytes that are waiting.
    pub closed spec fn waiting(&self) -> Seq<u8> {
        self.buf@
    }

    /// How many bytes a frame may have.
    pub closed spec fn limit(&self) -> nat {
        self.max_frame as nat
    }

    /// Whether what was searched holds no line break.
    pub closed spec fn wf(&self) -> bool {
        &&& self.scan_from <= self.buf@.len()
        &&& forall|i: int| 0 <= i < self.scan_from ==> self.buf@[i] != NEWLINE
    }

    /// A decoder for frames of any size that is allowed.
    pub fn new() -> (r: Self)
        ensures
            r.wf(),
            r.waiting() == Seq::<u8>::empty(),
            r.limit() == MAX_FRAME_BYTES,
    {
        FrameDecoder::with_max_frame(MAX_FRAME_BYTES)
    }

    /// A decoder for frames of at most `max_frame` bytes.
    pub fn with_max_frame(max_frame: usize) -> (r: Self)
        ensures
            r.wf(),
            r.waiting() == Seq::<u8>::empty(),
            r.limit() == max_frame,
    {
        FrameDecoder { buf: Vec::new(), scan_from: 0, max_frame }
    }

    /// Takes in bytes.
    pub fn push(&mut self, chunk: &[u8])
        requires
            old(self).wf(),
        ensures
            final(self).wf(),
            final(self).waiting() == old(self).waiting() + chunk@,
            final(self).limit() == old(self).limit(),
    {
        self.buf.extend_from_slice(chunk);
        assert(self.buf@ =~= old(self).buf@ + chunk@);
    }

    /// How many bytes are waiting.
    pub fn buffered(&self) -> (r: usize)
        ensures
            r == self.waiting().len(),
    {
        self.buf.len()
    }

    /// How many bytes there is room for. It is at least as much as there are.
    pub fn capacity(&self) -> (r: usize)
        ensures
            r >= self.waiting().len(),
    {
        capacity_of(&self.buf)
    }

    /// Takes the next frame, if it has come whole. Blank lines are passed over.
    pub fn decode(&mut self) -> (r: Result<Option<Vec<u8>>, FrameError>)
        requires
            old(self).wf(),
        ensures
            final(self).wf(),
            final(self).limit() == old(self).limit(),
            match taken(old(self).waiting(), old(self).limit()) {
                Taken::Line { line, rest } => {
                    &&& r matches Ok(Some(l)) && l@ == line
                    &&& final(self).waiting() == rest
                },
                Taken::Nothing { rest } => {
                    &&& r matches Ok(None)
                    &&& final(self).waiting() == rest
                },
                Taken::TooLarge { len, rest } => {
                    &&& r matches Err(FrameError::TooLarge { len: n, limit }) && n == len && limit
                        == old(self).limit()
                    &&& final(self).waiting() == rest
                },
            },
    {
        loop
            invariant
                self.wf(),
                self.limit() == old(self).limit(),
                taken(self.waiting(), self.limit()) == taken(
                    old(self).waiting(),
                    old(self).limit(),
                ),
            decreases self.waiting().len(),
        {
            let end: usize = match self.find_newline() {
                Err(e) => {
                    return Err(e);
                },
                Ok(None) => {
                    return Ok(None);
                },
                Ok(Some(end)) => end,
            };
            let ghost before = self.waiting();
            proof {
                lemma_line_end(before, 0);
            }
            let total: usize = self.buf.len();
            assert(end < total);
            let line = self.line(end);
            let blank = blank_line(line.as_slice());
            self.consume(end + 1);
            if !blank {
                return Ok(Some(line));
            }
        }
    }

    /// Copies the first `end` bytes.
    fn line(&self, end: usize) -> (r: Vec<u8>)
        requires
            end <= self.waiting().len(),
        ensures
            r@ == self.waiting().take(end as int),
    {
        let mut r: Vec<u8> = Vec::new();
        r.extend_from_slice(slice_subrange(self.buf.as_slice(), 0, end));
        assert(r@ =~= self.buf@.take(end as int));
        r
    }

    /// Where the first line ends. The limit holds for a line that is whole and for one that is not.
    fn find_newline(&mut self) -> (r: Result<Option<usize>, FrameError>)
        requires
            old(self).wf(),
        ensures
            final(self).wf(),
            final(self).waiting() == old(self).waiting(),
            final(self).limit() == old(self).limit(),
            match line_end(old(self).waiting(), 0) {
                Some(e) => if e > old(self).limit() {
                    r matches Err(FrameError::TooLarge { len, limit }) && len == e && limit == old(
                        self,
                    ).limit()
                } else {
                    r matches Ok(Some(n)) && n == e
                },
                None => if old(self).waiting().len() > old(self).limit() {
                    r matches Err(FrameError::TooLarge { len, limit }) && len == old(
                        self,
                    ).waiting().len() && limit == old(self).limit()
                } else {
                    r matches Ok(None)
                },
            },
    {
        let tail = slice_subrange(self.buf.as_slice(), self.scan_from, self.buf.len());
        proof {
            lemma_line_end(self.buf@, 0);
        }
        match find_byte(NEWLINE, tail) {
            Some(offset) => {
                let end: usize = self.scan_from + offset;
                proof {
                    assert forall|i: int| 0 <= i < end implies self.buf@[i] != NEWLINE by {
                        if i >= self.scan_from {
                            assert(tail@[i - self.scan_from] == self.buf@[i]);
                        }
                    }
                    assert(tail@[offset as int] == self.buf@[end as int]);
                    lemma_line_end_is(self.buf@, 0, end as int);
                }
                if end > self.max_frame {
                    return Err(FrameError::TooLarge { len: end, limit: self.max_frame });
                }
                Ok(Some(end))
            },
            None => {
                proof {
                    assert forall|i: int| 0 <= i < self.buf@.len() implies self.buf@[i]
                        != NEWLINE by {
                        if i >= self.scan_from {
                            assert(tail@[i - self.scan_from] == self.buf@[i]);
                        }
                    }
                }
                self.scan_from = self.buf.len();
                if self.buf.len() > self.max_frame {
                    return Err(FrameError::TooLarge { len: self.buf.len(), limit: self.max_frame });
                }
                Ok(None)
            },
        }
    }

    /// Drops the first `upto` bytes, and room that is no longer needed.
    fn consume(&mut self, upto: usize)
        requires
            upto <= old(self).waiting().len(),
        ensures
            final(self).wf(),
            final(self).waiting() == old(self).waiting().skip(upto as int),
            final(self).limit() == old(self).limit(),
    {
        let mut rest = self.buf.split_off(upto);
        self.buf.clear();
        self.buf.append(&mut rest);
        assert(self.buf@ =~= old(self).buf@.skip(upto as int));
        self.scan_from = 0;
        if capacity_of(&self.buf) > SHRINK_CAPACITY_THRESHOLD && self.buf.len()
            < SHRINK_RETAIN_CAPACITY {
            shrink(&mut self.buf, SHRINK_RETAIN_CAPACITY);
        }
    }
}

impl Default for FrameDecoder {
    fn default() -> (r: Self)
        ensures
            r.wf(),
            r.waiting() == Seq::<u8>::empty(),
            r.limit() == MAX_FRAME_BYTES,
    {
        FrameDecoder::new()
    }
}

/// Whether a line is white space.
fn blank_line(line: &[u8]) -> (r: bool)
    ensures
        r == is_blank(line@),
{
    let mut i: usize = 0;
    while i < line.len()
        invariant
            i <= line@.len(),
            forall|j: int| 0 <= j < i ==> is_blank_byte(#[trigger] line@[j]),
        decreases line@.len() - i,
    {
        let b = line[i];
        if !(b == 32 || b == 9 || b == 10 || b == 12 || b == 13) {
            assert(!is_blank_byte(line@[i as int]));
            return false;
        }
        i += 1;
    }
    true
}

proof fn lemma_line_end_grows(a: Seq<u8>, b: Seq<u8>, from: int)
    requires
        0 <= from <= a.len(),
        line_end(a, from) is Some,
    ensures
        line_end(a + b, from) == line_end(a, from),
    decreases a.len() - from,
{
    if from < a.len() {
        assert((a + b)[from] == a[from]);
        if a[from] != NEWLINE {
            lemma_line_end_grows(a, b, from + 1);
        }
    }
}

/// It does not matter in which pieces the bytes come: where nothing could be had from the first
/// piece, what is had later is what would have been had from all of it at once.
pub proof fn lemma_pieces_do_not_matter(a: Seq<u8>, b: Seq<u8>, max: nat)
    requires
        taken(a, max) is Nothing,
    ensures
        taken(a, max) matches Taken::Nothing { rest } && taken(rest + b, max) == taken(a + b, max),
    decreases a.len(),
{
    lemma_line_end(a, 0);
    if let Some(e) = line_end(a, 0) {
        lemma_line_end_grows(a, b, 0);
        assert((a + b).take(e) =~= a.take(e));
        assert((a + b).skip(e + 1) =~= a.skip(e + 1) + b);
        lemma_pieces_do_not_matter(a.skip(e + 1), b, max);
    }
}

/// A frame that was written is read again, whatever comes behind it. A JSON value on one line has
/// no line break in it, and something that is not white space.
pub proof fn lemma_frame_round_trip(json: Seq<u8>, behind: Seq<u8>, max: nat)
    requires
        json.len() <= max,
        forall|i: int| 0 <= i < json.len() ==> json[i] != NEWLINE,
        !is_blank(json),
    ensures
        taken(encoded(json) + behind, max) == (Taken::Line { line: json, rest: behind }),
{
    let buf = encoded(json) + behind;
    assert(buf[json.len() as int] == NEWLINE);
    assert forall|i: int| 0 <= i < json.len() implies buf[i] != NEWLINE by {
        assert(buf[i] == json[i]);
    }
    lemma_line_end_is(buf, 0, json.len() as int);
    assert(buf.take(json.len() as int) =~= json);
    assert(buf.skip((json.len() + 1) as int) =~= behind);
}

/// No frame that is had from a stream is longer than allowed, and none holds a line break.
pub proof fn lemma_taken_within_limit(buf: Seq<u8>, max: nat)
    ensures
        taken(buf, max) matches Taken::Line { line, rest } ==> line.len() <= max && (forall|i: int|
            0 <= i < line.len() ==> line[i] != NEWLINE) && !is_blank(line) && rest.len() + line.len()
            < buf.len(),
    decreases buf.len(),
{
    lemma_line_end(buf, 0);
    if let Some(e) = line_end(buf, 0) {
        if is_blank(buf.take(e)) {
            lemma_taken_within_limit(buf.skip(e + 1), max);
        }
    }
}

// Many frames

/// Frames as they stand on a stream, one behind the other.
pub open spec fn wire_of(frames: Seq<Seq<u8>>) -> Seq<u8>
    decreases frames.len(),
{
    if frames.len() == 0 {
        Seq::empty()
    } else {
        encoded(frames[0]) + wire_of(frames.drop_first())
    }
}

/// Whether a frame can be had from a stream: it has no line break in it, something that is not white
/// space, and is not too long.
pub open spec fn is_frame(json: Seq<u8>, max: nat) -> bool {
    &&& json.len() <= max
    &&& forall|i: int| 0 <= i < json.len() ==> json[i] != NEWLINE
    &&& !is_blank(json)
}

/// What came of a stream.
#[verifier::ext_equal]
pub struct Drained {
    /// The frames that were had.
    pub frames: Seq<Seq<u8>>,
    /// What is waiting.
    pub rest: Seq<u8>,
    /// Whether a line was too long.
    pub failed: bool,
}

/// What comes of asking for frames until there is none.
pub open spec fn drained(buf: Seq<u8>, max: nat) -> Drained
    decreases buf.len(),
{
    match taken(buf, max) {
        Taken::Line { line, rest } => if rest.len() < buf.len() {
            let d = drained(rest, max);
            Drained { frames: seq![line] + d.frames, ..d }
        } else {
            Drained { frames: seq![line], rest, failed: false }
        },
        Taken::Nothing { rest } => Drained { frames: Seq::empty(), rest, failed: false },
        Taken::TooLarge { len, rest } => Drained { frames: Seq::empty(), rest, failed: true },
    }
}

/// Pieces in one.
pub open spec fn joined(chunks: Seq<Seq<u8>>) -> Seq<u8>
    decreases chunks.len(),
{
    if chunks.len() == 0 {
        Seq::empty()
    } else {
        joined(chunks.drop_last()) + chunks.last()
    }
}

/// What comes of a stream that comes in pieces, where after each of them frames are asked for until
/// there is none.
pub open spec fn fed(chunks: Seq<Seq<u8>>, max: nat) -> Drained
    decreases chunks.len(),
{
    if chunks.len() == 0 {
        Drained { frames: Seq::empty(), rest: Seq::empty(), failed: false }
    } else {
        let before = fed(chunks.drop_last(), max);
        if before.failed {
            before
        } else {
            let d = drained(before.rest + chunks.last(), max);
            Drained { frames: before.frames + d.frames, ..d }
        }
    }
}

/// Whether `a` is the start of `b`.
pub open spec fn starts(a: Seq<u8>, b: Seq<u8>) -> bool {
    a.len() <= b.len() && b.take(a.len() as int) == a
}

proof fn lemma_drained_start(w: Seq<u8>, frames: Seq<Seq<u8>>, max: nat)
    requires
        forall|i: int| 0 <= i < frames.len() ==> is_frame(#[trigger] frames[i], max),
        starts(w, wire_of(frames)),
    ensures
        ({
            let d = drained(w, max);
            &&& !d.failed
            &&& d.frames.len() <= frames.len()
            &&& d.frames == frames.take(d.frames.len() as int)
            &&& wire_of(d.frames) + d.rest == w
            &&& forall|i: int| 0 <= i < d.rest.len() ==> d.rest[i] != NEWLINE
        }),
    decreases frames.len(),
{
    let wire = wire_of(frames);
    let d = drained(w, max);
    lemma_line_end(w, 0);
    if frames.len() == 0 {
        assert(w =~= Seq::<u8>::empty());
        assert(d.frames =~= frames.take(0));
        assert(wire_of(d.frames) + d.rest =~= w);
    } else {
        let f = frames[0];
        let others = frames.drop_first();
        assert(is_frame(f, max));
        assert forall|i: int| 0 <= i < w.len() implies w[i] == wire[i] by {
            assert(wire.take(w.len() as int)[i] == w[i]);
        }
        assert forall|i: int| 0 <= i < f.len() && i < w.len() implies w[i] != NEWLINE by {
            assert(wire[i] == f[i]);
        }
        if w.len() <= f.len() {
            assert(line_end(w, 0) is None);
            assert(d.frames =~= frames.take(0));
            assert(wire_of(d.frames) =~= Seq::<u8>::empty());
            assert(wire_of(d.frames) + d.rest =~= w);
        } else {
            let behind = w.skip((f.len() + 1) as int);
            assert(w =~= encoded(f) + behind) by {
                assert(wire[f.len() as int] == NEWLINE);
            }
            lemma_frame_round_trip(f, behind, max);
            assert forall|i: int| 0 <= i < others.len() implies is_frame(#[trigger] others[i], max) by {
                assert(others[i] == frames[i + 1]);
            }
            assert(wire_of(others).take(behind.len() as int) =~= behind) by {
                assert forall|i: int| 0 <= i < behind.len() implies wire_of(others)[i] == behind[i] by {
                    assert(wire[i + f.len() + 1] == wire_of(others)[i]);
                }
            }
            lemma_drained_start(behind, others, max);
            let e = drained(behind, max);
            assert(d.frames =~= seq![f] + e.frames);
            assert(d.frames =~= frames.take(d.frames.len() as int));
            assert(d.frames.drop_first() =~= e.frames);
            assert(wire_of(d.frames) + d.rest =~= w);
        }
    }
}

proof fn lemma_wire_concat(a: Seq<Seq<u8>>, b: Seq<Seq<u8>>)
    ensures
        wire_of(a + b) == wire_of(a) + wire_of(b),
    decreases a.len(),
{
    if a.len() == 0 {
        assert(a + b =~= b);
        assert(wire_of(a) + wire_of(b) =~= wire_of(b));
    } else {
        assert((a + b).drop_first() =~= a.drop_first() + b);
        lemma_wire_concat(a.drop_first(), b);
        assert(wire_of(a + b) =~= wire_of(a) + wire_of(b));
    }
}

/// Frames that are written one behind the other come out again as they went in, in whatever pieces
/// their bytes come. As long as only a part has come, just those frames are had whose bytes are
/// there to the end, and what is waiting is the rest.
pub proof fn lemma_frames_come_out(chunks: Seq<Seq<u8>>, frames: Seq<Seq<u8>>, max: nat)
    requires
        forall|i: int| 0 <= i < frames.len() ==> is_frame(#[trigger] frames[i], max),
        starts(joined(chunks), wire_of(frames)),
    ensures
        ({
            let d = fed(chunks, max);
            &&& !d.failed
            &&& d.frames.len() <= frames.len()
            &&& d.frames == frames.take(d.frames.len() as int)
            &&& wire_of(d.frames) + d.rest == joined(chunks)
            &&& forall|i: int| 0 <= i < d.rest.len() ==> d.rest[i] != NEWLINE
            &&& joined(chunks) == wire_of(frames) ==> d.frames == frames && d.rest.len() == 0
        }),
    decreases chunks.len(),
{
    let wire = wire_of(frames);
    let d = fed(chunks, max);
    let all = joined(chunks);
    if chunks.len() == 0 {
        assert(d.frames =~= frames.take(0));
        assert(wire_of(d.frames) + d.rest =~= all);
    } else {
        let front = chunks.drop_last();
        let before = fed(front, max);
        let c = chunks.last();
        assert(wire.take(joined(front).len() as int) =~= joined(front)) by {
            assert forall|i: int| 0 <= i < joined(front).len() implies wire[i] == joined(front)[i] by {
                assert(wire.take(all.len() as int)[i] == all[i]);
            }
        }
        lemma_frames_come_out(front, frames, max);
        let n = before.frames.len() as int;
        let later = frames.skip(n);
        assert(frames =~= before.frames + later);
        lemma_wire_concat(before.frames, later);
        let w = before.rest + c;
        let k = wire_of(before.frames).len() as int;
        assert(all =~= wire_of(before.frames) + w);
        assert(wire_of(later).take(w.len() as int) =~= w) by {
            assert forall|i: int| 0 <= i < w.len() implies wire_of(later)[i] == w[i] by {
                assert(wire[k + i] == wire_of(later)[i]);
                assert(wire.take(all.len() as int)[k + i] == all[k + i]);
            }
        }
        assert forall|i: int| 0 <= i < later.len() implies is_frame(#[trigger] later[i], max) by {
            assert(later[i] == frames[i + n]);
        }
        lemma_drained_start(w, later, max);
        let e = drained(w, max);
        assert(d.frames =~= before.frames + e.frames);
        assert(d.frames =~= frames.take(d.frames.len() as int));
        lemma_wire_concat(before.frames, e.frames);
        assert(wire_of(d.frames) + d.rest =~= all);
    }
    if all == wire {
        let m = d.frames.len() as int;
        let later = frames.skip(m);
        assert(frames =~= d.frames + later);
        lemma_wire_concat(d.frames, later);
        assert(d.rest =~= wire_of(later)) by {
            let k = wire_of(d.frames).len() as int;
            assert forall|i: int| 0 <= i < d.rest.len() implies d.rest[i] == wire_of(later)[i] by {
                assert(all[k + i] == d.rest[i]);
                assert(wire[k + i] == wire_of(later)[i]);
            }
        }
        if later.len() > 0 {
            assert(wire_of(later)[later[0].len() as int] == NEWLINE);
        }
        assert(frames.take(m) =~= frames);
    }
}

/// Lines of nothing but white space between frames make no difference.
pub proof fn lemma_blank_lines_make_no_difference(blank: Seq<u8>, behind: Seq<u8>, max: nat)
    requires
        blank.len() <= max,
        forall|i: int|
            0 <= i < blank.len() ==> {
                ||| #[trigger] blank[i] == 32
                ||| blank[i] == 9
                ||| blank[i] == 12
                ||| blank[i] == 13
            },
    ensures
        taken(blank.push(10) + behind, max) == taken(behind, max),
{
    let buf = blank.push(10) + behind;
    let e = blank.len() as int;
    assert(buf[e] == NEWLINE);
    assert forall|i: int| 0 <= i < e implies buf[i] != NEWLINE by {
        assert(buf[i] == blank[i]);
    }
    lemma_line_end_is(buf, 0, e);
    assert(buf.take(e) =~= blank);
    assert(buf.skip(e + 1) =~= behind);
}

/// A line with anything else on it is a frame, and one with too many bytes is refused.
pub proof fn lemma_frame_is_any_other_line(line: Seq<u8>, behind: Seq<u8>, max: nat, k: int)
    requires
        forall|i: int| 0 <= i < line.len() ==> line[i] != 10,
        0 <= k < line.len(),
        line[k] != 32,
        line[k] != 9,
        line[k] != 12,
        line[k] != 13,
    ensures
        line.len() <= max ==> taken(line.push(10) + behind, max) == (Taken::Line {
            line,
            rest: behind,
        }),
        line.len() > max ==> taken(line.push(10) + behind, max) is TooLarge,
        line.len() > max ==> taken(line, max) is TooLarge,
        line.len() <= max ==> taken(line, max) == (Taken::Nothing { rest: line }),
{
    let buf = line.push(10) + behind;
    let e = line.len() as int;
    assert(buf[e] == NEWLINE);
    assert forall|i: int| 0 <= i < e implies buf[i] != NEWLINE by {
        assert(buf[i] == line[i]);
    }
    lemma_line_end_is(buf, 0, e);
    assert(buf.take(e) =~= line);
    assert(buf.skip(e + 1) =~= behind);
    assert(!is_blank(line)) by {
        assert(!is_blank_byte(line[k]));
    }
    lemma_line_end(line, 0);
}

} // verus!
