//! Reading a text file: which lines are shown, and how.

use vstd::prelude::*;

use crate::strings::{byte_len, dec, join_texts, joined, push_dec, str_len, texts};
use crate::text::truncate::{
    after_line, body_of, lemma_first_line, lemma_lines, lemma_lines_at_most_bytes, line_bodies,
    line_body, lines, next_line,
};
use crate::tools::selector::{is_canonical, LineRange, Selector};

verus! {

broadcast use vstd::seq::group_seq_axioms;

/// How many lines are shown in front of a range.
pub const RANGE_LEADING_CONTEXT_LINES: usize = 1;

/// How many lines are shown behind a range.
pub const RANGE_TRAILING_CONTEXT_LINES: usize = 3;

/// How many bytes a line is taken to have when the bytes to read are worked out.
pub const BYTES_PER_LINE_ESTIMATE: usize = 512;

/// How many bytes of a file tell whether it is text.
pub const SNIFF_SAMPLE_BYTES: usize = 4096;

/// How deep a directory is shown.
pub const READ_DIR_MAX_DEPTH: usize = 2;

/// How many entries of a directory are shown.
pub const READ_DIR_PER_DIR_LIMIT: usize = 12;

/// The most lines that are read.
pub const MAX_READ_LINES: usize = 3000;

/// The bytes that may be read in any case.
pub const MIN_READ_BYTES: usize = 50_000;

/// How many lines a page has, from what is configured.
pub fn page_lines(configured: usize) -> (r: usize)
    ensures
        r == if configured < 1 {
            1
        } else if configured > MAX_READ_LINES {
            MAX_READ_LINES
        } else {
            configured
        },
{
    if configured < 1 {
        1
    } else if configured > MAX_READ_LINES {
        MAX_READ_LINES
    } else {
        configured
    }
}

/// A file whose first bytes hold a zero is no text.
pub fn is_binary(sample: &[u8]) -> (r: bool)
    ensures
        r == exists|i: int| 0 <= i < sample@.len() && sample@[i] == 0,
{
    crate::strings::find_byte(0, sample).is_some()
}

/// What is said of a line behind the end of a file.
pub open spec fn out_of_bounds_text(line: nat, total: nat) -> Seq<char> {
    "第 "@ + dec(line) + " 行超出文件末尾（共 "@ + dec(total) + " 行）。"@ + if total == 0 {
        "该文件为空。"@
    } else {
        "用 :1 从头读，或 :"@ + dec(total) + " 读最后一行。"@
    }
}

/// What is said of a line behind the end of a file: what to ask for instead.
pub fn out_of_bounds_message(requested_line: usize, total_lines: usize) -> (r: String)
    ensures
        r@ == out_of_bounds_text(requested_line as nat, total_lines as nat),
{
    let mut r = String::new();
    r.append("第 ");
    push_dec(&mut r, requested_line as u64);
    r.append(" 行超出文件末尾（共 ");
    push_dec(&mut r, total_lines as u64);
    r.append(" 行）。");
    if total_lines == 0 {
        r.append("该文件为空。");
    } else {
        r.append("用 :1 从头读，或 :");
        push_dec(&mut r, total_lines as u64);
        r.append(" 读最后一行。");
    }
    assert(r@ =~= out_of_bounds_text(requested_line as nat, total_lines as nat));
    r
}

/// How to go on reading.
pub open spec fn hint_text(next: nat, remaining: nat) -> Seq<char> {
    "[还有 "@ + dec(remaining) + " 行。用 :"@ + dec(next) + " 继续]"@
}

/// How to go on reading.
pub fn continuation_hint(next_offset: usize, remaining_lines: usize) -> (r: String)
    ensures
        r@ == hint_text(next_offset as nat, remaining_lines as nat),
{
    let mut r = String::new();
    r.append("[还有 ");
    push_dec(&mut r, remaining_lines as u64);
    r.append(" 行。用 :");
    push_dec(&mut r, next_offset as u64);
    r.append(" 继续]");
    assert(r@ =~= hint_text(next_offset as nat, remaining_lines as nat));
    r
}

/// What has been collected.
#[verifier::ext_equal]
pub struct ScanView {
    /// The lines collected for each range.
    pub windows: Seq<Seq<Seq<char>>>,
    /// The range that the next line is held against.
    pub range: nat,
    /// How many lines have been collected, and how many bytes.
    pub lines: nat,
    pub bytes: nat,
}

/// The limits of a scan.
#[derive(Debug, Clone)]
pub struct ScanLimits {
    /// How many lines of each range are collected at most.
    pub per_range: Vec<usize>,
    /// How many lines are collected at most.
    pub max_lines: usize,
    /// Once this many bytes have been collected, nothing more is.
    pub max_bytes: usize,
}

/// What [`ScanLimits`] stands for.
#[verifier::ext_equal]
pub struct LimitsView {
    pub per_range: Seq<nat>,
    pub max_lines: nat,
    pub max_bytes: nat,
}

impl View for ScanLimits {
    type V = LimitsView;

    open spec fn view(&self) -> LimitsView {
        LimitsView {
            per_range: Seq::new(self.per_range@.len(), |i: int| self.per_range@[i] as nat),
            max_lines: self.max_lines as nat,
            max_bytes: self.max_bytes as nat,
        }
    }
}

/// The first range from `k` on that does not end before the line `n`.
pub open spec fn range_at(targets: Seq<LineRange>, k: nat, n: nat) -> nat
    decreases targets.len() - k,
{
    if k < targets.len() && targets[k as int].end is Some && n > targets[k as int].end->0 {
        range_at(targets, k + 1, n)
    } else {
        k
    }
}

/// What the line `n` adds.
pub open spec fn scan_line(
    targets: Seq<LineRange>,
    limits: LimitsView,
    s: ScanView,
    n: nat,
    line: Seq<char>,
) -> ScanView {
    let k = range_at(targets, s.range, n);
    if k >= targets.len() || n < targets[k as int].start || s.lines >= limits.max_lines || s.bytes
        >= limits.max_bytes || s.windows[k as int].len() >= limits.per_range[k as int] {
        ScanView { range: k, ..s }
    } else {
        ScanView {
            windows: s.windows.update(k as int, s.windows[k as int].push(line)),
            range: k,
            lines: s.lines + 1,
            bytes: s.bytes + byte_len(line) + 1,
        }
    }
}

/// What the first `n` lines give.
pub open spec fn scan_of(
    targets: Seq<LineRange>,
    limits: LimitsView,
    l: Seq<Seq<char>>,
    n: nat,
) -> ScanView
    decreases n,
{
    if n == 0 {
        ScanView {
            windows: Seq::new(targets.len(), |i: int| Seq::empty()),
            range: 0,
            lines: 0,
            bytes: 0,
        }
    } else {
        scan_line(targets, limits, scan_of(targets, limits, l, (n - 1) as nat), n, l[n - 1])
    }
}

/// What a text gives.
pub open spec fn scanned(targets: Seq<LineRange>, limits: LimitsView, text: Seq<char>) -> ScanView {
    scan_of(targets, limits, line_bodies(text), line_bodies(text).len())
}

/// The contents of windows.
pub open spec fn windows_of(w: Seq<Vec<String>>) -> Seq<Seq<Seq<char>>> {
    Seq::new(w.len(), |i: int| texts(w[i]@))
}

/// Collects the lines of the ranges, which ascend, within the limits; counts all lines.
pub fn scan_ranges(text: &str, targets: &Vec<LineRange>, limits: &ScanLimits) -> (r: (
    Vec<Vec<String>>,
    usize,
))
    requires
        limits.per_range@.len() == targets@.len(),
    ensures
        windows_of(r.0@) == scanned(targets@, limits@, text@).windows,
        r.0@.len() == targets@.len(),
        r.1 == line_bodies(text@).len(),
{
    let ghost l = lines(text@);
    let ghost b = line_bodies(text@);
    let mut windows: Vec<Vec<String>> = Vec::new();
    let mut i: usize = 0;
    while i < targets.len()
        invariant
            i <= targets@.len(),
            windows@.len() == i,
            forall|k: int| 0 <= k < i ==> (#[trigger] windows@[k])@.len() == 0,
        decreases targets@.len() - i,
    {
        windows.push(Vec::new());
        i += 1;
    }
    let total_bytes = str_len(text);
    let mut range: usize = 0;
    let mut n: usize = 0;
    let mut got_lines: u128 = 0;
    let mut got_bytes: u128 = 0;
    let mut rest = text;
    proof {
        lemma_lines_at_most_bytes(text@);
        assert(l.skip(0) =~= l);
        let first = scan_of(targets@, limits@, b, 0).windows;
        assert forall|k: int| 0 <= k < first.len() implies windows_of(windows@)[k] == first[k] by {
            assert(texts(windows@[k]@) =~= Seq::<Seq<char>>::empty());
        }
        assert(windows_of(windows@) =~= first);
    }
    while !rest.is_empty()
        invariant
            l == lines(text@),
            b == line_bodies(text@),
            l.len() <= total_bytes,
            n <= l.len(),
            l.skip(n as int) == lines(rest@),
            windows@.len() == targets@.len(),
            limits.per_range@.len() == targets@.len(),
            range <= targets@.len(),
            got_lines <= n,
            got_bytes + byte_len(rest@) <= total_bytes + n,
            scan_of(targets@, limits@, b, n as nat) == (ScanView {
                windows: windows_of(windows@),
                range: range as nat,
                lines: got_lines as nat,
                bytes: got_bytes as nat,
            }),
        decreases rest@.len(),
    {
        proof {
            lemma_lines(rest@);
            lemma_first_line(rest@);
            assert(l.skip(n as int)[0] == l[n as int]);
            assert(l.skip(n + 1) =~= l.skip(n as int).drop_first());
            assert(lines(rest@).drop_first() =~= lines(after_line(rest@)));
        }
        let (line, tail) = next_line(rest);
        let body = body_of(line);
        let ghost before = scan_of(targets@, limits@, b, n as nat);
        n += 1;
        assert(b[n - 1] == body@);
        proof {
            lemma_body_bytes(line@);
        }
        while range < targets.len() && targets[range].end.is_some() && n > targets[range].end.unwrap()
            invariant
                range <= targets@.len(),
                range_at(targets@, before.range, n as nat) == range_at(
                    targets@,
                    range as nat,
                    n as nat,
                ),
            decreases targets@.len() - range,
        {
            range += 1;
        }
        if range < targets.len() && n >= targets[range].start && got_lines
            < limits.max_lines as u128 && got_bytes < limits.max_bytes as u128
            && windows[range].len() < limits.per_range[range] {
            let ghost w = windows_of(windows@);
            assert(w[range as int] == texts(windows@[range as int]@));
            let ghost inner = texts(windows@[range as int]@);
            windows[range].push(body.to_owned());
            proof {
                assert(texts(windows@[range as int]@) =~= inner.push(body@));
                assert(windows_of(windows@) =~= w.update(range as int, inner.push(body@)));
            }
            got_lines += 1;
            got_bytes += str_len(body) as u128 + 1;
        }
        assert(windows_of(windows@).len() == targets@.len());
        rest = tail;
    }
    proof {
        lemma_lines(rest@);
        assert(n == l.len());
    }
    (windows, n)
}

/// A line without its line break is no longer than with it.
proof fn lemma_body_bytes(line: Seq<char>)
    ensures
        byte_len(line_body(line)) <= byte_len(line),
{
    if line.len() > 0 && line.last() == '\n' {
        let a = line.drop_last();
        assert(line =~= a.push('\n'));
        crate::strings::lemma_encode_push(a, '\n');
        if a.len() > 0 && a.last() == '\r' {
            assert(a =~= a.drop_last().push('\r'));
            crate::strings::lemma_encode_push(a.drop_last(), '\r');
        }
    }
}

/// The first line that is asked for.
pub open spec fn asked_start(start: nat) -> nat {
    if start < 1 {
        1
    } else {
        start
    }
}

/// How many lines of context stand in front of a range that does not start at the first line.
pub open spec fn leading(start: nat, raw: bool) -> nat {
    if !raw && asked_start(start) > 1 {
        RANGE_LEADING_CONTEXT_LINES as nat
    } else {
        0
    }
}

/// How many lines of context stand behind a range with an end.
pub open spec fn trailing(end: Option<nat>, raw: bool) -> nat {
    if !raw && end is Some {
        RANGE_TRAILING_CONTEXT_LINES as nat
    } else {
        0
    }
}

/// How many lines a range asks for; one without an end asks for a page.
pub open spec fn asked_lines(start: nat, end: Option<nat>, page: nat) -> nat {
    match end {
        Some(e) => if e > start {
            (e - start + 1) as nat
        } else {
            1
        },
        None => page,
    }
}

/// How many lines are collected, with their context.
pub open spec fn page_cap(start: nat, end: Option<nat>, raw: bool, page: nat) -> nat {
    let n = asked_lines(asked_start(start), end, page) + leading(start, raw) + trailing(end, raw);
    if n <= MAX_READ_LINES {
        n
    } else {
        MAX_READ_LINES as nat
    }
}

/// How many bytes may be read for so many lines.
pub open spec fn byte_budget(lines: nat) -> nat {
    if lines * BYTES_PER_LINE_ESTIMATE >= MIN_READ_BYTES {
        lines * BYTES_PER_LINE_ESTIMATE as nat
    } else {
        MIN_READ_BYTES as nat
    }
}

/// Lines with their numbers, the first of which is `first`.
pub open spec fn numbered(l: Seq<Seq<char>>, first: nat) -> Seq<Seq<char>> {
    Seq::new(l.len(), |i: int| dec((first + i) as nat) + ":"@ + l[i])
}

/// Lines as they are shown.
pub open spec fn shown(l: Seq<Seq<char>>, first: nat, raw: bool) -> Seq<char> {
    if raw {
        joined(l, "\n"@)
    } else {
        joined(numbered(l, first), "\n"@)
    }
}

/// A range of lines of a text, as it is shown: the lines with their context, and how to go on where
/// they do not reach the end.
pub open spec fn page_of(
    text: Seq<char>,
    start: nat,
    end: Option<nat>,
    raw: bool,
    page: nat,
    window: Seq<Seq<char>>,
) -> Result<Seq<char>, Seq<char>> {
    let total = line_bodies(text).len();
    let first = (asked_start(start) - leading(start, raw)) as nat;
    let last = (first + window.len() - 1) as nat;
    if asked_start(start) > total {
        Err(out_of_bounds_text(asked_start(start), total))
    } else if window.len() == 0 {
        Err(
            "第 "@ + dec(first) + " 行超过 "@ + dec(byte_budget(page_cap(start, end, raw, page)))
                + " 字节的读取预算，无法完整返回该行。"@,
        )
    } else if last < total {
        Ok(shown(window, first, raw) + "\n\n"@ + hint_text(last + 1, (total - last) as nat))
    } else {
        Ok(shown(window, first, raw))
    }
}

/// An optional number.
pub open spec fn opt_nat(n: Option<usize>) -> Option<nat> {
    match n {
        Some(v) => Some(v as nat),
        None => None,
    }
}

/// The lines that are collected for a range.
pub open spec fn page_target(start: nat, end: Option<nat>, raw: bool, page: nat) -> LineRange {
    let first = (asked_start(start) - leading(start, raw)) as nat;
    let cap = page_cap(start, end, raw, page);
    let last = first + if cap > 0 {
        (cap - 1) as nat
    } else {
        0
    };
    LineRange {
        start: first as usize,
        end: if last <= usize::MAX {
            Some(last as usize)
        } else {
            None
        },
    }
}

/// The limits of a page of `cap` lines.
pub open spec fn page_limits(cap: nat) -> LimitsView {
    LimitsView { per_range: seq![cap], max_lines: cap, max_bytes: byte_budget(cap) }
}

/// Puts the number of a line in front of it.
fn number_line(n: usize, line: &str) -> (r: String)
    ensures
        r@ == dec(n as nat) + ":"@ + line@,
{
    let mut r = String::new();
    push_dec(&mut r, n as u64);
    r.append(":");
    r.append(line);
    assert(r@ =~= dec(n as nat) + ":"@ + line@);
    r
}

/// Lines as they are shown, the first of which has the number `first`.
fn show_lines(l: &Vec<String>, first: usize, raw: bool) -> (r: String)
    requires
        first + l@.len() <= usize::MAX + 1,
    ensures
        r@ == shown(texts(l@), first as nat, raw),
{
    if raw {
        return join_texts(l, "\n");
    }
    let mut out: Vec<String> = Vec::new();
    let ghost t = texts(l@);
    let mut i: usize = 0;
    assert(texts(out@) =~= numbered(t, first as nat).take(0));
    while i < l.len()
        invariant
            i <= l@.len(),
            first + l@.len() <= usize::MAX + 1,
            t == texts(l@),
            texts(out@) == numbered(t, first as nat).take(i as int),
        decreases l@.len() - i,
    {
        let ghost before = texts(out@);
        let line = number_line(first + i, l[i].as_str());
        let ghost said = line@;
        out.push(line);
        i += 1;
        assert(texts(out@) =~= before.push(said));
        assert(texts(out@) =~= numbered(t, first as nat).take(i as int));
    }
    assert(numbered(t, first as nat).take(t.len() as int) =~= numbered(t, first as nat));
    join_texts(&out, "\n")
}

/// A window has at most as many lines as the text, less those before its range.
proof fn lemma_window_len(
    targets: Seq<LineRange>,
    limits: LimitsView,
    l: Seq<Seq<char>>,
    n: nat,
    k: int,
)
    requires
        n <= l.len(),
        0 <= k < targets.len(),
    ensures
        scan_of(targets, limits, l, n).windows.len() == targets.len(),
        scan_of(targets, limits, l, n).windows[k].len() == 0 || scan_of(
            targets,
            limits,
            l,
            n,
        ).windows[k].len() + targets[k].start <= n + 1,
    decreases n,
{
    if n > 0 {
        lemma_window_len(targets, limits, l, (n - 1) as nat, k);
    }
}

/// What has to be collected for a range.
struct PagePlan {
    requested: usize,
    first: usize,
    cap: usize,
    max_bytes: usize,
    target: LineRange,
}

/// Works out what has to be collected for a range.
fn plan_page(start: usize, end: Option<usize>, raw: bool, page: usize) -> (r: PagePlan)
    ensures
        r.requested == asked_start(start as nat),
        r.first == asked_start(start as nat) - leading(start as nat, raw),
        r.cap == page_cap(start as nat, opt_nat(end), raw, page as nat),
        r.cap <= MAX_READ_LINES,
        r.max_bytes == byte_budget(r.cap as nat),
        r.target == page_target(start as nat, opt_nat(end), raw, page as nat),
        r.target.start == r.first,
        1 <= r.first <= r.requested,
{
    let requested: usize = if start < 1 {
        1
    } else {
        start
    };
    let before: usize = if !raw && requested > 1 {
        RANGE_LEADING_CONTEXT_LINES
    } else {
        0
    };
    let behind: usize = if !raw && end.is_some() {
        RANGE_TRAILING_CONTEXT_LINES
    } else {
        0
    };
    let first: usize = requested - before;
    let wanted: usize = match end {
        Some(v) => if v > requested {
            if v - requested < MAX_READ_LINES {
                v - requested + 1
            } else {
                MAX_READ_LINES
            }
        } else {
            1
        },
        None => if page < MAX_READ_LINES {
            page
        } else {
            MAX_READ_LINES
        },
    };
    let cap: usize = if wanted + before + behind <= MAX_READ_LINES {
        wanted + before + behind
    } else {
        MAX_READ_LINES
    };
    let max_bytes: usize = if cap * BYTES_PER_LINE_ESTIMATE >= MIN_READ_BYTES {
        cap * BYTES_PER_LINE_ESTIMATE
    } else {
        MIN_READ_BYTES
    };
    let more: usize = if cap > 0 {
        cap - 1
    } else {
        0
    };
    let target = LineRange {
        start: first,
        end: if more <= usize::MAX - first {
            Some(first + more)
        } else {
            None
        },
    };
    PagePlan { requested, first, cap, max_bytes, target }
}

/// A range of lines of a text, as it is shown.
pub open spec fn read_page(
    text: Seq<char>,
    start: nat,
    end: Option<nat>,
    raw: bool,
    page: nat,
) -> Result<Seq<char>, Seq<char>> {
    let window = scanned(
        seq![page_target(start, end, raw, page)],
        page_limits(page_cap(start, end, raw, page)),
        text,
    ).windows[0];
    page_of(text, start, end, raw, page, window)
}

/// Whether the result `r` says what `want` does.
pub open spec fn says(r: Result<String, String>, want: Result<Seq<char>, Seq<char>>) -> bool {
    match want {
        Ok(body) => r is Ok && r->Ok_0@ == body,
        Err(message) => r is Err && r->Err_0@ == message,
    }
}

/// Reads a range of lines from a text, with a line of context in front and three behind, where line
/// numbers tell them apart. What does not fit says how to go on.
pub fn single_range(
    text: &str,
    start: usize,
    end: Option<usize>,
    raw: bool,
    default_limit: usize,
) -> (r: Result<String, String>)
    ensures
        says(r, read_page(text@, start as nat, opt_nat(end), raw, default_limit as nat)),
{
    let ghost e = opt_nat(end);
    let plan = plan_page(start, end, raw, default_limit);
    let mut per_range: Vec<usize> = Vec::new();
    per_range.push(plan.cap);
    let limits = ScanLimits { per_range, max_lines: plan.cap, max_bytes: plan.max_bytes };
    let mut targets: Vec<LineRange> = Vec::new();
    targets.push(plan.target);
    proof {
        assert(targets@ =~= seq![plan.target]);
        assert(limits@ =~= page_limits(plan.cap as nat));
        lemma_window_len(
            targets@,
            limits@,
            line_bodies(text@),
            line_bodies(text@).len(),
            0,
        );
    }
    let (windows, total) = scan_ranges(text, &targets, &limits);
    let ghost w = scanned(targets@, limits@, text@).windows[0];
    assert(windows_of(windows@)[0] == w);
    show_page(&windows[0], total, &plan, raw, Ghost(text@), Ghost(start as nat), Ghost(e), Ghost(
        default_limit as nat,
    ))
}

/// Shows what was collected for a range.
fn show_page(
    window: &Vec<String>,
    total: usize,
    plan: &PagePlan,
    raw: bool,
    Ghost(text): Ghost<Seq<char>>,
    Ghost(start): Ghost<nat>,
    Ghost(end): Ghost<Option<nat>>,
    Ghost(page): Ghost<nat>,
) -> (r: Result<String, String>)
    requires
        total == line_bodies(text).len(),
        plan.requested == asked_start(start),
        plan.first == asked_start(start) - leading(start, raw),
        1 <= plan.first,
        plan.max_bytes == byte_budget(page_cap(start, end, raw, page)),
        window@.len() == 0 || window@.len() + plan.first <= total + 1,
    ensures
        says(r, page_of(text, start, end, raw, page, texts(window@))),
{
    if plan.requested > total {
        return Err(out_of_bounds_message(plan.requested, total));
    }
    let count: usize = window.len();
    assert(texts(window@).len() == count);
    if count == 0 {
        let mut m = String::new();
        m.append("第 ");
        push_dec(&mut m, plan.first as u64);
        m.append(" 行超过 ");
        push_dec(&mut m, plan.max_bytes as u64);
        m.append(" 字节的读取预算，无法完整返回该行。");
        assert(m@ =~= "第 "@ + dec(plan.first as nat) + " 行超过 "@ + dec(plan.max_bytes as nat)
            + " 字节的读取预算，无法完整返回该行。"@);
        return Err(m);
    }
    let mut body = show_lines(window, plan.first, raw);
    let last: usize = plan.first + (count - 1);
    if last < total {
        let ghost b0 = body@;
        body.append("\n\n");
        body.append(continuation_hint(last + 1, total - last).as_str());
        assert(body@ =~= b0 + "\n\n"@ + hint_text((last + 1) as nat, (total - last) as nat));
    }
    Ok(body)
}

/// How many lines each range asks for.
pub open spec fn range_caps(ranges: Seq<LineRange>, page: nat) -> Seq<nat> {
    Seq::new(
        ranges.len(),
        |i: int| asked_lines(ranges[i].start as nat, opt_nat(ranges[i].end), page),
    )
}

/// The sum of numbers.
pub open spec fn sum_of(s: Seq<nat>) -> nat
    decreases s.len(),
{
    if s.len() == 0 {
        0
    } else {
        sum_of(s.drop_last()) + s.last()
    }
}

/// At most what may be read.
pub open spec fn capped(n: nat) -> nat {
    if n <= MAX_READ_LINES {
        n
    } else {
        MAX_READ_LINES as nat
    }
}

/// The limits of several ranges.
pub open spec fn ranges_limits(ranges: Seq<LineRange>, page: nat) -> LimitsView {
    let caps = range_caps(ranges, page);
    LimitsView {
        per_range: Seq::new(caps.len(), |i: int| at_most_usize(caps[i])),
        max_lines: capped(sum_of(caps)),
        max_bytes: byte_budget(capped(sum_of(caps))),
    }
}

/// At most what a `usize` can hold.
pub open spec fn at_most_usize(n: nat) -> nat {
    if n <= usize::MAX {
        n
    } else {
        usize::MAX as nat
    }
}

/// The least first line of ranges, 1 where there are none.
pub open spec fn least_start(ranges: Seq<LineRange>) -> nat
    decreases ranges.len(),
{
    if ranges.len() == 0 {
        1
    } else if ranges.len() == 1 {
        ranges[0].start as nat
    } else {
        let before = least_start(ranges.drop_last());
        if before <= ranges.last().start {
            before
        } else {
            ranges.last().start as nat
        }
    }
}

/// The last line of a range in words.
pub open spec fn end_text(end: Option<usize>) -> Seq<char> {
    match end {
        Some(e) => dec(e as nat),
        None => "EOF"@,
    }
}

/// A range with its heading.
pub open spec fn range_block(
    range: LineRange,
    window: Seq<Seq<char>>,
    raw: bool,
    total: nat,
) -> Seq<char> {
    let name = "--- 第 "@ + dec(range.start as nat) + "-"@ + end_text(range.end);
    if window.len() == 0 {
        name + " 行（超出文件末尾，共 "@ + dec(total) + " 行）---"@
    } else if raw {
        shown(window, range.start as nat, raw)
    } else {
        name + " 行 ---\n"@ + shown(window, range.start as nat, raw)
    }
}

/// The first `n` ranges, an empty line between them.
pub open spec fn range_blocks(
    ranges: Seq<LineRange>,
    windows: Seq<Seq<Seq<char>>>,
    raw: bool,
    total: nat,
    n: int,
) -> Seq<char>
    decreases n,
{
    if n <= 0 {
        Seq::empty()
    } else {
        let before = range_blocks(ranges, windows, raw, total, n - 1);
        let block = range_block(ranges[n - 1], windows[n - 1], raw, total);
        if before.len() == 0 {
            block
        } else {
            before + "\n\n"@ + block
        }
    }
}

/// Several ranges of lines of a text, as they are shown.
pub open spec fn read_ranges(
    text: Seq<char>,
    ranges: Seq<LineRange>,
    raw: bool,
    page: nat,
) -> Result<Seq<char>, Seq<char>> {
    let total = line_bodies(text).len();
    let windows = scanned(ranges, ranges_limits(ranges, page), text).windows;
    if least_start(ranges) > total {
        Err(out_of_bounds_text(least_start(ranges), total))
    } else {
        Ok(range_blocks(ranges, windows, raw, total, ranges.len() as int))
    }
}

/// How many lines a range asks for.
fn lines_asked(range: &LineRange, page: usize) -> (n: usize)
    ensures
        n == at_most_usize(asked_lines(range.start as nat, opt_nat(range.end), page as nat)),
{
    match range.end {
        Some(e) => if e > range.start {
            if e - range.start == usize::MAX {
                usize::MAX
            } else {
                e - range.start + 1
            }
        } else {
            1
        },
        None => page,
    }
}

/// The limits of several ranges.
fn limit_ranges(ranges: &Vec<LineRange>, page: usize) -> (r: ScanLimits)
    ensures
        r@ == ranges_limits(ranges@, page as nat),
        r.per_range@.len() == ranges@.len(),
{
    let ghost caps = range_caps(ranges@, page as nat);
    let mut per_range: Vec<usize> = Vec::new();
    let mut sum: usize = 0;
    let mut i: usize = 0;
    assert(caps.take(0) =~= Seq::<nat>::empty());
    while i < ranges.len()
        invariant
            i <= ranges@.len(),
            caps == range_caps(ranges@, page as nat),
            per_range@.len() == i,
            forall|k: int| 0 <= k < i ==> #[trigger] per_range@[k] == at_most_usize(caps[k]),
            sum == capped(sum_of(caps.take(i as int))),
        decreases ranges@.len() - i,
    {
        let n = lines_asked(&ranges[i], page);
        proof {
            assert(caps.take(i + 1).drop_last() =~= caps.take(i as int));
            assert(caps.take(i + 1).last() == caps[i as int]);
        }
        per_range.push(n);
        sum = if n >= MAX_READ_LINES || sum + n >= MAX_READ_LINES {
            MAX_READ_LINES
        } else {
            sum + n
        };
        i += 1;
    }
    assert(caps.take(caps.len() as int) =~= caps);
    let max_bytes: usize = if sum * BYTES_PER_LINE_ESTIMATE >= MIN_READ_BYTES {
        sum * BYTES_PER_LINE_ESTIMATE
    } else {
        MIN_READ_BYTES
    };
    let r = ScanLimits { per_range, max_lines: sum, max_bytes };
    assert(r@.per_range =~= ranges_limits(ranges@, page as nat).per_range);
    r
}

/// The least first line of ranges.
fn smallest_start(ranges: &Vec<LineRange>) -> (r: usize)
    ensures
        r == least_start(ranges@),
{
    if ranges.len() == 0 {
        return 1;
    }
    let mut r: usize = ranges[0].start;
    let mut i: usize = 1;
    assert(ranges@.take(1)[0] == ranges@[0]);
    while i < ranges.len()
        invariant
            1 <= i <= ranges@.len(),
            r == least_start(ranges@.take(i as int)),
        decreases ranges@.len() - i,
    {
        assert(ranges@.take(i + 1).drop_last() =~= ranges@.take(i as int));
        assert(ranges@.take(i + 1).last() == ranges@[i as int]);
        if ranges[i].start < r {
            r = ranges[i].start;
        }
        i += 1;
    }
    assert(ranges@.take(ranges@.len() as int) =~= ranges@);
    r
}

/// Appends the first and the last line of a range.
fn push_range_name(out: &mut String, range: &LineRange)
    ensures
        final(out)@ == old(out)@ + "--- 第 "@ + dec(range.start as nat) + "-"@ + end_text(range.end),
{
    out.append("--- 第 ");
    push_dec(out, range.start as u64);
    out.append("-");
    match range.end {
        Some(e) => {
            push_dec(out, e as u64);
        },
        None => {
            out.append("EOF");
        },
    }
    assert(out@ =~= old(out)@ + "--- 第 "@ + dec(range.start as nat) + "-"@ + end_text(range.end));
}

/// Reads several ranges of lines from a text, each under a heading and without context.
pub fn multi_range(text: &str, ranges: &Vec<LineRange>, raw: bool, default_limit: usize) -> (r: Result<
    String,
    String,
>)
    ensures
        says(r, read_ranges(text@, ranges@, raw, default_limit as nat)),
{
    let limits = limit_ranges(ranges, default_limit);
    let (windows, total) = scan_ranges(text, ranges, &limits);
    let ghost w = scanned(ranges@, limits@, text@).windows;
    let start = smallest_start(ranges);
    if start > total {
        return Err(out_of_bounds_message(start, total));
    }
    let mut body = String::new();
    let mut i: usize = 0;
    while i < ranges.len()
        invariant
            i <= ranges@.len(),
            windows@.len() == ranges@.len(),
            w == windows_of(windows@),
            w == scanned(ranges@, limits@, text@).windows,
            total == line_bodies(text@).len(),
            body@ == range_blocks(ranges@, w, raw, total as nat, i as int),
        decreases ranges@.len() - i,
    {
        let ghost before = body@;
        let ghost want = range_block(ranges@[i as int], w[i as int], raw, total as nat);
        if !body.as_str().is_empty() {
            body.append("\n\n");
        }
        let ghost front = body@;
        proof {
            lemma_window_len(
                ranges@,
                limits@,
                line_bodies(text@),
                line_bodies(text@).len(),
                i as int,
            );
            assert(w[i as int] == texts(windows@[i as int]@));
        }
        if windows[i].len() == 0 {
            push_range_name(&mut body, &ranges[i]);
            body.append(" 行（超出文件末尾，共 ");
            push_dec(&mut body, total as u64);
            body.append(" 行）---");
            assert(body@ =~= front + want);
        } else {
            if !raw {
                push_range_name(&mut body, &ranges[i]);
                body.append(" 行 ---\n");
            }
            body.append(show_lines(&windows[i], ranges[i].start, raw).as_str());
            assert(body@ =~= front + want);
        }
        i += 1;
        assert(body@ =~= range_blocks(ranges@, w, raw, total as nat, i as int));
    }
    Ok(body)
}

/// What a selector shows of a text.
pub open spec fn read_selected(text: Seq<char>, selector: Selector, page: nat) -> Result<
    Seq<char>,
    Seq<char>,
> {
    match selector {
        Selector::Absent => read_page(text, 1, None, false, page),
        Selector::Raw => read_page(text, 1, None, true, page),
        Selector::Lines { ranges, raw } => if ranges@.len() == 1 {
            read_page(text, ranges@[0].start as nat, opt_nat(ranges@[0].end), raw, page)
        } else {
            read_ranges(text, ranges@, raw, page)
        },
    }
}

/// Reads what a selector asks for: the whole text from its first line, one range, or several.
pub fn read_text(text: &str, selector: &Selector, default_limit: usize) -> (r: Result<
    String,
    String,
>)
    ensures
        says(r, read_selected(text@, *selector, default_limit as nat)),
{
    match selector {
        Selector::Absent => single_range(text, 1, None, false, default_limit),
        Selector::Raw => single_range(text, 1, None, true, default_limit),
        Selector::Lines { ranges, raw } => if ranges.len() == 1 {
            single_range(text, ranges[0].start, ranges[0].end, *raw, default_limit)
        } else {
            multi_range(text, ranges, *raw, default_limit)
        },
    }
}

// Laws

/// The range that a line is looked up in is the first that does not end before it.
pub proof fn lemma_range_at(targets: Seq<LineRange>, k: nat, n: nat)
    requires
        k <= targets.len(),
    ensures
        k <= range_at(targets, k, n) <= targets.len(),
        forall|j: int|
            k <= j < range_at(targets, k, n) ==> (#[trigger] targets[j]).end is Some && n
                > targets[j].end->0,
        range_at(targets, k, n) < targets.len() ==> {
            let t = targets[range_at(targets, k, n) as int];
            t.end is None || n <= t.end->0
        },
    decreases targets.len() - k,
{
    if k < targets.len() && targets[k as int].end is Some && n > targets[k as int].end->0 {
        lemma_range_at(targets, k + 1, n);
    }
}

proof fn lemma_run_of_range(
    targets: Seq<LineRange>,
    limits: LimitsView,
    l: Seq<Seq<char>>,
    n: nat,
    i: int,
)
    requires
        is_canonical(targets),
        limits.per_range.len() == targets.len(),
        n <= l.len(),
        0 <= i < targets.len(),
    ensures
        ({
            let s = scan_of(targets, limits, l, n);
            let w = s.windows[i];
            let t = targets[i];
            let full = s.lines >= limits.max_lines || s.bytes >= limits.max_bytes || w.len()
                >= limits.per_range[i];
            &&& s.windows.len() == targets.len()
            &&& s.range <= targets.len()
            &&& n < t.start ==> w.len() == 0
            &&& n >= t.start ==> t.start - 1 + w.len() <= n
            &&& n >= t.start ==> w == l.subrange(t.start - 1, t.start - 1 + w.len())
            &&& n >= t.start && (t.end is None || n <= t.end->0) && !full ==> t.start - 1 + w.len()
                == n
        }),
    decreases n,
{
    if n > 0 {
        lemma_run_of_range(targets, limits, l, (n - 1) as nat, i);
        let before = scan_of(targets, limits, l, (n - 1) as nat);
        let s = scan_of(targets, limits, l, n);
        let w = before.windows[i];
        let t = targets[i];
        let k = range_at(targets, before.range, n);
        lemma_range_at(targets, before.range, n);
        assert(s == scan_line(targets, limits, before, n, l[n - 1]));
        lemma_scan_range(targets, limits, l, (n - 1) as nat);
        if s.windows[i].len() > w.len() {
            assert(k == i && n >= t.start);
            assert(t.start - 1 + w.len() == n - 1);
            assert(s.windows[i] =~= l.subrange(t.start - 1, t.start - 1 + w.len() + 1)) by {
                if n - 1 >= t.start {
                    assert(w == l.subrange(t.start - 1, t.start - 1 + w.len()));
                }
            }
        } else {
            assert(s.windows[i] == w);
            if n == t.start {
                assert(w =~= l.subrange(t.start - 1, t.start - 1 + w.len()));
            }
            if n >= t.start && (t.end is None || n <= t.end->0) {
                assert(k == i) by {
                    if k < i {
                        assert(targets[k as int].end->0 < targets[i].start);
                    }
                    if k > i && before.range <= i {
                        assert(n > targets[i].end->0);
                    }
                }
            }
        }
    }
}

/// The range that is under way is the first that does not end before the lines that were read.
pub proof fn lemma_scan_range(
    targets: Seq<LineRange>,
    limits: LimitsView,
    l: Seq<Seq<char>>,
    n: nat,
)
    requires
        limits.per_range.len() == targets.len(),
    ensures
        scan_of(targets, limits, l, n).range <= targets.len(),
        forall|j: int|
            0 <= j < scan_of(targets, limits, l, n).range ==> (#[trigger] targets[j]).end is Some
                && n > targets[j].end->0,
    decreases n,
{
    if n > 0 {
        lemma_scan_range(targets, limits, l, (n - 1) as nat);
        let before = scan_of(targets, limits, l, (n - 1) as nat);
        lemma_range_at(targets, before.range, n);
        assert(scan_of(targets, limits, l, n) == scan_line(targets, limits, before, n, l[n - 1]));
    }
}

/// What is shown for each of several ranges are lines of the text that follow one another, from the
/// first line of the range on.
pub proof fn lemma_ranges_are_runs(
    targets: Seq<LineRange>,
    limits: LimitsView,
    text: Seq<char>,
    i: int,
)
    requires
        is_canonical(targets),
        limits.per_range.len() == targets.len(),
        0 <= i < targets.len(),
        targets[i].start <= line_bodies(text).len(),
    ensures
        ({
            let window = scanned(targets, limits, text).windows[i];
            let first = targets[i].start;
            &&& first - 1 + window.len() <= line_bodies(text).len()
            &&& window == line_bodies(text).subrange(first - 1, first - 1 + window.len())
        }),
{
    let l = line_bodies(text);
    lemma_run_of_range(targets, limits, l, l.len(), i);
}

/// What a page shows are lines of the text that follow one another, from the first one that was
/// asked for, or its context, on: none of them is left out and none is changed.
pub proof fn lemma_page_is_a_run(
    text: Seq<char>,
    start: nat,
    end: Option<nat>,
    raw: bool,
    page: nat,
)
    requires
        asked_start(start) <= line_bodies(text).len() <= usize::MAX,
    ensures
        ({
            let window = scanned(
                seq![page_target(start, end, raw, page)],
                page_limits(page_cap(start, end, raw, page)),
                text,
            ).windows[0];
            let first = asked_start(start) - leading(start, raw);
            &&& first >= 1
            &&& first - 1 + window.len() <= line_bodies(text).len()
            &&& window == line_bodies(text).subrange(first - 1, first - 1 + window.len())
        }),
{
    lemma_ranges_are_runs(
        seq![page_target(start, end, raw, page)],
        page_limits(page_cap(start, end, raw, page)),
        text,
        0,
    );
}

} // verus!
