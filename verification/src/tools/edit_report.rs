//! What the edit and write tools say: where a text was found, what comes close to it, and what a
//! change looks like.

use vstd::prelude::*;

use crate::strings::{
    chars_eq, chars_of, dec, find_index, index_at, joined, push_chars, push_wide_dec, runs, str_eq,
    string_of, texts, trim, trim_end_of, trimmed, trimmed_end, join_texts, part_to,
};
use crate::text::truncate::{line_bodies, text_lines};
use crate::tools::edit::{
    apply_replace, is_blank, located, matches_of, replaced, Match, MatchView, ReplaceOutcome,
};

verus! {

broadcast use vstd::seq::group_seq_axioms;

/// How many lines of context a change is shown with.
pub const DIFF_CONTEXT_LINES: usize = 3;

/// How many line breaks the first `k` characters of `s` hold.
pub open spec fn breaks(s: Seq<char>, k: int) -> nat
    decreases k,
{
    if k <= 0 {
        0
    } else {
        breaks(s, k - 1) + if s[k - 1] == '\n' {
            1nat
        } else {
            0nat
        }
    }
}

/// The number of the line at a byte offset; 1 where no character starts there.
pub open spec fn line_number(s: Seq<char>, off: nat) -> nat {
    match index_at(s, off) {
        Some(k) => breaks(s, k as int) + 1,
        None => 1,
    }
}

/// The number of the line at a byte offset.
fn line_number_at(s: &[char], off: usize) -> (n: u128)
    ensures
        n == line_number(s@, off as nat),
{
    match find_index(s, off) {
        Some(k) => {
            let mut n: u128 = 0;
            let mut i: usize = 0;
            while i < k
                invariant
                    i <= k <= s@.len(),
                    n == breaks(s@, i as int),
                    n <= i,
                decreases k - i,
            {
                if s[i] == '\n' {
                    n += 1;
                }
                i += 1;
            }
            n + 1
        },
        None => 1,
    }
}

/// Which lines a match covers, in words.
pub open spec fn match_text(s: Seq<char>, m: MatchView) -> Seq<char> {
    let first = line_number(s, m.start);
    let last = if m.end > m.start {
        line_number(s, (m.end - 1) as nat)
    } else {
        first
    };
    if last > first {
        "第 "@ + dec(first) + "-"@ + dec(last) + " 行"@
    } else {
        "第 "@ + dec(first) + " 行"@
    }
}

/// Which lines a match covers, in words.
fn describe_match(s: &[char], m: &Match) -> (r: String)
    ensures
        r@ == match_text(s@, m@),
{
    let first = line_number_at(s, m.start);
    let last = if m.end > m.start {
        line_number_at(s, m.end - 1)
    } else {
        first
    };
    let mut r = String::new();
    r.append("第 ");
    push_wide_dec(&mut r, first);
    if last > first {
        r.append("-");
        push_wide_dec(&mut r, last);
    }
    r.append(" 行");
    assert(r@ =~= match_text(s@, m@));
    r
}

/// The edit distance of two texts: how many characters have to be put in, left out or exchanged.
pub open spec fn distance(a: Seq<char>, b: Seq<char>) -> nat
    decreases a.len(), b.len(),
{
    if a.len() == 0 {
        b.len()
    } else if b.len() == 0 {
        a.len()
    } else {
        let del = distance(a.drop_last(), b) + 1;
        let ins = distance(a, b.drop_last()) + 1;
        let sub = distance(a.drop_last(), b.drop_last()) + if a.last() == b.last() {
            0nat
        } else {
            1nat
        };
        least(least(del, ins), sub)
    }
}

/// The lesser of two numbers.
pub open spec fn least(a: nat, b: nat) -> nat {
    if a <= b {
        a
    } else {
        b
    }
}

proof fn lemma_distance_bound(a: Seq<char>, b: Seq<char>)
    ensures
        distance(a, b) <= a.len() + b.len(),
    decreases a.len(), b.len(),
{
    if a.len() > 0 && b.len() > 0 {
        lemma_distance_bound(a.drop_last(), b);
        lemma_distance_bound(a, b.drop_last());
        lemma_distance_bound(a.drop_last(), b.drop_last());
    }
}

/// The edit distance of two texts, row by row.
fn levenshtein(a: &[char], b: &[char]) -> (r: u128)
    ensures
        r == distance(a@, b@),
{
    let mut prev: Vec<u128> = Vec::new();
    let mut j: usize = 0;
    prev.push(0);
    assert(a@.take(0) =~= Seq::<char>::empty());
    while j < b.len()
        invariant
            j <= b@.len(),
            prev@.len() == j + 1,
            a@.take(0) == Seq::<char>::empty(),
            forall|k: int|
                0 <= k <= j ==> #[trigger] prev@[k] == distance(a@.take(0), b@.take(k)),
        decreases b@.len() - j,
    {
        j += 1;
        prev.push(j as u128);
    }
    let mut i: usize = 0;
    while i < a.len()
        invariant
            i <= a@.len(),
            prev@.len() == b@.len() + 1,
            forall|k: int|
                0 <= k <= b@.len() ==> #[trigger] prev@[k] == distance(
                    a@.take(i as int),
                    b@.take(k),
                ),
        decreases a@.len() - i,
    {
        let ghost x = a@.take(i as int);
        let ghost y = a@.take(i + 1);
        proof {
            assert(y.drop_last() =~= x);
            assert(y.last() == a@[i as int]);
            assert(b@.take(0) =~= Seq::<char>::empty());
        }
        let mut curr: Vec<u128> = Vec::new();
        curr.push(i as u128 + 1);
        let mut j: usize = 0;
        while j < b.len()
            invariant
                i < a@.len(),
                j <= b@.len(),
                curr@.len() == j + 1,
                prev@.len() == b@.len() + 1,
                x == a@.take(i as int),
                y == a@.take(i + 1),
                y.drop_last() == x,
                y.last() == a@[i as int],
                forall|k: int|
                    0 <= k <= b@.len() ==> #[trigger] prev@[k] == distance(x, b@.take(k)),
                forall|k: int| 0 <= k <= j ==> #[trigger] curr@[k] == distance(y, b@.take(k)),
            decreases b@.len() - j,
        {
            proof {
                assert(b@.take(j + 1).drop_last() =~= b@.take(j as int));
                assert(b@.take(j + 1).last() == b@[j as int]);
                lemma_distance_bound(x, b@.take(j + 1));
                lemma_distance_bound(y, b@.take(j as int));
                lemma_distance_bound(x, b@.take(j as int));
                assert(prev@[j + 1] == distance(x, b@.take(j + 1)));
                assert(prev@[j as int] == distance(x, b@.take(j as int)));
                assert(curr@[j as int] == distance(y, b@.take(j as int)));
            }
            let del: u128 = prev[j + 1] + 1;
            let ins: u128 = curr[j] + 1;
            let sub: u128 = if a[i] == b[j] {
                prev[j]
            } else {
                prev[j] + 1
            };
            let first: u128 = if del <= ins {
                del
            } else {
                ins
            };
            let best: u128 = if first <= sub {
                first
            } else {
                sub
            };
            curr.push(best);
            j += 1;
        }
        prev = curr;
        i += 1;
    }
    proof {
        assert(a@.take(a@.len() as int) =~= a@);
        assert(b@.take(b@.len() as int) =~= b@);
        assert(prev@[b@.len() as int] == distance(a@, b@.take(b@.len() as int)));
    }
    prev[b.len()]
}

/// The first line of `l` from `i` on that is not blank, without the white space at its ends.
pub open spec fn probe_from(l: Seq<Seq<char>>, i: int) -> Option<Seq<char>>
    decreases l.len() - i,
{
    if i < 0 || i >= l.len() {
        None
    } else if !is_blank(l[i]) {
        Some(trim(l[i]))
    } else {
        probe_from(l, i + 1)
    }
}

/// Which of the first `n` lines is closest to the probe, the first one where several are, and how
/// close it is.
pub open spec fn closest(l: Seq<Seq<char>>, probe: Seq<char>, n: int) -> Option<(int, nat)>
    decreases n,
{
    if n <= 0 {
        None
    } else {
        let d = distance(probe, trim(l[n - 1]));
        match closest(l, probe, n - 1) {
            None => Some((n - 1, d)),
            Some((i, best)) => if d < best {
                Some((n - 1, d))
            } else {
                Some((i, best))
            },
        }
    }
}

/// The line of `content` that comes closest to the first line of `old` that is not blank: its
/// number and its text.
pub open spec fn nearest(content: Seq<char>, old: Seq<char>) -> Option<(int, Seq<char>)> {
    let l = line_bodies(content);
    match probe_from(line_bodies(old), 0) {
        None => None,
        Some(probe) => match closest(l, probe, l.len() as int) {
            None => None,
            Some((i, d)) => Some((i + 1, l[i])),
        },
    }
}

/// The line of `content` that comes closest to the text looked for.
fn nearest_candidate(content: &str, old: &str) -> (r: Option<(u128, Vec<char>)>)
    ensures
        match r {
            Some(c) => nearest(content@, old@) == Some((c.0 as int, c.1@)),
            None => nearest(content@, old@) is None,
        },
{
    let wanted = text_lines(old);
    let ghost w = line_bodies(old@);
    let mut i: usize = 0;
    while i < wanted.len() && trimmed(wanted[i].as_slice()).len() == 0
        invariant
            i <= wanted@.len(),
            w == runs(wanted@),
            probe_from(w, 0) == probe_from(w, i as int),
        decreases wanted@.len() - i,
    {
        assert(w[i as int] == wanted@[i as int]@);
        i += 1;
    }
    if i == wanted.len() {
        return None;
    }
    let probe = trimmed(wanted[i].as_slice());
    assert(w[i as int] == wanted@[i as int]@);
    let mut lines = text_lines(content);
    let ghost l = line_bodies(content@);
    let mut best: Option<(usize, u128)> = None;
    let mut n: usize = 0;
    while n < lines.len()
        invariant
            n <= lines@.len(),
            l == runs(lines@),
            match best {
                Some(b) => closest(l, probe@, n as int) == Some((b.0 as int, b.1 as nat)) && b.0
                    < n,
                None => n == 0,
            },
        decreases lines@.len() - n,
    {
        assert(l[n as int] == lines@[n as int]@);
        let d = levenshtein(probe, trimmed(lines[n].as_slice()));
        let better = match best {
            Some(b) => d < b.1,
            None => true,
        };
        if better {
            best = Some((n, d));
        }
        n += 1;
    }
    match best {
        Some(b) => {
            assert(l[b.0 as int] == lines@[b.0 as int]@);
            let text = lines.swap_remove(b.0);
            Some((b.0 as u128 + 1, text))
        },
        None => None,
    }
}

/// How many leading lines from `i` on two texts share.
pub open spec fn shared_head(a: Seq<Seq<char>>, b: Seq<Seq<char>>, i: int) -> int
    decreases a.len() - i,
{
    if 0 <= i < a.len() && i < b.len() && a[i] == b[i] {
        shared_head(a, b, i + 1)
    } else {
        i
    }
}

/// How many lines at their ends two texts share, at most `max`, of which `k` are known.
pub open spec fn shared_tail(a: Seq<Seq<char>>, b: Seq<Seq<char>>, k: int, max: int) -> int
    decreases max - k,
{
    if 0 <= k < max && max <= a.len() && max <= b.len() && a[a.len() - 1 - k] == b[b.len() - 1
        - k] {
        shared_tail(a, b, k + 1, max)
    } else {
        k
    }
}

/// A number in a column of six.
pub open spec fn padded(n: nat) -> Seq<char> {
    let d = dec(n);
    if d.len() >= 6 {
        d
    } else {
        Seq::new((6 - d.len()) as nat, |i: int| ' ') + d
    }
}

/// A line of a change.
pub open spec fn row(l: Seq<Seq<char>>, i: int, mark: Seq<char>) -> Seq<char> {
    (padded((i + 1) as nat) + mark + l[i]).push('\n')
}

/// The lines `from..to` of a change.
pub open spec fn rows(l: Seq<Seq<char>>, from: int, to: int, mark: Seq<char>) -> Seq<char>
    decreases to - from,
{
    if from >= to {
        Seq::empty()
    } else {
        rows(l, from, to - 1, mark) + row(l, to - 1, mark)
    }
}

/// `a - b`, 0 where that is negative.
pub open spec fn minus(a: int, b: int) -> int {
    if a > b {
        a - b
    } else {
        0
    }
}

/// What a change looks like: what the two texts share at their start and end is left out, but for
/// `context` lines on either side of what differs.
pub open spec fn diff_of(old: Seq<char>, new: Seq<char>, context: int) -> Seq<char> {
    let a = line_bodies(old);
    let b = line_bodies(new);
    let head = shared_head(a, b, 0);
    let max = if a.len() <= b.len() {
        a.len() - head
    } else {
        b.len() - head
    };
    let tail = shared_tail(a, b, 0, max);
    let a_end = a.len() - tail;
    let b_end = b.len() - tail;
    let after = if b_end + context <= b.len() {
        b_end + context
    } else {
        b.len() as int
    };
    if head >= a_end && head >= b_end {
        Seq::empty()
    } else {
        trim_end_of(
            rows(a, minus(head, context), head, "   "@) + rows(a, head, a_end, " - "@) + rows(
                b,
                head,
                b_end,
                " + "@,
            ) + rows(b, b_end, after, "   "@),
            '\n',
        )
    }
}

/// Appends a line of a change.
fn push_row(out: &mut String, l: &Vec<Vec<char>>, i: usize, mark: &str)
    requires
        i < l@.len(),
    ensures
        final(out)@ == old(out)@ + row(runs(l@), i as int, mark@),
{
    let mut d = String::new();
    push_wide_dec(&mut d, i as u128 + 1);
    let digits = chars_of(d.as_str());
    assert(digits@ =~= dec((i + 1) as nat));
    let mut k: usize = digits.len();
    let ghost before = out@;
    let ghost n0 = k;
    while k < 6
        invariant
            n0 <= k,
            n0 <= 6 ==> k <= 6,
            n0 > 6 ==> k == n0,
            out@ == before + Seq::new((k - n0) as nat, |x: int| ' '),
        decreases 6 - k,
    {
        out.push(' ');
        k += 1;
        assert(out@ =~= before + Seq::new((k - n0) as nat, |x: int| ' '));
    }
    push_chars(out, digits.as_slice());
    out.append(mark);
    push_chars(out, l[i].as_slice());
    out.push('\n');
    assert(runs(l@)[i as int] == l@[i as int]@);
    assert(out@ =~= before + row(runs(l@), i as int, mark@));
}

/// Appends the lines `from..to` of a change.
fn push_rows(out: &mut String, l: &Vec<Vec<char>>, from: usize, to: usize, mark: &str)
    requires
        from <= to <= l@.len(),
    ensures
        final(out)@ == old(out)@ + rows(runs(l@), from as int, to as int, mark@),
{
    let ghost before = out@;
    let mut i: usize = from;
    assert(before + Seq::<char>::empty() =~= before);
    while i < to
        invariant
            from <= i <= to <= l@.len(),
            out@ == before + rows(runs(l@), from as int, i as int, mark@),
        decreases to - i,
    {
        push_row(out, l, i, mark);
        i += 1;
        assert(out@ =~= before + rows(runs(l@), from as int, i as int, mark@));
    }
}

/// What a change looks like, with `context` lines around it.
pub fn compact_diff(old: &str, new: &str, context: usize) -> (r: String)
    ensures
        r@ == diff_of(old@, new@, context as int),
{
    let a = text_lines(old);
    let b = text_lines(new);
    let ghost x = line_bodies(old@);
    let ghost y = line_bodies(new@);
    let mut head: usize = 0;
    while head < a.len() && head < b.len() && chars_eq(a[head].as_slice(), b[head].as_slice())
        invariant
            head <= a@.len(),
            head <= b@.len(),
            x == runs(a@),
            y == runs(b@),
            shared_head(x, y, 0) == shared_head(x, y, head as int),
        decreases a@.len() - head,
    {
        assert(x[head as int] == a@[head as int]@ && y[head as int] == b@[head as int]@);
        head += 1;
    }
    proof {
        if head < a@.len() && head < b@.len() {
            assert(x[head as int] == a@[head as int]@ && y[head as int] == b@[head as int]@);
        }
        assert(shared_head(x, y, 0) == head);
    }
    let max: usize = if a.len() <= b.len() {
        a.len() - head
    } else {
        b.len() - head
    };
    let mut tail: usize = 0;
    while tail < max && chars_eq(
        a[a.len() - 1 - tail].as_slice(),
        b[b.len() - 1 - tail].as_slice(),
    )
        invariant
            tail <= max,
            head + max <= a@.len(),
            head + max <= b@.len(),
            x == runs(a@),
            y == runs(b@),
            shared_tail(x, y, 0, max as int) == shared_tail(x, y, tail as int, max as int),
        decreases max - tail,
    {
        assert(x[a@.len() - 1 - tail] == a@[a@.len() - 1 - tail]@);
        assert(y[b@.len() - 1 - tail] == b@[b@.len() - 1 - tail]@);
        tail += 1;
    }
    proof {
        if tail < max {
            assert(x[a@.len() - 1 - tail] == a@[a@.len() - 1 - tail]@);
            assert(y[b@.len() - 1 - tail] == b@[b@.len() - 1 - tail]@);
        }
        assert(shared_tail(x, y, 0, max as int) == tail);
    }
    let a_end: usize = a.len() - tail;
    let b_end: usize = b.len() - tail;
    if head >= a_end && head >= b_end {
        return String::new();
    }
    let before: usize = if head > context {
        head - context
    } else {
        0
    };
    let after: usize = if context <= b.len() - b_end {
        b_end + context
    } else {
        b.len()
    };
    let mut out = String::new();
    push_rows(&mut out, &a, before, head, "   ");
    push_rows(&mut out, &a, head, a_end, " - ");
    push_rows(&mut out, &b, head, b_end, " + ");
    push_rows(&mut out, &b, b_end, after, "   ");
    let ghost all = rows(x, minus(head as int, context as int), head as int, "   "@) + rows(
        x,
        head as int,
        a_end as int,
        " - "@,
    ) + rows(y, head as int, b_end as int, " + "@) + rows(y, b_end as int, after as int, "   "@);
    assert(out@ =~= all);
    let chars = chars_of(out.as_str());
    let n = trimmed_end(chars.as_slice(), '\n');
    string_of(part_to(chars.as_slice(), n))
}

/// Why an edit is refused before any file is read.
pub open spec fn edit_refusal(old: Seq<char>, new: Seq<char>) -> Option<Seq<char>> {
    if old == new {
        Some(
            "old_string 与 new_string 完全相同——这次调用本身没有产生任何变化，不是「锚点没找对，再多给点上下文」的情况。反复用同一份 payload 重试解决不了问题：请重新核对 old_string 是否真的圈住了要改的那部分，或者确认 new_string 是不是漏改了。（真实教训：某次任务里同一份字节级相同的 no-op payload 被连续调用了 182/205 次才被用户手动打断。）"@,
        )
    } else if old.len() == 0 {
        Some(
            "old_string 不能为空——编辑已存在文件必须给出要替换的确切文本；如果是想整份重写这个文件，请改用 write 工具。"@,
        )
    } else {
        None
    }
}

/// Refuses an edit that changes nothing or that names no text to replace.
pub fn check_edit(old: &str, new: &str) -> (r: Result<(), String>)
    ensures
        match r {
            Ok(_) => edit_refusal(old@, new@) is None,
            Err(message) => edit_refusal(old@, new@) == Some(message@),
        },
{
    if str_eq(old, new) {
        return Err(
            "old_string 与 new_string 完全相同——这次调用本身没有产生任何变化，不是「锚点没找对，再多给点上下文」的情况。反复用同一份 payload 重试解决不了问题：请重新核对 old_string 是否真的圈住了要改的那部分，或者确认 new_string 是不是漏改了。（真实教训：某次任务里同一份字节级相同的 no-op payload 被连续调用了 182/205 次才被用户手动打断。）".to_owned(),
        );
    }
    if old.is_empty() {
        return Err(
            "old_string 不能为空——编辑已存在文件必须给出要替换的确切文本；如果是想整份重写这个文件，请改用 write 工具。".to_owned(),
        );
    }
    Ok(())
}

/// What is said of a text that was not found.
pub open spec fn not_found_text(
    display: Seq<char>,
    content: Seq<char>,
    old: Seq<char>,
) -> Seq<char> {
    let hint = match nearest(content, old) {
        None => "文件里没有找到形态相近的内容。"@,
        Some((n, text)) => "文件里最接近的一处在第 "@ + dec(n as nat) + " 行："@ + text,
    };
    "在 "@ + display
        + " 中找不到 old_string：已依次尝试精确匹配、行尾空白无关匹配、缩进归一匹配、块首尾锚点匹配，均未命中。"@
        + hint
        + "\n建议：先用 read 重新读取该区域，直接复制真实文本作为 old_string，而不是凭记忆重写。"@
}

/// What is said of matches, one behind the other.
pub open spec fn match_texts(content: Seq<char>, m: Seq<MatchView>) -> Seq<Seq<char>> {
    Seq::new(m.len(), |i: int| match_text(content, m[i]))
}

/// What is said of a text that was found in several places.
pub open spec fn ambiguous_text(
    display: Seq<char>,
    content: Seq<char>,
    m: Seq<MatchView>,
) -> Seq<char> {
    "old_string 在 "@ + display + " 中匹配到 "@ + dec(m.len()) + " 处："@ + joined(
        match_texts(content, m),
        "；"@,
    )
        + "。未传 replace_all: true 时只允许唯一匹配。请把 old_string 的上下文扩大到能唯一定位这一处（带上更多相邻行），或者显式传 replace_all: true 一次性替换全部 "@
        + dec(m.len()) + " 处。"@
}

/// A file's new content.
#[derive(Debug, Clone)]
pub struct EditPlan {
    pub new_content: String,
    /// How many places were replaced.
    pub match_count: usize,
}

/// Works out the new content of the file `display`, or why there is none.
pub fn plan_edit(display: &str, content: &str, old: &str, new: &str, replace_all: bool) -> (r: Result<
    EditPlan,
    String,
>)
    ensures
        ({
            let m = located(content@, old@);
            match r {
                Ok(plan) => {
                    &&& m.len() == 1 || m.len() > 1 && replace_all
                    &&& plan.match_count == m.len()
                    &&& plan.new_content@ == replaced(content@, m, new@)
                },
                Err(message) => if m.len() == 0 {
                    message@ == not_found_text(display@, content@, old@)
                } else {
                    m.len() > 1 && !replace_all && message@ == ambiguous_text(
                        display@,
                        content@,
                        m,
                    )
                },
            }
        }),
{
    match apply_replace(content, old, new, replace_all) {
        ReplaceOutcome::NotFound => {
            let mut text = String::new();
            text.append("在 ");
            text.append(display);
            text.append(
                " 中找不到 old_string：已依次尝试精确匹配、行尾空白无关匹配、缩进归一匹配、块首尾锚点匹配，均未命中。",
            );
            match nearest_candidate(content, old) {
                None => {
                    text.append("文件里没有找到形态相近的内容。");
                },
                Some((n, line)) => {
                    text.append("文件里最接近的一处在第 ");
                    push_wide_dec(&mut text, n);
                    text.append(" 行：");
                    push_chars(&mut text, line.as_slice());
                },
            }
            text.append(
                "\n建议：先用 read 重新读取该区域，直接复制真实文本作为 old_string，而不是凭记忆重写。",
            );
            assert(text@ =~= not_found_text(display@, content@, old@));
            Err(text)
        },
        ReplaceOutcome::Ambiguous(matches) => {
            let ghost m = located(content@, old@);
            let chars = chars_of(content);
            let mut places: Vec<String> = Vec::new();
            let mut i: usize = 0;
            assert(texts(places@) =~= match_texts(content@, m).take(0));
            while i < matches.len()
                invariant
                    i <= matches@.len(),
                    m == matches_of(matches@),
                    chars@ == content@,
                    texts(places@) == match_texts(content@, m).take(i as int),
                decreases matches@.len() - i,
            {
                let ghost before = texts(places@);
                let place = describe_match(chars.as_slice(), &matches[i]);
                let ghost said = place@;
                assert(said == match_text(content@, m[i as int]));
                places.push(place);
                i += 1;
                assert(texts(places@) =~= before.push(said));
                assert(texts(places@) =~= match_texts(content@, m).take(i as int));
            }
            assert(match_texts(content@, m).take(m.len() as int) =~= match_texts(content@, m));
            let mut text = String::new();
            text.append("old_string 在 ");
            text.append(display);
            text.append(" 中匹配到 ");
            push_wide_dec(&mut text, matches.len() as u128);
            text.append(" 处：");
            text.append(join_texts(&places, "；").as_str());
            text.append(
                "。未传 replace_all: true 时只允许唯一匹配。请把 old_string 的上下文扩大到能唯一定位这一处（带上更多相邻行），或者显式传 replace_all: true 一次性替换全部 ",
            );
            push_wide_dec(&mut text, matches.len() as u128);
            text.append(" 处。");
            assert(text@ =~= ambiguous_text(display@, content@, m));
            Err(text)
        },
        ReplaceOutcome::Applied { new_content, match_count } => {
            Ok(EditPlan { new_content: string_of(new_content.as_slice()), match_count })
        },
    }
}

/// What is said of a file that was edited: a note about links, how many places changed, and how.
pub open spec fn edited_text(
    display: Seq<char>,
    note: Option<Seq<char>>,
    match_count: nat,
    old: Seq<char>,
    new: Seq<char>,
) -> Seq<char> {
    let head = match note {
        Some(n) => n + "\n\n"@,
        None => Seq::empty(),
    };
    let line = head + "已在 "@ + display + " 完成 "@ + dec(match_count) + " 处替换。\n"@;
    let diff = diff_of(old, new, DIFF_CONTEXT_LINES as int);
    if diff.len() == 0 {
        line
    } else {
        line.push('\n') + diff
    }
}

/// What is said of a file that was edited.
pub fn edit_body(display: &str, note: Option<&str>, match_count: usize, old: &str, new: &str) -> (r:
    String)
    ensures
        r@ == edited_text(
            display@,
            crate::strings::opt_view(note),
            match_count as nat,
            old@,
            new@,
        ),
{
    let mut body = String::new();
    if let Some(n) = note {
        body.append(n);
        body.append("\n\n");
    }
    body.append("已在 ");
    body.append(display);
    body.append(" 完成 ");
    push_wide_dec(&mut body, match_count as u128);
    body.append(" 处替换。\n");
    let diff = compact_diff(old, new, DIFF_CONTEXT_LINES);
    if !diff.as_str().is_empty() {
        body.push('\n');
        body.append(diff.as_str());
    }
    assert(body@ =~= edited_text(
        display@,
        crate::strings::opt_view(note),
        match_count as nat,
        old@,
        new@,
    ));
    body
}

} // verus!
