//! What tools give back: all of it is brought to a bounded size, errors too.

use vstd::prelude::*;

use crate::strings::{byte_len, dec, push_dec};
use crate::text::tabs::{expand_tabs, expanded, lemma_no_tab_left, lemma_without_tabs};
use crate::text::truncate::{
    after_line, cap_columns, capped_line, capped_lines, first_line, head_kept, head_of,
    lemma_first_line, lemma_head_kept, lemma_lines, line_count, truncate_head, TruncateLimits,
};
use crate::text::width::{columns, fitting, lemma_fitting, truncated_to_width, Scan};

verus! {

broadcast use vstd::seq::group_seq_axioms;

/// How many lines a tool may give back.
pub const MAX_LINES: usize = 3000;

/// How many bytes a tool may give back.
pub const MAX_BYTES: usize = 50_000;

/// How many columns a line of it may have.
pub const MAX_COLUMNS: usize = 512;

/// What a tool gives back.
#[derive(Debug, Clone, PartialEq, Eq)]
pub struct ToolOutput {
    pub text: String,
    pub title: String,
    /// Whether it tells nothing that is worth keeping.
    pub useless: bool,
}

impl ToolOutput {
    /// The same, as something that is not worth keeping.
    pub fn mark_useless(self) -> (r: Self)
        ensures
            r.text == self.text,
            r.title == self.title,
            r.useless,
    {
        ToolOutput { text: self.text, title: self.title, useless: true }
    }
}

/// Why a tool failed.
#[derive(Debug, Clone, PartialEq, Eq)]
pub enum ToolError {
    Failed(String),
    Cancelled,
    Timeout { seconds: u64 },
}

/// What is said where lines were left out.
pub open spec fn notice(dropped_lines: nat, dropped_bytes: nat) -> Seq<char> {
    "\n\n[Output truncated: "@ + dec(dropped_lines) + " more line(s) ("@ + dec(dropped_bytes)
        + " bytes) omitted to stay under the 3000-line / 50000-byte cap. Narrow the request (a more specific path, pattern, or range) and re-run the tool to see the rest.]"@
}

/// Text with its tabs expanded and its lines cut.
pub open spec fn flattened(body: Seq<char>) -> Seq<char> {
    capped_lines(expanded(body), MAX_COLUMNS as nat)
}

/// Text brought to a bounded size.
pub open spec fn cleaned(body: Seq<char>) -> Seq<char> {
    let kept = head_of(flattened(body), MAX_LINES as nat, MAX_BYTES as nat);
    if kept.dropped_lines > 0 || kept.dropped_bytes > 0 {
        kept.text + notice(kept.dropped_lines, kept.dropped_bytes)
    } else {
        kept.text
    }
}

/// Says that lines were left out.
fn truncation_notice(dropped_lines: usize, dropped_bytes: usize) -> (r: String)
    ensures
        r@ == notice(dropped_lines as nat, dropped_bytes as nat),
{
    let mut r = "\n\n[Output truncated: ".to_owned();
    push_dec(&mut r, dropped_lines as u64);
    r.append(" more line(s) (");
    push_dec(&mut r, dropped_bytes as u64);
    r.append(
        " bytes) omitted to stay under the 3000-line / 50000-byte cap. Narrow the request (a more specific path, pattern, or range) and re-run the tool to see the rest.]",
    );
    r
}

/// Brings text to a bounded size: tabs become spaces, long lines are cut, and what is too much is
/// left out at the end, which is said.
pub fn clean(body: &str) -> (r: String)
    ensures
        r@ == cleaned(body@),
{
    let limits = TruncateLimits {
        max_lines: MAX_LINES,
        max_bytes: MAX_BYTES,
        max_columns: MAX_COLUMNS,
    };
    let wide = expand_tabs(body);
    let capped = cap_columns(wide.as_str(), MAX_COLUMNS);
    let kept = truncate_head(capped.as_str(), &limits);
    let mut text = kept.text;
    if kept.dropped_lines > 0 || kept.dropped_bytes > 0 {
        let said = truncation_notice(kept.dropped_lines, kept.dropped_bytes);
        text.append(said.as_str());
    }
    text
}

/// What a tool gives back where it worked.
pub fn finish(body: String, title: String) -> (r: ToolOutput)
    ensures
        r.text@ == cleaned(body@),
        r.title@ == title@,
        !r.useless,
{
    ToolOutput { text: clean(body.as_str()), title, useless: false }
}

/// What a tool gives back where it failed.
pub fn error(message: &str) -> (r: ToolError)
    ensures
        r matches ToolError::Failed(text) && text@ == cleaned(message@),
{
    ToolError::Failed(clean(message))
}

/// Whether each line of a text fits.
pub open spec fn lines_fit(s: Seq<char>) -> bool
    decreases s.len(),
{
    s.len() == 0 || {
        proof {
            lemma_first_line(s);
        }
        capped_line(first_line(s), MAX_COLUMNS as nat) == first_line(s) && lines_fit(after_line(s))
    }
}

proof fn lemma_capped_same(s: Seq<char>)
    requires
        lines_fit(s),
    ensures
        capped_lines(s, MAX_COLUMNS as nat) == s,
    decreases s.len(),
{
    if s.len() > 0 {
        lemma_first_line(s);
        lemma_capped_same(after_line(s));
    }
}

proof fn lemma_head_same(s: Seq<char>, max_lines: nat, max_bytes: nat)
    requires
        line_count(s) <= max_lines,
        byte_len(s) <= max_bytes,
    ensures
        head_kept(s, max_lines, max_bytes) == s,
    decreases s.len(),
{
    lemma_lines(s);
    lemma_first_line(s);
    if s.len() > 0 {
        lemma_head_same(
            after_line(s),
            (max_lines - 1) as nat,
            (max_bytes - byte_len(first_line(s))) as nat,
        );
    }
}

/// Text that is within all limits is given back as it is.
pub proof fn lemma_within_limits_untouched(body: Seq<char>)
    requires
        !body.contains('\t'),
        lines_fit(body),
        line_count(body) <= MAX_LINES,
        byte_len(body) <= MAX_BYTES,
    ensures
        cleaned(body) == body,
{
    lemma_without_tabs(body);
    lemma_capped_same(body);
    lemma_head_same(body, MAX_LINES as nat, MAX_BYTES as nat);
}

/// What is kept of a text never has more lines or bytes than allowed, whatever the text.
pub proof fn lemma_kept_is_bounded(body: Seq<char>)
    ensures
        ({
            let kept = head_of(flattened(body), MAX_LINES as nat, MAX_BYTES as nat).text;
            line_count(kept) <= MAX_LINES && byte_len(kept) <= MAX_BYTES
        }),
{
    lemma_head_kept(flattened(body), MAX_LINES as nat, MAX_BYTES as nat);
}

proof fn lemma_capped_line_no_tab(line: Seq<char>)
    requires
        !line.contains('\t'),
    ensures
        !capped_line(line, MAX_COLUMNS as nat).contains('\t'),
{
    reveal_strlit("…");
    let max = MAX_COLUMNS as nat;
    let body = if line.len() > 0 && line.last() == '\n' {
        line.drop_last()
    } else {
        line
    };
    assert forall|i: int| 0 <= i < body.len() implies body[i] != '\t' by {
        assert(line.contains(line[i]));
    }
    let cut = truncated_to_width(body, max, "…"@);
    let budget = if columns("…"@) <= max {
        (max - columns("…"@)) as nat
    } else {
        0
    };
    lemma_fitting(Scan::Text, body, budget);
    let kept = fitting(body, budget);
    assert(kept == body.take(kept.len() as int));
    assert forall|i: int| 0 <= i < cut.len() implies cut[i] != '\t' by {
        if columns(body) > max {
            if i < kept.len() {
                assert(kept[i] == body[i]);
            }
        }
    }
    let whole = capped_line(line, max);
    assert forall|i: int| 0 <= i < whole.len() implies whole[i] != '\t' by {
        if i < cut.len() {
            assert(whole[i] == cut[i]);
        }
    }
}

proof fn lemma_capped_no_tab(s: Seq<char>)
    requires
        !s.contains('\t'),
    ensures
        !capped_lines(s, MAX_COLUMNS as nat).contains('\t'),
    decreases s.len(),
{
    if s.len() > 0 {
        lemma_first_line(s);
        let a = first_line(s);
        let b = after_line(s);
        assert forall|i: int| 0 <= i < a.len() implies a[i] != '\t' by {
            assert(s.contains(s[i]));
        }
        assert forall|i: int| 0 <= i < b.len() implies b[i] != '\t' by {
            assert(s.contains(s[i + a.len()]));
        }
        lemma_capped_line_no_tab(a);
        lemma_capped_no_tab(b);
        let x = capped_line(a, MAX_COLUMNS as nat);
        let y = capped_lines(b, MAX_COLUMNS as nat);
        assert forall|i: int| 0 <= i < (x + y).len() implies (x + y)[i] != '\t' by {
            if i < x.len() {
                assert(x.contains(x[i]));
            } else {
                assert(y.contains(y[i - x.len()]));
            }
        }
    }
}

/// What is kept of a text holds no tab character.
pub proof fn lemma_kept_has_no_tab(body: Seq<char>)
    ensures
        !head_of(flattened(body), MAX_LINES as nat, MAX_BYTES as nat).text.contains('\t'),
{
    lemma_no_tab_left(body);
    lemma_capped_no_tab(expanded(body));
    lemma_head_kept(flattened(body), MAX_LINES as nat, MAX_BYTES as nat);
    let kept = head_of(flattened(body), MAX_LINES as nat, MAX_BYTES as nat).text;
    assert forall|i: int| 0 <= i < kept.len() implies kept[i] != '\t' by {
        assert(flattened(body).contains(flattened(body)[i]));
    }
}

} // verus!
