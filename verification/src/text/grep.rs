//! Searching files: what is searched for, what is kept, and when a search ends.

use vstd::prelude::*;
use vstd::slice::slice_subrange;

use crate::globs::{rule_error, rule_problem};
use crate::order::{list_before, lemma_list_total, lemma_list_transitive, rank_lists, Rank};
use crate::strings::{chars_of, texts};
use crate::text::width::{truncate_to_width, truncated_to_width};
use crate::utf8::{lossy, lossy_text};

verus! {

broadcast use vstd::seq::group_seq_axioms;

/// Whether the case of letters matters.
#[derive(Debug, Clone, Copy, PartialEq, Eq, Structural)]
pub enum CaseMode {
    Sensitive,
    Insensitive,
    /// It matters where the pattern has an upper case letter.
    Smart,
}

/// What a pattern was taken for.
#[derive(Debug, Clone, Copy, PartialEq, Eq, Structural)]
pub enum MatcherKind {
    /// A regular expression.
    Regex,
    /// The text that it is, because it is no regular expression.
    Literal,
}

/// How much is searched and kept.
#[derive(Debug, Clone, Copy, PartialEq, Eq, Structural)]
pub struct GrepLimits {
    /// How many files with matches.
    pub max_files: usize,
    /// How many matches of one file.
    pub max_matches_per_file: usize,
    /// How many matches in all.
    pub max_total_matches: usize,
    /// How many bytes of a file.
    pub max_file_bytes: u64,
    /// How long, in seconds.
    pub timeout_secs: u64,
    /// How many columns of a line.
    pub max_line_columns: usize,
}

impl Default for GrepLimits {
    fn default() -> (r: Self)
        ensures
            r == (GrepLimits {
                max_files: 20,
                max_matches_per_file: 20,
                max_total_matches: 2000,
                max_file_bytes: 4_194_304,
                timeout_secs: 30,
                max_line_columns: 512,
            }),
    {
        GrepLimits {
            max_files: 20,
            max_matches_per_file: 20,
            max_total_matches: 2000,
            max_file_bytes: 4_194_304,
            timeout_secs: 30,
            max_line_columns: 512,
        }
    }
}

/// A line that matches.
#[derive(Debug, Clone, PartialEq, Eq)]
pub struct LineMatch {
    /// Its number, from one on.
    pub line_number: u64,
    pub line: String,
    /// Where it starts in the file.
    pub byte_offset: u64,
}

/// What a [`LineMatch`] is.
#[verifier::ext_equal]
pub struct LineMatchView {
    pub line_number: u64,
    pub line: Seq<char>,
    pub byte_offset: u64,
}

impl View for LineMatch {
    type V = LineMatchView;

    open spec fn view(&self) -> LineMatchView {
        LineMatchView {
            line_number: self.line_number,
            line: self.line@,
            byte_offset: self.byte_offset,
        }
    }
}

/// What lines are.
pub open spec fn lines_view(l: Seq<LineMatch>) -> Seq<LineMatchView> {
    Seq::new(l.len(), |i: int| l[i]@)
}

/// The matches of a file.
#[derive(Debug, Clone)]
pub struct FileMatches {
    /// The names on the way to the file.
    pub path: Vec<String>,
    pub matches: Vec<LineMatch>,
    /// Whether there are more.
    pub truncated: bool,
}

/// What a [`FileMatches`] is.
#[verifier::ext_equal]
pub struct FileView {
    pub path: Seq<Seq<char>>,
    pub matches: Seq<LineMatchView>,
    pub truncated: bool,
}

impl View for FileMatches {
    type V = FileView;

    open spec fn view(&self) -> FileView {
        FileView {
            path: texts(self.path@),
            matches: lines_view(self.matches@),
            truncated: self.truncated,
        }
    }
}

/// What files are.
pub open spec fn files_view(l: Seq<FileMatches>) -> Seq<FileView> {
    Seq::new(l.len(), |i: int| l[i]@)
}

/// What came of a search.
#[derive(Debug)]
pub struct GrepOutcome {
    /// The files with matches, by their paths.
    pub files: Vec<FileMatches>,
    pub files_searched: u64,
    pub total_matches: usize,
    /// Whether there may be more.
    pub truncated: bool,
    pub skipped_oversized: u64,
    pub stopped_on_binary: u64,
    pub timed_out: bool,
    pub matcher: MatcherKind,
}

/// Why nothing was searched. What an outside part of the search said is a text.
#[derive(Debug, Clone, PartialEq, Eq)]
pub enum GrepError {
    EmptyPattern,
    InvalidGlob { glob: String, reason: String },
    Walk { reason: String },
    Io { path: String, reason: String },
}

/// An error in words.
pub open spec fn grep_error_text(e: GrepError) -> Seq<char> {
    match e {
        GrepError::EmptyPattern => "搜索模式不能为空"@,
        GrepError::InvalidGlob { glob, reason } => "glob 模式 `"@ + glob@ + "` 无效"@,
        GrepError::Walk { reason } => "遍历目录失败"@,
        GrepError::Io { path, reason } => "读取文件 `"@ + path@ + "` 失败"@,
    }
}

impl GrepError {
    /// The error in words.
    pub fn to_string(&self) -> (r: String)
        ensures
            r@ == grep_error_text(*self),
    {
        match self {
            GrepError::EmptyPattern => "搜索模式不能为空".to_owned(),
            GrepError::InvalidGlob { glob, reason: _ } => {
                let mut r = "glob 模式 `".to_owned();
                r.append(glob.as_str());
                r.append("` 无效");
                r
            },
            GrepError::Walk { reason: _ } => "遍历目录失败".to_owned(),
            GrepError::Io { path, reason: _ } => {
                let mut r = "读取文件 `".to_owned();
                r.append(path.as_str());
                r.append("` 失败");
                r
            },
        }
    }
}

// The pattern

/// Whether a pattern asks for a line break: it holds one, or a `\` and an `n`.
pub open spec fn has_break(p: Seq<char>) -> bool {
    ||| p.contains('\n')
    ||| exists|i: int| 0 <= i < p.len() - 1 && #[trigger] p[i] == '\\' && p[i + 1] == 'n'
}

/// Whether matches may span lines: where the caller wants it, and where the pattern asks for it.
pub fn effective_multiline(pattern: &str, wanted: bool) -> (r: bool)
    ensures
        r == (wanted || has_break(pattern@)),
{
    if wanted {
        return true;
    }
    let p = chars_of(pattern);
    let n: usize = p.len();
    let mut i: usize = 0;
    while i < n
        invariant
            i <= n,
            n == p@.len(),
            p@ == pattern@,
            forall|j: int| 0 <= j < i ==> #[trigger] p@[j] != '\n',
            forall|j: int|
                0 <= j < i && j < n - 1 ==> !(#[trigger] p@[j] == '\\' && p@[j + 1] == 'n'),
        decreases n - i,
    {
        if p[i] == '\n' {
            assert(pattern@.contains('\n'));
            return true;
        }
        if p[i] == '\\' && i < n - 1 && p[i + 1] == 'n' {
            assert(pattern@[i as int] == '\\' && pattern@[i + 1] == 'n');
            return true;
        }
        i += 1;
    }
    false
}

/// The characters that mean something in a regular expression.
pub open spec fn is_meta(c: char) -> bool {
    c == '\\' || c == '.' || c == '+' || c == '*' || c == '?' || c == '(' || c == ')' || c == '|'
        || c == '[' || c == ']' || c == '{' || c == '}' || c == '^' || c == '$' || c == '#' || c
        == '&' || c == '-' || c == '~'
}

/// A text with a `\` in front of each character that means something in a regular expression.
pub open spec fn escaped(s: Seq<char>) -> Seq<char>
    decreases s.len(),
{
    if s.len() == 0 {
        s
    } else {
        escaped(s.drop_last()) + if is_meta(s.last()) {
            seq!['\\', s.last()]
        } else {
            seq![s.last()]
        }
    }
}

/// `regex::escape` of the crate `regex`: puts a `\` in front of each character that means something.
#[verifier::external_body]
fn escape(pattern: &str) -> (r: String)
    ensures
        r@ == escaped(pattern@),
{
    regex::escape(pattern)
}

/// Whether `RegexMatcherBuilder::build` accepts a pattern; the first flag is that the case of
/// letters does not matter, the second that it matters where the pattern has an upper case letter,
/// the third that matches may span lines.
pub uninterp spec fn builds(pattern: Seq<char>, insensitive: bool, smart: bool, multiline: bool) -> bool;

/// `RegexMatcherBuilder::build` of the crate `grep-regex`, with `case_insensitive`, `case_smart` and
/// `multi_line` set: whether it accepts the pattern.
#[verifier::external_body]
fn accepts(pattern: &str, insensitive: bool, smart: bool, multiline: bool) -> (r: bool)
    ensures
        r == builds(pattern@, insensitive, smart, multiline),
{
    let mut builder = grep_regex::RegexMatcherBuilder::new();
    builder.multi_line(multiline).case_insensitive(insensitive).case_smart(smart);
    builder.build(pattern).is_ok()
}

/// What is searched for.
#[derive(Debug, Clone, PartialEq, Eq)]
pub struct MatcherPlan {
    /// The regular expression.
    pub pattern: String,
    pub insensitive: bool,
    pub smart: bool,
    pub multiline: bool,
    pub kind: MatcherKind,
}

/// What is searched for, as a pattern says it where it is accepted or is not.
pub open spec fn is_plan(r: MatcherPlan, pattern: Seq<char>, case: CaseMode, multiline: bool, accepted: bool) -> bool {
    &&& r.insensitive == (case == CaseMode::Insensitive)
    &&& r.smart == (case == CaseMode::Smart)
    &&& r.multiline == multiline
    &&& r.kind == if accepted {
        MatcherKind::Regex
    } else {
        MatcherKind::Literal
    }
    &&& r.pattern@ == if accepted {
        pattern
    } else {
        escaped(pattern)
    }
}

/// What is searched for, where it is known whether the pattern is a regular expression.
pub fn plan_for(pattern: &str, case: CaseMode, multiline: bool, accepted: bool) -> (r: MatcherPlan)
    ensures
        is_plan(r, pattern@, case, multiline, accepted),
{
    let insensitive = match case {
        CaseMode::Insensitive => true,
        _ => false,
    };
    let smart = match case {
        CaseMode::Smart => true,
        _ => false,
    };
    if accepted {
        MatcherPlan {
            pattern: pattern.to_owned(),
            insensitive,
            smart,
            multiline,
            kind: MatcherKind::Regex,
        }
    } else {
        MatcherPlan {
            pattern: escape(pattern),
            insensitive,
            smart,
            multiline,
            kind: MatcherKind::Literal,
        }
    }
}

/// What is searched for: the regular expression that the pattern is, or else the text that it is.
pub fn build_matcher(pattern: &str, case: CaseMode, multiline: bool) -> (r: MatcherPlan)
    ensures
        is_plan(
            r,
            pattern@,
            case,
            multiline,
            builds(pattern@, case == CaseMode::Insensitive, case == CaseMode::Smart, multiline),
        ),
{
    let insensitive = match case {
        CaseMode::Insensitive => true,
        _ => false,
    };
    let smart = match case {
        CaseMode::Smart => true,
        _ => false,
    };
    plan_for(pattern, case, multiline, accepts(pattern, insensitive, smart, multiline))
}

/// The glob that leaves out what another one matches.
pub fn negated_glob(glob: &str) -> (r: String)
    ensures
        r@ == "!"@ + glob@,
{
    let mut r = "!".to_owned();
    r.append(glob);
    r
}

/// What to search for, and where.
#[derive(Debug)]
pub struct GrepRequest {
    pub pattern: String,
    /// The texts of the steps to each file or directory.
    pub roots: Vec<Vec<String>>,
    /// Where there is one, only what one of them matches is searched.
    pub include_globs: Vec<String>,
    /// What one of them matches is not searched.
    pub exclude_globs: Vec<String>,
    pub case: CaseMode,
    pub multiline: bool,
    pub respect_gitignore: bool,
    pub include_hidden: bool,
    pub limits: GrepLimits,
}

/// A rule that a walk follows.
#[derive(Debug)]
pub struct GlobRule {
    /// As the walk takes it: what begins with `!` is left out.
    pub rule: String,
    /// As it was written.
    pub glob: String,
}

/// How a search is made.
#[derive(Debug)]
pub struct GrepPlan {
    pub matcher: MatcherPlan,
    pub rules: Vec<GlobRule>,
    /// Whether hidden files are left out.
    pub skip_hidden: bool,
    pub respect_gitignore: bool,
}

/// The rules that a walk follows, each with what was written.
pub open spec fn rules_of(included: Seq<Seq<char>>, excluded: Seq<Seq<char>>) -> Seq<
    (Seq<char>, Seq<char>),
> {
    Seq::new(included.len(), |i: int| (included[i], included[i])) + Seq::new(
        excluded.len(),
        |i: int| ("!"@ + excluded[i], excluded[i]),
    )
}

/// What rules are.
pub open spec fn rules_view(l: Seq<GlobRule>) -> Seq<(Seq<char>, Seq<char>)> {
    Seq::new(l.len(), |i: int| (l[i].rule@, l[i].glob@))
}

/// The first of the rules from the `i`th on that is none, as it was written, and what is said
/// against it.
pub open spec fn first_problem(rules: Seq<(Seq<char>, Seq<char>)>, i: int) -> Option<
    (Seq<char>, Seq<char>),
>
    decreases rules.len() - i,
{
    if i < 0 || i >= rules.len() {
        None
    } else {
        match rule_error(rules[i].0) {
            Some(reason) => Some((rules[i].1, reason)),
            None => first_problem(rules, i + 1),
        }
    }
}

/// The rules that a walk follows.
fn glob_rules(included: &Vec<String>, excluded: &Vec<String>) -> (r: Vec<GlobRule>)
    ensures
        rules_view(r@) == rules_of(texts(included@), texts(excluded@)),
{
    let ghost all = rules_of(texts(included@), texts(excluded@));
    let n: usize = included.len();
    let m: usize = excluded.len();
    let mut r: Vec<GlobRule> = Vec::new();
    let mut i: usize = 0;
    assert(rules_view(r@) =~= all.take(0));
    while i < n
        invariant
            i <= n,
            n == included@.len(),
            all == rules_of(texts(included@), texts(excluded@)),
            rules_view(r@) == all.take(i as int),
        decreases n - i,
    {
        let ghost before = rules_view(r@);
        r.push(GlobRule { rule: included[i].clone(), glob: included[i].clone() });
        i += 1;
        assert(rules_view(r@) =~= before.push(all[i - 1]));
        assert(all.take(i as int) =~= before.push(all[i - 1]));
    }
    let mut k: usize = 0;
    while k < m
        invariant
            k <= m,
            n == included@.len(),
            m == excluded@.len(),
            all == rules_of(texts(included@), texts(excluded@)),
            rules_view(r@) == all.take(n + k),
        decreases m - k,
    {
        let ghost before = rules_view(r@);
        r.push(GlobRule { rule: negated_glob(excluded[k].as_str()), glob: excluded[k].clone() });
        k += 1;
        assert(rules_view(r@) =~= before.push(all[n + k - 1]));
        assert(all.take(n + k) =~= before.push(all[n + k - 1]));
    }
    assert(all.take(n + m) =~= all);
    r
}

/// How a search is made. A search for nothing is refused, and so is one with a rule that is none:
/// then the first such rule is told.
pub fn plan_grep(request: &GrepRequest) -> (r: Result<GrepPlan, GrepError>)
    ensures
        ({
            let rules = rules_of(texts(request.include_globs@), texts(request.exclude_globs@));
            match r {
                Ok(plan) => {
                    let spans = request.multiline || has_break(request.pattern@);
                    &&& request.pattern@.len() > 0
                    &&& is_plan(
                        plan.matcher,
                        request.pattern@,
                        request.case,
                        spans,
                        builds(
                            request.pattern@,
                            request.case == CaseMode::Insensitive,
                            request.case == CaseMode::Smart,
                            spans,
                        ),
                    )
                    &&& rules_view(plan.rules@) == rules
                    &&& first_problem(rules, 0) is None
                    &&& plan.skip_hidden == !request.include_hidden
                    &&& plan.respect_gitignore == request.respect_gitignore
                },
                Err(GrepError::EmptyPattern) => request.pattern@.len() == 0,
                Err(GrepError::InvalidGlob { glob, reason }) => request.pattern@.len() > 0
                    && first_problem(rules, 0) == Some((glob@, reason@)),
                Err(_) => false,
            }
        }),
{
    if request.pattern.as_str().is_empty() {
        return Err(GrepError::EmptyPattern);
    }
    let spans = effective_multiline(request.pattern.as_str(), request.multiline);
    let matcher = build_matcher(request.pattern.as_str(), request.case, spans);
    let rules = glob_rules(&request.include_globs, &request.exclude_globs);
    let ghost all = rules_view(rules@);
    let n: usize = rules.len();
    let mut i: usize = 0;
    while i < n
        invariant
            i <= n,
            n == rules@.len(),
            all == rules_view(rules@),
            all == rules_of(texts(request.include_globs@), texts(request.exclude_globs@)),
            request.pattern@.len() > 0,
            first_problem(all, 0) == first_problem(all, i as int),
        decreases n - i,
    {
        assert(all[i as int] == (rules@[i as int].rule@, rules@[i as int].glob@));
        if let Some(reason) = rule_problem(rules[i].rule.as_str()) {
            return Err(GrepError::InvalidGlob { glob: rules[i].glob.clone(), reason });
        }
        i += 1;
    }
    Ok(
        GrepPlan {
            matcher,
            rules,
            skip_hidden: !request.include_hidden,
            respect_gitignore: request.respect_gitignore,
        },
    )
}

// One file

/// Bytes without the line break at their end.
pub open spec fn without_break(b: Seq<u8>) -> Seq<u8> {
    if b.len() > 0 && b.last() == 10 {
        b.drop_last()
    } else {
        b
    }
}

/// A line that matches, as it is kept.
pub open spec fn kept_line(number: u64, bytes: Seq<u8>, offset: u64, max_columns: nat) -> LineMatchView {
    LineMatchView {
        line_number: number,
        line: truncated_to_width(lossy(without_break(bytes)), max_columns, "…"@),
        byte_offset: offset,
    }
}

/// Keeps the matches of one file.
#[derive(Debug)]
pub struct LineSink {
    pub max_per_file: usize,
    pub max_line_columns: usize,
    pub matches: Vec<LineMatch>,
    pub truncated: bool,
    pub binary_detected: bool,
}

impl LineSink {
    /// No match yet.
    pub fn new(max_per_file: usize, max_line_columns: usize) -> (r: Self)
        ensures
            r.max_per_file == max_per_file,
            r.max_line_columns == max_line_columns,
            lines_view(r.matches@) == Seq::<LineMatchView>::empty(),
            !r.truncated,
            !r.binary_detected,
    {
        let r = LineSink {
            max_per_file,
            max_line_columns,
            matches: Vec::new(),
            truncated: false,
            binary_detected: false,
        };
        assert(lines_view(r.matches@) =~= Seq::<LineMatchView>::empty());
        r
    }

    /// Takes a line that matches. The search of the file goes on unless there are enough.
    pub fn matched(&mut self, line_number: u64, bytes: &[u8], byte_offset: u64) -> (r: bool)
        ensures
            r == (old(self).matches@.len() < old(self).max_per_file),
            final(self).max_per_file == old(self).max_per_file,
            final(self).max_line_columns == old(self).max_line_columns,
            final(self).binary_detected == old(self).binary_detected,
            final(self).truncated == (old(self).truncated || !r),
            lines_view(final(self).matches@) == if r {
                lines_view(old(self).matches@).push(
                    kept_line(line_number, bytes@, byte_offset, old(self).max_line_columns as nat),
                )
            } else {
                lines_view(old(self).matches@)
            },
    {
        if self.matches.len() >= self.max_per_file {
            self.truncated = true;
            return false;
        }
        let n: usize = bytes.len();
        let raw = if n > 0 && bytes[n - 1] == 10 {
            slice_subrange(bytes, 0, n - 1)
        } else {
            bytes
        };
        assert(raw@ =~= without_break(bytes@));
        let text = lossy_text(raw);
        let line = truncate_to_width(text.as_str(), self.max_line_columns, "…");
        let found = LineMatch { line_number, line, byte_offset };
        self.matches.push(found);
        assert(lines_view(self.matches@) =~= lines_view(old(self).matches@).push(found@));
        true
    }

    /// The file is no text: the search of it ends.
    pub fn binary_data(&mut self) -> (r: bool)
        ensures
            !r,
            *final(self) == (LineSink { binary_detected: true, ..*old(self) }),
    {
        self.binary_detected = true;
        false
    }
}

// The search

/// How far a search has come.
#[derive(Debug, Clone, Copy, PartialEq, Eq, Structural)]
pub struct SearchState {
    pub files_searched: u64,
    /// How many files with matches are kept.
    pub result_files: usize,
    pub total_matches: usize,
    pub skipped_oversized: u64,
    pub stopped_on_binary: u64,
    pub timed_out: bool,
    pub cancelled: bool,
    pub files_capped: bool,
    pub matches_capped: bool,
    /// Whether only the start of a file was searched.
    pub partly_read: bool,
    /// Whether something went wrong that ends the search.
    pub failed: bool,
}

/// A search that has not begun.
pub open spec fn fresh() -> SearchState {
    SearchState {
        files_searched: 0,
        result_files: 0,
        total_matches: 0,
        skipped_oversized: 0,
        stopped_on_binary: 0,
        timed_out: false,
        cancelled: false,
        files_capped: false,
        matches_capped: false,
        partly_read: false,
        failed: false,
    }
}

impl Default for SearchState {
    fn default() -> (r: Self)
        ensures
            r == fresh(),
    {
        SearchState {
            files_searched: 0,
            result_files: 0,
            total_matches: 0,
            skipped_oversized: 0,
            stopped_on_binary: 0,
            timed_out: false,
            cancelled: false,
            files_capped: false,
            matches_capped: false,
            partly_read: false,
            failed: false,
        }
    }
}

/// Whether a search ends before the next file, and what it has come to then: the first reason there
/// is counts.
pub open spec fn stopped(s: SearchState, limits: GrepLimits, cancel: bool, late: bool) -> (bool, SearchState) {
    if s.failed {
        (true, s)
    } else if cancel {
        (true, SearchState { cancelled: true, ..s })
    } else if late {
        (true, SearchState { timed_out: true, ..s })
    } else if s.result_files >= limits.max_files {
        (true, SearchState { files_capped: true, ..s })
    } else if s.total_matches >= limits.max_total_matches {
        (true, SearchState { matches_capped: true, ..s })
    } else {
        (false, s)
    }
}

/// One more, as far as can be counted.
pub open spec fn one_more(n: u64) -> u64 {
    if n < u64::MAX {
        (n + 1) as u64
    } else {
        n
    }
}

/// How many of `n` matches there is room for.
pub open spec fn room(s: SearchState, limits: GrepLimits, n: nat) -> nat {
    let left = if s.total_matches < limits.max_total_matches {
        (limits.max_total_matches - s.total_matches) as nat
    } else {
        0
    };
    if n <= left {
        n
    } else {
        left
    }
}

/// What becomes of the matches of a file that was searched: those of it that are kept, and what the
/// search has come to then. A file without matches takes no room.
pub open spec fn admitted(
    s: SearchState,
    limits: GrepLimits,
    path: Seq<Seq<char>>,
    matches: Seq<LineMatchView>,
    truncated: bool,
    binary: bool,
) -> (Option<FileView>, SearchState) {
    let seen = SearchState {
        files_searched: one_more(s.files_searched),
        stopped_on_binary: if binary {
            one_more(s.stopped_on_binary)
        } else {
            s.stopped_on_binary
        },
        ..s
    };
    if matches.len() == 0 {
        (None, seen)
    } else if s.result_files >= limits.max_files {
        (None, SearchState { files_capped: true, ..seen })
    } else {
        let n = room(s, limits, matches.len());
        (
            Some(
                FileView {
                    path,
                    matches: matches.take(n as int),
                    truncated: truncated || n < matches.len(),
                },
            ),
            SearchState {
                result_files: (s.result_files + 1) as usize,
                total_matches: (s.total_matches + n) as usize,
                matches_capped: s.matches_capped || n < matches.len(),
                ..seen
            },
        )
    }
}

/// What a search has come to after a file of which perhaps only a part was searched.
pub open spec fn read_in_part(s: SearchState, part: bool) -> SearchState {
    SearchState { partly_read: s.partly_read || part, ..s }
}

/// One more, as far as can be counted.
fn add_one(n: u64) -> (r: u64)
    ensures
        r == one_more(n),
{
    if n < u64::MAX {
        n + 1
    } else {
        n
    }
}

impl SearchState {
    /// Whether the search ends before the next file. `cancel` is whether the user wants it to end,
    /// `late` whether the time is over.
    pub fn should_stop(&mut self, limits: &GrepLimits, cancel: bool, late: bool) -> (r: bool)
        ensures
            (r, *final(self)) == stopped(*old(self), *limits, cancel, late),
    {
        if self.failed {
            return true;
        }
        if cancel {
            self.cancelled = true;
            return true;
        }
        if late {
            self.timed_out = true;
            return true;
        }
        if self.result_files >= limits.max_files {
            self.files_capped = true;
            return true;
        }
        if self.total_matches >= limits.max_total_matches {
            self.matches_capped = true;
            return true;
        }
        false
    }

    /// Something went wrong that ends the search.
    pub fn fail(&mut self)
        ensures
            *final(self) == (SearchState { failed: true, ..*old(self) }),
    {
        self.failed = true;
    }

    /// A file that was too large was not searched at all.
    pub fn skip_oversized(&mut self)
        ensures
            *final(self) == (SearchState {
                skipped_oversized: one_more(old(self).skipped_oversized),
                ..*old(self)
            }),
    {
        self.skipped_oversized = add_one(self.skipped_oversized);
    }

    /// Takes what was found in a file.
    pub fn take_in(&mut self, limits: &GrepLimits, path: Vec<String>, sink: LineSink) -> (r: Option<
        FileMatches,
    >)
        ensures
            ({
                let (file, after) = admitted(
                    *old(self),
                    *limits,
                    texts(path@),
                    lines_view(sink.matches@),
                    sink.truncated,
                    sink.binary_detected,
                );
                &&& *final(self) == after
                &&& match r {
                    Some(f) => file == Some(f@),
                    None => file is None,
                }
            }),
    {
        self.files_searched = add_one(self.files_searched);
        if sink.binary_detected {
            self.stopped_on_binary = add_one(self.stopped_on_binary);
        }
        let total: usize = sink.matches.len();
        if total == 0 {
            return None;
        }
        if self.result_files >= limits.max_files {
            self.files_capped = true;
            return None;
        }
        self.result_files = self.result_files + 1;
        let left: usize = if self.total_matches < limits.max_total_matches {
            limits.max_total_matches - self.total_matches
        } else {
            0
        };
        let n: usize = if total <= left {
            total
        } else {
            left
        };
        let mut matches = sink.matches;
        let ghost all = lines_view(matches@);
        matches.truncate(n);
        assert(lines_view(matches@) =~= all.take(n as int));
        self.total_matches = self.total_matches + n;
        let mut truncated = sink.truncated;
        if n < total {
            truncated = true;
            self.matches_capped = true;
        }
        Some(FileMatches { path, matches, truncated })
    }
}

/// Whether only the start of a file is searched, after all others.
pub fn is_oversized(size: u64, limits: &GrepLimits) -> (r: bool)
    ensures
        r == (size > limits.max_file_bytes),
{
    size > limits.max_file_bytes
}

// The outcome

/// Where a file belongs among files in order: behind all that do not come after it.
pub open spec fn placed(l: Seq<FileView>, f: FileView) -> Seq<FileView>
    decreases l.len(),
{
    if l.len() == 0 {
        seq![f]
    } else if list_before(f.path, l.last().path) {
        placed(l.drop_last(), f).push(l.last())
    } else {
        l.push(f)
    }
}

/// Files in the order of their paths; those with the same path stay as they are.
pub open spec fn by_path(l: Seq<FileView>) -> Seq<FileView>
    decreases l.len(),
{
    if l.len() == 0 {
        l
    } else {
        placed(by_path(l.drop_last()), l.last())
    }
}

proof fn lemma_placed_at(l: Seq<FileView>, f: FileView, k: int)
    requires
        0 <= k <= l.len(),
        k == 0 || !list_before(f.path, l[k - 1].path),
        forall|j: int| k <= j < l.len() ==> list_before(f.path, (#[trigger] l[j]).path),
    ensures
        placed(l, f) == l.insert(k, f),
    decreases l.len(),
{
    if k == l.len() {
        if l.len() == 0 {
            assert(l.insert(0, f) =~= seq![f]);
        } else {
            assert(l.insert(k, f) =~= l.push(f));
        }
    } else {
        assert(list_before(f.path, l[l.len() - 1].path));
        let m = l.drop_last();
        assert forall|j: int| k <= j < m.len() implies list_before(
            f.path,
            (#[trigger] m[j]).path,
        ) by {
            assert(l[j] == m[j]);
        }
        lemma_placed_at(m, f, k);
        assert(l.insert(k, f) =~= m.insert(k, f).push(l.last()));
    }
}

/// Brings files into the order of their paths.
fn sort_files(files: Vec<FileMatches>) -> (r: Vec<FileMatches>)
    ensures
        files_view(r@) == by_path(files_view(files@)),
{
    let mut rest = files;
    let ghost all = files_view(rest@);
    let mut queue: Vec<FileMatches> = Vec::new();
    // The last file first, so that each can be taken from the end.
    while rest.len() > 0
        invariant
            files_view(rest@) == all.take(rest@.len() as int),
            files_view(queue@) == all.skip(rest@.len() as int).reverse(),
            rest@.len() <= all.len(),
        decreases rest@.len(),
    {
        let ghost n = rest@.len() as int;
        let ghost before = files_view(queue@);
        let ghost rest0 = rest@;
        if let Some(f) = rest.pop() {
            assert(f == rest0[n - 1]);
            assert(files_view(rest0)[n - 1] == f@);
            assert(all[n - 1] == f@);
            queue.push(f);
            assert(files_view(rest@) =~= all.take(n - 1));
            assert(files_view(queue@) =~= before.push(f@));
            assert(all.skip(n - 1) =~= seq![f@] + all.skip(n));
            assert(all.skip(n - 1).reverse() =~= all.skip(n).reverse().push(f@));
        }
    }
    let mut r: Vec<FileMatches> = Vec::new();
    assert(all.skip(0) =~= all);
    assert(files_view(r@) =~= by_path(all.take(0)));
    let total: usize = queue.len();
    let mut done: usize = 0;
    while done < total
        invariant
            done <= total,
            total == all.len(),
            queue@.len() == total - done,
            files_view(queue@) == all.skip(done as int).reverse(),
            files_view(r@) == by_path(all.take(done as int)),
        decreases total - done,
    {
        let ghost queue0 = queue@;
        if let Some(f) = queue.pop() {
            proof {
                assert(files_view(queue0)[queue0.len() - 1] == f@);
                assert(all.skip(done as int).reverse()[queue0.len() - 1] == all[done as int]);
                assert(all[done as int] == f@);
                assert(files_view(queue@) =~= files_view(queue0).drop_last());
                assert(all.skip(done + 1).reverse() =~= all.skip(done as int).reverse().drop_last());
                assert(all.take(done + 1).drop_last() =~= all.take(done as int));
                assert(all.take(done + 1).last() == f@);
            }
            let ghost sorted = files_view(r@);
            let mut k: usize = r.len();
            while k > 0 && later(&r[k - 1], &f)
                invariant
                    k <= r@.len(),
                    sorted == files_view(r@),
                    forall|j: int|
                        k <= j < sorted.len() ==> list_before(f@.path, (#[trigger] sorted[j]).path),
                decreases k,
            {
                assert(sorted[k - 1] == r@[k - 1]@);
                k -= 1;
            }
            proof {
                if k > 0 {
                    assert(sorted[k - 1] == r@[k - 1]@);
                }
                lemma_placed_at(sorted, f@, k as int);
            }
            let ghost r0 = r@;
            r.insert(k, f);
            assert(files_view(r@) =~= files_view(r0).insert(k as int, f@));
        }
        done += 1;
    }
    assert(all.take(total as int) =~= all);
    r
}

/// Whether a file comes after another.
fn later(a: &FileMatches, b: &FileMatches) -> (r: bool)
    ensures
        r == list_before(b@.path, a@.path),
{
    proof {
        lemma_list_total(b@.path, a@.path);
    }
    match rank_lists(&b.path, &a.path) {
        Rank::Before => true,
        _ => false,
    }
}

/// Whether more may have been found than is told.
pub open spec fn is_partial(s: SearchState, files: Seq<FileView>) -> bool {
    ||| exists|i: int| 0 <= i < files.len() && (#[trigger] files[i]).truncated
    ||| s.files_capped
    ||| s.matches_capped
    ||| s.timed_out
    ||| s.cancelled
    ||| s.skipped_oversized > 0
    ||| s.partly_read
}

/// What came of a search.
fn outcome_of(state: &SearchState, files: Vec<FileMatches>, kind: MatcherKind) -> (r: GrepOutcome)
    ensures
        files_view(r.files@) == by_path(files_view(files@)),
        r.files_searched == state.files_searched,
        r.total_matches == state.total_matches,
        r.truncated == is_partial(*state, files_view(files@)),
        r.skipped_oversized == state.skipped_oversized,
        r.stopped_on_binary == state.stopped_on_binary,
        r.timed_out == state.timed_out,
        r.matcher == kind,
{
    let ghost all = files_view(files@);
    let mut truncated = state.files_capped || state.matches_capped || state.timed_out
        || state.cancelled || state.skipped_oversized > 0 || state.partly_read;
    let mut i: usize = 0;
    while i < files.len()
        invariant
            i <= files@.len(),
            all == files_view(files@),
            truncated == (state.files_capped || state.matches_capped || state.timed_out
                || state.cancelled || state.skipped_oversized > 0 || state.partly_read
                || exists|j: int| 0 <= j < i && (#[trigger] all[j]).truncated),
        decreases files@.len() - i,
    {
        assert(all[i as int] == files@[i as int]@);
        if files[i].truncated {
            truncated = true;
        }
        i += 1;
    }
    GrepOutcome {
        files: sort_files(files),
        files_searched: state.files_searched,
        total_matches: state.total_matches,
        truncated,
        skipped_oversized: state.skipped_oversized,
        stopped_on_binary: state.stopped_on_binary,
        timed_out: state.timed_out,
        matcher: kind,
    }
}

// The run

/// An entry that a walk comes to.
#[derive(Debug)]
pub enum Entry {
    /// It cannot be looked at. Where it is gone or not allowed, that is no error.
    Unreachable { benign: bool, reason: String },
    /// It is no file.
    Other,
    /// A file, with the texts of the steps to it.
    File { path: Vec<String>, size: u64 },
}

/// What came of opening and searching a file.
#[derive(Debug)]
pub enum Opened {
    /// It is gone or not allowed.
    Skipped,
    /// It cannot be opened, and why.
    Failed(String),
    Searched(LineSink),
}

/// A search that goes on.
#[derive(Debug)]
pub struct Search {
    pub limits: GrepLimits,
    pub state: SearchState,
    pub files: Vec<FileMatches>,
    /// The files that are too large, whose start is searched after all others.
    pub deferred: Vec<Vec<String>>,
    /// Whether the search has come to those.
    pub only_starts: bool,
    /// What went wrong first.
    pub fatal: Option<GrepError>,
}

/// What ways are.
pub open spec fn ways(l: Seq<Vec<String>>) -> Seq<Seq<Seq<char>>> {
    Seq::new(l.len(), |i: int| texts(l[i]@))
}

/// `k` more, as far as can be counted.
pub open spec fn many_more(n: u64, k: nat) -> u64 {
    if n + k <= u64::MAX {
        (n + k) as u64
    } else {
        u64::MAX
    }
}

/// The error that counts: the first.
pub open spec fn first_error(fatal: Option<GrepError>, e: GrepError) -> Option<GrepError> {
    match fatal {
        Some(first) => Some(first),
        None => Some(e),
    }
}

impl Search {
    /// Whether it is known that something went wrong where something did.
    pub open spec fn wf(&self) -> bool {
        self.state.failed == (self.fatal is Some)
    }

    /// A search that has not begun.
    pub fn new(limits: GrepLimits) -> (r: Self)
        ensures
            r.wf(),
            r.limits == limits,
            r.state == fresh(),
            r.files@.len() == 0,
            r.deferred@.len() == 0,
            !r.only_starts,
            r.fatal is None,
    {
        Search {
            limits,
            state: SearchState::default(),
            files: Vec::new(),
            deferred: Vec::new(),
            only_starts: false,
            fatal: None,
        }
    }

    /// Whether the walk ends. `cancel` is whether the user wants it to end, `late` whether the time
    /// is over.
    pub fn ends(&mut self, cancel: bool, late: bool) -> (r: bool)
        requires
            old(self).wf(),
        ensures
            final(self).wf(),
            (r, final(self).state) == stopped(old(self).state, old(self).limits, cancel, late),
            final(self).limits == old(self).limits,
            final(self).only_starts == old(self).only_starts,
            final(self).files == old(self).files,
            final(self).deferred == old(self).deferred,
            final(self).fatal == old(self).fatal,
    {
        let limits = self.limits;
        self.state.should_stop(&limits, cancel, late)
    }

    /// Something went wrong that ends the search. The first thing counts.
    fn give_up(&mut self, e: GrepError)
        requires
            old(self).wf(),
        ensures
            final(self).wf(),
            final(self).state == (SearchState { failed: true, ..old(self).state }),
            final(self).limits == old(self).limits,
            final(self).only_starts == old(self).only_starts,
            final(self).files == old(self).files,
            final(self).deferred == old(self).deferred,
            final(self).fatal == first_error(old(self).fatal, e),
    {
        self.state.fail();
        if self.fatal.is_none() {
            self.fatal = Some(e);
        }
    }

    /// Takes an entry of the walk. Gives the file that is to be searched now, if it is one.
    pub fn offer(&mut self, cancel: bool, late: bool, entry: Entry) -> (r: Option<Vec<String>>)
        requires
            old(self).wf(),
        ensures
            final(self).wf(),
            final(self).limits == old(self).limits,
            final(self).only_starts == old(self).only_starts,
            final(self).files == old(self).files,
            ({
                let (stop, s) = stopped(old(self).state, old(self).limits, cancel, late);
                let large = match entry {
                    Entry::File { size, .. } => size > old(self).limits.max_file_bytes,
                    _ => false,
                };
                let worse = match entry {
                    Entry::Unreachable { benign, .. } => !benign,
                    _ => false,
                };
                &&& r is Some <==> !stop && entry is File && !large
                &&& r matches Some(path) ==> Some(path) == (match entry {
                    Entry::File { path: p, .. } => Some(p),
                    _ => None,
                })
                &&& ways(final(self).deferred@) == if !stop && large {
                    ways(old(self).deferred@).push(texts(entry->path@))
                } else {
                    ways(old(self).deferred@)
                }
                &&& final(self).state == if !stop && worse {
                    SearchState { failed: true, ..s }
                } else {
                    s
                }
                &&& final(self).fatal == if !stop && worse {
                    first_error(old(self).fatal, GrepError::Walk { reason: entry->reason })
                } else {
                    old(self).fatal
                }
            }),
    {
        if self.ends(cancel, late) {
            return None;
        }
        match entry {
            Entry::Unreachable { benign, reason } => {
                if !benign {
                    self.give_up(GrepError::Walk { reason });
                }
                None
            },
            Entry::Other => None,
            Entry::File { path, size } => {
                if is_oversized(size, &self.limits) {
                    let ghost before = ways(self.deferred@);
                    let ghost way = texts(path@);
                    self.deferred.push(path);
                    assert(ways(self.deferred@) =~= before.push(way));
                    return None;
                }
                Some(path)
            },
        }
    }

    /// Takes what came of a file. `shown` is the file for people.
    pub fn opened(&mut self, path: Vec<String>, shown: String, result: Opened)
        requires
            old(self).wf(),
        ensures
            final(self).wf(),
            final(self).limits == old(self).limits,
            final(self).only_starts == old(self).only_starts,
            final(self).deferred == old(self).deferred,
            match result {
                Opened::Skipped => final(self).state == old(self).state && final(self).files
                    == old(self).files && final(self).fatal == old(self).fatal,
                Opened::Failed(why) => {
                    &&& final(self).state == (SearchState { failed: true, ..old(self).state })
                    &&& final(self).files == old(self).files
                    &&& final(self).fatal == first_error(
                        old(self).fatal,
                        GrepError::Io { path: shown, reason: why },
                    )
                },
                Opened::Searched(sink) => {
                    let (file, s) = admitted(
                        old(self).state,
                        old(self).limits,
                        texts(path@),
                        lines_view(sink.matches@),
                        sink.truncated,
                        sink.binary_detected,
                    );
                    &&& final(self).state == read_in_part(s, old(self).only_starts)
                    &&& final(self).fatal == old(self).fatal
                    &&& files_view(final(self).files@) == match file {
                        Some(f) => files_view(old(self).files@).push(f),
                        None => files_view(old(self).files@),
                    }
                },
            },
    {
        match result {
            Opened::Skipped => {},
            Opened::Failed(reason) => {
                self.give_up(GrepError::Io { path: shown, reason });
            },
            Opened::Searched(sink) => {
                let limits = self.limits;
                let ghost before = files_view(self.files@);
                if let Some(f) = self.state.take_in(&limits, path, sink) {
                    self.files.push(f);
                    assert(files_view(self.files@) =~= before.push(f@));
                }
                if self.only_starts {
                    self.state.partly_read = true;
                }
            },
        }
    }

    /// The files whose start is searched now. Where the search ends before them all are left out.
    pub fn begin_deferred(&mut self, cancel: bool, late: bool) -> (r: Vec<Vec<String>>)
        requires
            old(self).wf(),
        ensures
            final(self).wf(),
            final(self).limits == old(self).limits,
            final(self).only_starts,
            final(self).files == old(self).files,
            final(self).fatal == old(self).fatal,
            final(self).deferred@.len() == 0,
            ({
                let (stop, s) = stopped(old(self).state, old(self).limits, cancel, late);
                if old(self).deferred@.len() == 0 {
                    r@.len() == 0 && final(self).state == old(self).state
                } else if stop {
                    r@.len() == 0 && final(self).state == (SearchState {
                        skipped_oversized: many_more(s.skipped_oversized, old(self).deferred@.len()),
                        ..s
                    })
                } else {
                    r == old(self).deferred && final(self).state == s
                }
            }),
    {
        self.only_starts = true;
        let mut list: Vec<Vec<String>> = Vec::new();
        std::mem::swap(&mut list, &mut self.deferred);
        if list.len() == 0 {
            return list;
        }
        if self.ends(cancel, late) {
            let n: u64 = list.len() as u64;
            self.state.skipped_oversized = match self.state.skipped_oversized.checked_add(n) {
                Some(x) => x,
                None => u64::MAX,
            };
            return Vec::new();
        }
        list
    }

    /// Whether the start of the next file that is too large is searched.
    pub fn enter_deferred(&mut self, cancel: bool, late: bool) -> (r: bool)
        requires
            old(self).wf(),
        ensures
            final(self).wf(),
            final(self).limits == old(self).limits,
            final(self).only_starts == old(self).only_starts,
            final(self).files == old(self).files,
            final(self).deferred == old(self).deferred,
            final(self).fatal == old(self).fatal,
            ({
                let (stop, s) = stopped(old(self).state, old(self).limits, cancel, late);
                &&& r == !stop
                &&& final(self).state == if stop {
                    SearchState { skipped_oversized: one_more(s.skipped_oversized), ..s }
                } else {
                    s
                }
            }),
    {
        if self.ends(cancel, late) {
            self.state.skip_oversized();
            return false;
        }
        true
    }

    /// What came of it.
    pub fn conclude(self, kind: MatcherKind) -> (r: Result<GrepOutcome, GrepError>)
        ensures
            match r {
                Err(e) => self.fatal == Some(e),
                Ok(o) => {
                    let files = files_view(self.files@);
                    &&& self.fatal is None
                    &&& files_view(o.files@) == by_path(files)
                    &&& o.files_searched == self.state.files_searched
                    &&& o.total_matches == self.state.total_matches
                    &&& o.truncated == is_partial(self.state, files)
                    &&& o.skipped_oversized == self.state.skipped_oversized
                    &&& o.stopped_on_binary == self.state.stopped_on_binary
                    &&& o.timed_out == self.state.timed_out
                    &&& o.matcher == kind
                },
            },
    {
        match self.fatal {
            Some(e) => Err(e),
            None => Ok(outcome_of(&self.state, self.files, kind)),
        }
    }
}

// Laws

/// A file without matches takes no room: what it leaves is what was there, but for the counts of
/// files that were searched.
pub proof fn lemma_no_match_takes_no_room(
    s: SearchState,
    limits: GrepLimits,
    path: Seq<Seq<char>>,
    truncated: bool,
    binary: bool,
)
    ensures
        ({
            let (file, after) = admitted(s, limits, path, Seq::empty(), truncated, binary);
            &&& file is None
            &&& after.result_files == s.result_files
            &&& after.total_matches == s.total_matches
            &&& after.files_capped == s.files_capped
            &&& after.matches_capped == s.matches_capped
            &&& stopped(after, limits, false, false).0 == stopped(s, limits, false, false).0
        }),
{
}

/// A search never keeps more files or matches than allowed, and where it leaves a match out it says
/// so.
pub proof fn lemma_limits_hold(
    s: SearchState,
    limits: GrepLimits,
    path: Seq<Seq<char>>,
    matches: Seq<LineMatchView>,
    truncated: bool,
    binary: bool,
)
    requires
        s.result_files <= limits.max_files,
        s.total_matches <= limits.max_total_matches,
    ensures
        ({
            let (file, after) = admitted(s, limits, path, matches, truncated, binary);
            &&& after.result_files <= limits.max_files
            &&& after.total_matches <= limits.max_total_matches
            &&& match file {
                Some(f) => after.total_matches == s.total_matches + f.matches.len()
                    && (f.matches.len() < matches.len() ==> f.truncated && after.matches_capped),
                None => matches.len() > 0 ==> after.files_capped,
            }
        }),
{
}

/// What happens to a search.
pub enum SearchEvent {
    /// It asks whether it should end.
    Asked { cancel: bool, late: bool },
    /// A file was searched.
    Searched {
        path: Seq<Seq<char>>,
        matches: Seq<LineMatchView>,
        truncated: bool,
        binary: bool,
        /// Whether only its start was searched.
        part: bool,
    },
    /// A file that is too large is left out.
    Oversized,
    /// Something goes wrong that ends it.
    Failed,
}

/// What a search has come to after an event: the files that it keeps, and how far it is.
pub open spec fn after_event(
    at: (Seq<FileView>, SearchState),
    limits: GrepLimits,
    e: SearchEvent,
) -> (Seq<FileView>, SearchState) {
    match e {
        SearchEvent::Asked { cancel, late } => (at.0, stopped(at.1, limits, cancel, late).1),
        SearchEvent::Searched { path, matches, truncated, binary, part } => {
            let (file, s) = admitted(at.1, limits, path, matches, truncated, binary);
            match file {
                Some(f) => (at.0.push(f), read_in_part(s, part)),
                None => (at.0, read_in_part(s, part)),
            }
        },
        SearchEvent::Oversized => (
            at.0,
            SearchState { skipped_oversized: one_more(at.1.skipped_oversized), ..at.1 },
        ),
        SearchEvent::Failed => (at.0, SearchState { failed: true, ..at.1 }),
    }
}

/// What a search comes to.
pub open spec fn search(limits: GrepLimits, events: Seq<SearchEvent>) -> (
    Seq<FileView>,
    SearchState,
)
    decreases events.len(),
{
    if events.len() == 0 {
        (Seq::empty(), fresh())
    } else {
        after_event(search(limits, events.drop_last()), limits, events.last())
    }
}

/// How many matches files have together.
pub open spec fn match_count(l: Seq<FileView>) -> nat
    decreases l.len(),
{
    if l.len() == 0 {
        0
    } else {
        match_count(l.drop_last()) + l.last().matches.len()
    }
}

/// All files that were searched and have matches.
pub open spec fn found_files(events: Seq<SearchEvent>) -> Seq<FileView>
    decreases events.len(),
{
    if events.len() == 0 {
        Seq::empty()
    } else {
        let before = found_files(events.drop_last());
        match events.last() {
            SearchEvent::Searched { path, matches, truncated, .. } if matches.len() > 0 => {
                before.push(FileView { path, matches, truncated })
            },
            _ => before,
        }
    }
}

/// However a search goes, it keeps no more files and matches than allowed, and the counts are those
/// of what it keeps.
pub proof fn lemma_search_is_bounded(limits: GrepLimits, events: Seq<SearchEvent>)
    ensures
        ({
            let (files, s) = search(limits, events);
            &&& files.len() == s.result_files <= limits.max_files
            &&& match_count(files) == s.total_matches <= limits.max_total_matches
        }),
    decreases events.len(),
{
    if events.len() > 0 {
        let before = search(limits, events.drop_last());
        lemma_search_is_bounded(limits, events.drop_last());
        if let SearchEvent::Searched { path, matches, truncated, binary, .. } = events.last() {
            let (file, s) = admitted(before.1, limits, path, matches, truncated, binary);
            if let Some(f) = file {
                assert(before.0.push(f).drop_last() =~= before.0);
            }
        }
    }
}

/// A search that does not say that it left something out keeps every file that has matches, with all
/// of them.
pub proof fn lemma_search_leaves_nothing_out(limits: GrepLimits, events: Seq<SearchEvent>)
    requires
        !search(limits, events).1.files_capped,
        !search(limits, events).1.matches_capped,
    ensures
        search(limits, events).0 == found_files(events),
    decreases events.len(),
{
    if events.len() > 0 {
        let before = search(limits, events.drop_last());
        lemma_search_leaves_nothing_out(limits, events.drop_last());
        if let SearchEvent::Searched { path, matches, truncated, binary, .. } = events.last() {
            let (file, s) = admitted(before.1, limits, path, matches, truncated, binary);
            if let Some(f) = file {
                assert(f.matches =~= matches);
            }
        }
    }
}

/// A search that left something out for a limit says so: a file of which only the start was searched,
/// one that was not searched at all, a file or a match that was not kept.
pub proof fn lemma_search_tells_what_it_leaves_out(limits: GrepLimits, events: Seq<SearchEvent>)
    requires
        !is_partial(search(limits, events).1, search(limits, events).0),
    ensures
        search(limits, events).0 == found_files(events),
        forall|i: int|
            0 <= i < events.len() ==> (#[trigger] events[i]) !is Oversized && !(events[i] matches SearchEvent::Searched {
                part,
                ..
            } && part),
{
    lemma_search_leaves_nothing_out(limits, events);
    lemma_parts_are_told(limits, events);
}

proof fn lemma_parts_are_told(limits: GrepLimits, events: Seq<SearchEvent>)
    requires
        !search(limits, events).1.partly_read,
        search(limits, events).1.skipped_oversized == 0,
    ensures
        forall|i: int|
            0 <= i < events.len() ==> (#[trigger] events[i]) !is Oversized && !(events[i] matches SearchEvent::Searched {
                part,
                ..
            } && part),
    decreases events.len(),
{
    if events.len() > 0 {
        let front = events.drop_last();
        lemma_parts_are_told(limits, front);
        assert forall|i: int| 0 <= i < events.len() implies (#[trigger] events[i]) !is Oversized
            && !(events[i] matches SearchEvent::Searched { part, .. } && part) by {
            if i < front.len() {
                assert(front[i] == events[i]);
            }
        }
    }
}

/// Whether files are in the order of their paths.
pub open spec fn is_sorted(l: Seq<FileView>) -> bool {
    forall|i: int, j: int|
        0 <= i < j < l.len() ==> !list_before((#[trigger] l[j]).path, (#[trigger] l[i]).path)
}

proof fn lemma_placed_sorted(l: Seq<FileView>, f: FileView)
    requires
        is_sorted(l),
    ensures
        is_sorted(placed(l, f)),
        placed(l, f).to_multiset() == l.to_multiset().insert(f),
        forall|i: int|
            0 <= i < placed(l, f).len() ==> placed(l, f)[i] == f || l.contains(
                #[trigger] placed(l, f)[i],
            ),
    decreases l.len(),
{
    broadcast use vstd::seq_lib::group_to_multiset_ensures;

    let r = placed(l, f);
    if l.len() == 0 {
        assert(r =~= l.push(f));
    } else if list_before(f.path, l.last().path) {
        let m = l.drop_last();
        let q = placed(m, f);
        assert(is_sorted(m)) by {
            assert forall|i: int, j: int| 0 <= i < j < m.len() implies !list_before(
                (#[trigger] m[j]).path,
                (#[trigger] m[i]).path,
            ) by {
                assert(l[j] == m[j] && l[i] == m[i]);
            }
        }
        lemma_placed_sorted(m, f);
        assert(l =~= m.push(l.last()));
        assert(r.to_multiset() =~= l.to_multiset().insert(f));
        assert forall|i: int, j: int| 0 <= i < j < r.len() implies !list_before(
            (#[trigger] r[j]).path,
            (#[trigger] r[i]).path,
        ) by {
            if j == r.len() - 1 {
                if q[i] == f {
                    lemma_list_total(f.path, l.last().path);
                } else {
                    assert(m.contains(q[i]));
                    let k = choose|k: int| 0 <= k < m.len() && m[k] == q[i];
                    assert(l[k] == q[i]);
                    assert(!list_before(l[l.len() - 1].path, l[k].path));
                }
            } else {
                assert(q[j] == r[j] && q[i] == r[i]);
            }
        }
        assert forall|i: int| 0 <= i < r.len() implies r[i] == f || l.contains(#[trigger] r[i]) by {
            if i < q.len() {
                assert(q[i] == r[i]);
                if q[i] != f {
                    let k = choose|k: int| 0 <= k < m.len() && m[k] == q[i];
                    assert(l[k] == r[i]);
                }
            } else {
                assert(l[l.len() - 1] == r[i]);
            }
        }
    } else {
        assert forall|i: int, j: int| 0 <= i < j < r.len() implies !list_before(
            (#[trigger] r[j]).path,
            (#[trigger] r[i]).path,
        ) by {
            if j == r.len() - 1 {
                let last = l[l.len() - 1];
                lemma_list_total(f.path, last.path);
                if i < l.len() - 1 {
                    assert(!list_before(last.path, l[i].path));
                    if list_before(f.path, l[i].path) {
                        lemma_list_total(last.path, l[i].path);
                        if last.path != l[i].path {
                            assert(list_before(l[i].path, last.path));
                            lemma_list_transitive(f.path, l[i].path, last.path);
                        }
                    }
                }
            } else {
                assert(r[j] == l[j] && r[i] == l[i]);
            }
        }
    }
}

/// To bring files into order changes nothing but their order.
pub proof fn lemma_by_path(l: Seq<FileView>)
    ensures
        is_sorted(by_path(l)),
        by_path(l).to_multiset() == l.to_multiset(),
    decreases l.len(),
{
    broadcast use vstd::seq_lib::group_to_multiset_ensures;

    if l.len() > 0 {
        lemma_by_path(l.drop_last());
        lemma_placed_sorted(by_path(l.drop_last()), l.last());
        assert(l =~= l.drop_last().push(l.last()));
    }
}

} // verus!
