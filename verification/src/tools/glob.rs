//! The tool that finds files by their names.

use std::collections::HashMap;

use vstd::prelude::*;

use crate::digest::{hash_texts, texts_digest};
use crate::globs::{rule_error, rule_problem};
use crate::order::{
    lemma_list_total, lemma_list_transitive, list_before, rank_lists, Rank,
};
use crate::schema::json::{as_unsigned, member, Json, JsonView};
use crate::strings::{chars_of, dec, join_texts, joined, opt_view, push_dec, texts};
use crate::tools::approval::{ApprovalDecision, Concurrency, Tier};
use crate::tools::grep::{
    flag_at, flag_of, missing_note, missing_text, path_arg, raw_path, show_file, shown_file, solid,
    solid_text, unsigned,
};
use crate::tools::output::{cleaned, error, finish, ToolError, ToolOutput};
use crate::tools::targets::{describe_path_error, path_error_text, Target, TargetView};
use crate::workspace::{led, normal, parts_view, Part, PartView, PathError, Workspace};

verus! {

broadcast use {
    vstd::seq::group_seq_axioms,
    vstd::std_specs::hash::group_hash_axioms,
};

/// How many results there are where nothing else is asked for.
pub const DEFAULT_LIMIT: usize = 200;

/// How many results there may be.
pub const MAX_LIMIT: usize = 200;

/// How long a search may take, in seconds.
pub const GLOB_TIMEOUT_SECS: u64 = 5;

/// To look for files changes nothing.
pub fn glob_approval() -> (r: ApprovalDecision)
    ensures
        r.tier == Tier::Read,
        !r.override_mode,
        r.reason is None,
{
    ApprovalDecision::tier(Tier::Read)
}

/// Searches may run beside others.
pub fn glob_concurrency() -> (r: Concurrency)
    ensures
        r == Concurrency::Shared,
{
    Concurrency::Shared
}

// The arguments

/// What is asked for.
#[derive(Debug, Clone, PartialEq, Eq)]
pub struct GlobArgs {
    pub pattern: String,
    pub raw_path: String,
    pub include_hidden: bool,
    pub respect_gitignore: bool,
    /// How many results there may be.
    pub effective_limit: usize,
}

/// How many results there may be: at least one, and no more than [`MAX_LIMIT`].
pub open spec fn clamped(requested: Option<nat>) -> nat {
    match requested {
        None => DEFAULT_LIMIT as nat,
        Some(n) => if n < 1 {
            1
        } else if n > MAX_LIMIT {
            MAX_LIMIT as nat
        } else {
            n
        },
    }
}

/// How many results there may be.
pub fn clamp_limit(requested: Option<usize>) -> (r: usize)
    ensures
        r == clamped(
            match requested {
                Some(n) => Some(n as nat),
                None => None,
            },
        ),
{
    match requested {
        None => DEFAULT_LIMIT,
        Some(n) => if n < 1 {
            1
        } else if n > MAX_LIMIT {
            MAX_LIMIT
        } else {
            n
        },
    }
}

/// How many results the arguments ask for.
pub open spec fn limit_arg(v: JsonView) -> Result<Option<nat>, Seq<char>> {
    match member(v, "limit"@) {
        None | Some(JsonView::Null) => Ok(None),
        Some(x) => match as_unsigned(x) {
            None => Err("`limit` 必须是正整数"@),
            Some(n) => if n == 0 {
                Err("`limit` 必须是正整数"@)
            } else if n > usize::MAX {
                Err("`limit` 超出可表示范围"@)
            } else {
                Ok(Some(n as nat))
            },
        },
    }
}

/// A flag, or else yes.
pub open spec fn yes_unless(f: Option<bool>) -> bool {
    match f {
        Some(b) => b,
        None => true,
    }
}

/// Reads the arguments.
pub fn parse_args(args: &Json) -> (r: Result<GlobArgs, ToolError>)
    ensures
        ({
            let pattern = solid_text(member(args@, "pattern"@));
            match r {
                Ok(a) => {
                    &&& pattern == Some(a.pattern@)
                    &&& a.raw_path@ == path_arg(args@)
                    &&& a.include_hidden == yes_unless(flag_of(member(args@, "hidden"@)))
                    &&& a.respect_gitignore == yes_unless(flag_of(member(args@, "gitignore"@)))
                    &&& limit_arg(args@) matches Ok(n) && a.effective_limit == clamped(n)
                },
                Err(e) => {
                    &&& pattern is None || limit_arg(args@) is Err
                    &&& e matches ToolError::Failed(text) && text@ == cleaned(
                        if pattern is None {
                            "`pattern` 不能为空"@
                        } else {
                            limit_arg(args@)->Err_0
                        },
                    )
                },
            }
        }),
{
    let pattern = match solid(args.get("pattern")) {
        Some(s) => s,
        None => {
            return Err(error("`pattern` 不能为空"));
        },
    };
    let include_hidden = match flag_at(args, "hidden") {
        Some(b) => b,
        None => true,
    };
    let respect_gitignore = match flag_at(args, "gitignore") {
        Some(b) => b,
        None => true,
    };
    let requested: Option<usize> = match args.get("limit") {
        None => None,
        Some(Json::Null) => None,
        Some(value) => match unsigned(value) {
            None => {
                return Err(error("`limit` 必须是正整数"));
            },
            Some(n) => {
                if n == 0 {
                    return Err(error("`limit` 必须是正整数"));
                }
                if n > usize::MAX as u64 {
                    return Err(error("`limit` 超出可表示范围"));
                }
                Some(n as usize)
            },
        },
    };
    Ok(
        GlobArgs {
            pattern,
            raw_path: raw_path(args),
            include_hidden,
            respect_gitignore,
            effective_limit: clamp_limit(requested),
        },
    )
}

// The targets

/// Whether a text is slashes and nothing else.
pub open spec fn only_slashes(s: Seq<char>) -> bool {
    s.len() > 0 && forall|i: int| 0 <= i < s.len() ==> #[trigger] s[i] == '/'
}

/// Slashes and nothing else are meant as the workspace.
pub fn normalize_root_alias<'a>(raw: &'a str) -> (r: &'a str)
    ensures
        r@ == if only_slashes(raw@) {
            "."@
        } else {
            raw@
        },
{
    let letters = chars_of(raw);
    if letters.len() == 0 {
        return raw;
    }
    let mut i: usize = 0;
    while i < letters.len()
        invariant
            i <= letters@.len(),
            letters@ == raw@,
            forall|j: int| 0 <= j < i ==> #[trigger] raw@[j] == '/',
        decreases letters@.len() - i,
    {
        if letters[i] != '/' {
            assert(raw@[i as int] != '/');
            return raw;
        }
        i += 1;
    }
    "."
}

/// Whether nothing is above a path.
pub open spec fn has_no_parent(path: Seq<PartView>) -> bool {
    path.len() == 0 || path.last() is Root || path.last() is Prefix
}

/// Whether nothing is above a path.
pub fn is_filesystem_root(path: &Vec<Part>) -> (r: bool)
    ensures
        r == has_no_parent(parts_view(path@)),
{
    let n: usize = path.len();
    if n == 0 {
        return true;
    }
    assert(parts_view(path@).last() == path@[n - 1]@);
    match &path[n - 1] {
        Part::Root => true,
        Part::Prefix(_) => true,
        _ => false,
    }
}

/// Where a target leads.
pub open spec fn glob_path(workspace: &Workspace, raw: Seq<char>) -> Seq<PartView> {
    normal(
        led(
            workspace.home(),
            if only_slashes(raw) {
                "."@
            } else {
                raw
            },
        ),
    )
}

/// What a target is. The root of the file system is not searched.
pub fn glob_target(workspace: &Workspace, raw: &str) -> (r: Result<Target, ToolError>)
    ensures
        match r {
            Ok(t) => {
                &&& raw@.len() > 0
                &&& !has_no_parent(glob_path(workspace, raw@))
                &&& t@ == (TargetView {
                    raw: raw@,
                    path: glob_path(workspace, raw@),
                    ranges: None,
                })
            },
            Err(e) => {
                &&& raw@.len() == 0 || has_no_parent(glob_path(workspace, raw@))
                &&& e matches ToolError::Failed(text) && text@ == cleaned(
                    if raw@.len() == 0 {
                        path_error_text(PathError::Empty, raw@)
                    } else {
                        "不允许从文件系统根目录搜索，请指定更具体的子目录"@
                    },
                )
            },
        },
{
    let aliased = normalize_root_alias(raw);
    proof {
        reveal_strlit(".");
    }
    match workspace.resolve(aliased) {
        Ok(resolved) => {
            if is_filesystem_root(&resolved.path) {
                return Err(error("不允许从文件系统根目录搜索，请指定更具体的子目录"));
            }
            Ok(Target { raw: raw.to_owned(), path: resolved.path, ranges: None })
        },
        Err(e) => {
            let text = describe_path_error(&e, raw);
            Err(error(text.as_str()))
        },
    }
}

// The walk

/// Something that was found.
#[derive(Debug)]
pub struct GlobHit {
    /// The texts of the steps to it.
    pub path: Vec<String>,
    pub is_dir: bool,
    /// When it was changed, in nanoseconds.
    pub mtime: i128,
}

/// What a [`GlobHit`] is.
#[verifier::ext_equal]
pub struct HitView {
    pub path: Seq<Seq<char>>,
    pub is_dir: bool,
    pub mtime: i128,
}

impl View for GlobHit {
    type V = HitView;

    open spec fn view(&self) -> HitView {
        HitView { path: texts(self.path@), is_dir: self.is_dir, mtime: self.mtime }
    }
}

/// What hits are.
pub open spec fn hits_view(l: Seq<GlobHit>) -> Seq<HitView> {
    Seq::new(l.len(), |i: int| l[i]@)
}

/// What a walk has found.
#[derive(Debug)]
pub struct WalkOutcome {
    pub hits: Vec<GlobHit>,
    /// Whether it ended because the time was over.
    pub timed_out: bool,
}

impl WalkOutcome {
    /// Nothing yet.
    pub fn new() -> (r: Self)
        ensures
            hits_view(r.hits@) == Seq::<HitView>::empty(),
            !r.timed_out,
    {
        let r = WalkOutcome { hits: Vec::new(), timed_out: false };
        assert(hits_view(r.hits@) =~= Seq::<HitView>::empty());
        r
    }

    /// Whether the walk goes on to the next target. Where the user wants it to end that counts as
    /// an incomplete result too.
    pub fn enter_root(&mut self, cancel: bool, late: bool) -> (r: bool)
        ensures
            r == !(cancel || late),
            final(self).hits == old(self).hits,
            final(self).timed_out == (old(self).timed_out || cancel || late),
    {
        if cancel || late {
            self.timed_out = true;
            return false;
        }
        true
    }

    /// Whether the walk goes on to the next entry of a target.
    pub fn enter_entry(&mut self, cancel: bool, late: bool) -> (r: bool)
        ensures
            r == !(cancel || late),
            final(self).hits == old(self).hits,
            final(self).timed_out == (old(self).timed_out || (late && !cancel)),
    {
        if cancel {
            return false;
        }
        if late {
            self.timed_out = true;
            return false;
        }
        true
    }

    /// Takes an entry, `depth` steps below its target. The target itself is no hit.
    pub fn found(&mut self, depth: usize, hit: GlobHit)
        ensures
            final(self).timed_out == old(self).timed_out,
            hits_view(final(self).hits@) == if depth == 0 {
                hits_view(old(self).hits@)
            } else {
                hits_view(old(self).hits@).push(hit@)
            },
    {
        if depth > 0 {
            self.hits.push(hit);
            assert(hits_view(self.hits@) =~= hits_view(old(self).hits@).push(hit@));
        }
    }
}

/// What is said of a pattern that is none.
pub open spec fn no_pattern_text(pattern: Seq<char>, reason: Seq<char>) -> Seq<char> {
    "glob 模式 `"@ + pattern + "` 无效："@ + reason
}

/// What is said of a pattern that is none.
pub fn invalid_pattern(pattern: &str, reason: &str) -> (r: ToolError)
    ensures
        r matches ToolError::Failed(text) && text@ == cleaned(no_pattern_text(pattern@, reason@)),
{
    let mut text = "glob 模式 `".to_owned();
    text.append(pattern);
    text.append("` 无效：");
    text.append(reason);
    error(text.as_str())
}

/// Refuses a pattern that is none.
pub fn check_pattern(pattern: &str) -> (r: Result<(), ToolError>)
    ensures
        match rule_error(pattern@) {
            None => r is Ok,
            Some(reason) => r matches Err(ToolError::Failed(text)) && text@ == cleaned(
                no_pattern_text(pattern@, reason),
            ),
        },
{
    match rule_problem(pattern) {
        None => Ok(()),
        Some(reason) => Err(invalid_pattern(pattern, reason.as_str())),
    }
}

// The order

/// Whether a hit comes before another: the newer one does, and of those of one time the one with the
/// lesser path.
pub open spec fn comes_before(a: HitView, b: HitView) -> bool {
    a.mtime > b.mtime || (a.mtime == b.mtime && list_before(a.path, b.path))
}

/// Where a hit belongs among hits in order: behind all that do not come after it.
pub open spec fn placed(l: Seq<HitView>, h: HitView) -> Seq<HitView>
    decreases l.len(),
{
    if l.len() == 0 {
        seq![h]
    } else if comes_before(h, l.last()) {
        placed(l.drop_last(), h).push(l.last())
    } else {
        l.push(h)
    }
}

/// Hits in order; those that are the same in time and path stay as they are.
pub open spec fn ordered(l: Seq<HitView>) -> Seq<HitView>
    decreases l.len(),
{
    if l.len() == 0 {
        l
    } else {
        placed(ordered(l.drop_last()), l.last())
    }
}

/// Whether a path is among hits.
pub open spec fn has_path(l: Seq<HitView>, path: Seq<Seq<char>>) -> bool {
    exists|i: int| 0 <= i < l.len() && (#[trigger] l[i]).path == path
}

/// The first hit of each path.
pub open spec fn distinct(l: Seq<HitView>) -> Seq<HitView>
    decreases l.len(),
{
    if l.len() == 0 {
        l
    } else if has_path(l.drop_last(), l.last().path) {
        distinct(l.drop_last())
    } else {
        distinct(l.drop_last()).push(l.last())
    }
}

/// Hits in order, each path once.
pub open spec fn ranked(l: Seq<HitView>) -> Seq<HitView> {
    distinct(ordered(l))
}

/// Two runs of hits in order, made one.
pub open spec fn merged(x: Seq<HitView>, y: Seq<HitView>) -> Seq<HitView>
    decreases x.len() + y.len(),
{
    if x.len() == 0 {
        y
    } else if y.len() == 0 {
        x
    } else if comes_before(y.last(), x.last()) {
        merged(x.drop_last(), y).push(x.last())
    } else {
        merged(x, y.drop_last()).push(y.last())
    }
}

/// Of three hits, where the first comes before the third, the second does, or the first before it.
proof fn lemma_between(a: HitView, b: HitView, c: HitView)
    ensures
        comes_before(a, b) && comes_before(b, c) ==> comes_before(a, c),
        !comes_before(a, b) && comes_before(a, c) ==> comes_before(b, c),
{
    lemma_list_total(a.path, b.path);
    lemma_list_total(b.path, c.path);
    lemma_list_total(a.path, c.path);
    if list_before(a.path, b.path) && list_before(b.path, c.path) {
        lemma_list_transitive(a.path, b.path, c.path);
    }
    if list_before(b.path, a.path) && list_before(a.path, c.path) {
        lemma_list_transitive(b.path, a.path, c.path);
    }
}

proof fn lemma_merged_last(x: Seq<HitView>, y: Seq<HitView>)
    requires
        x.len() + y.len() > 0,
    ensures
        merged(x, y).len() > 0,
        (x.len() > 0 && merged(x, y).last() == x.last()) || (y.len() > 0 && merged(x, y).last()
            == y.last()),
{
}

proof fn lemma_merged_placed(x: Seq<HitView>, y: Seq<HitView>, h: HitView)
    ensures
        merged(x, placed(y, h)) == placed(merged(x, y), h),
    decreases x.len() + y.len(),
{
    let grown = placed(y, h);
    if x.len() == 0 {
    } else if y.len() == 0 {
        assert(grown.drop_last() =~= y);
        assert(merged(x.drop_last(), y) =~= x.drop_last());
        if comes_before(h, x.last()) {
            lemma_merged_placed(x.drop_last(), y, h);
        }
    } else if comes_before(h, y.last()) {
        let below = placed(y.drop_last(), h);
        assert(grown.drop_last() =~= below);
        if comes_before(y.last(), x.last()) {
            lemma_between(h, y.last(), x.last());
            lemma_merged_placed(x.drop_last(), y, h);
            assert(merged(x, y).drop_last() =~= merged(x.drop_last(), y));
        } else {
            lemma_merged_placed(x, y.drop_last(), h);
            assert(merged(x, y).drop_last() =~= merged(x, y.drop_last()));
        }
    } else {
        assert(grown.drop_last() =~= y);
        if comes_before(h, x.last()) {
            lemma_between(h, y.last(), x.last());
            lemma_merged_placed(x.drop_last(), y, h);
            assert(merged(x, y).drop_last() =~= merged(x.drop_last(), y));
        } else {
            lemma_merged_last(x, y);
        }
    }
}

proof fn lemma_merged_ordered(a: Seq<HitView>, b: Seq<HitView>)
    ensures
        merged(ordered(a), ordered(b)) == ordered(a + b),
    decreases b.len(),
{
    if b.len() == 0 {
        assert(a + b =~= a);
        assert(ordered(b) =~= Seq::<HitView>::empty());
    } else {
        lemma_merged_ordered(a, b.drop_last());
        lemma_merged_placed(ordered(a), ordered(b.drop_last()), b.last());
        assert((a + b).drop_last() =~= a + b.drop_last());
    }
}

/// Whether a hit comes before another.
fn before(a: &GlobHit, b: &GlobHit) -> (r: bool)
    ensures
        r == comes_before(a@, b@),
{
    proof {
        lemma_list_total(a@.path, b@.path);
    }
    if a.mtime != b.mtime {
        return a.mtime > b.mtime;
    }
    match rank_lists(&a.path, &b.path) {
        Rank::Before => true,
        _ => false,
    }
}

/// Turns hits round.
fn turned(l: Vec<GlobHit>) -> (r: Vec<GlobHit>)
    ensures
        hits_view(r@) == hits_view(l@).reverse(),
{
    let ghost all = hits_view(l@);
    let mut rest = l;
    let mut r: Vec<GlobHit> = Vec::new();
    while rest.len() > 0
        invariant
            rest@.len() <= all.len(),
            hits_view(rest@) == all.take(rest@.len() as int),
            hits_view(r@) == all.skip(rest@.len() as int).reverse(),
        decreases rest@.len(),
    {
        let ghost k = rest@.len() as int;
        let ghost before = hits_view(r@);
        let ghost rest0 = rest@;
        if let Some(h) = rest.pop() {
            assert(hits_view(rest0)[k - 1] == h@);
            r.push(h);
            assert(hits_view(rest@) =~= all.take(k - 1));
            assert(hits_view(r@) =~= before.push(h@));
            assert(all.skip(k - 1) =~= seq![h@] + all.skip(k));
            assert(all.skip(k - 1).reverse() =~= all.skip(k).reverse().push(h@));
        }
    }
    assert(all.skip(0) =~= all);
    r
}

/// Makes two runs of hits in order one.
#[verifier::rlimit(40)]
#[verifier::spinoff_prover]
fn merge(x: Vec<GlobHit>, y: Vec<GlobHit>) -> (r: Vec<GlobHit>)
    ensures
        hits_view(r@) == merged(hits_view(x@), hits_view(y@)),
{
    let ghost all = merged(hits_view(x@), hits_view(y@));
    let mut x = x;
    let mut y = y;
    let mut back: Vec<GlobHit> = Vec::new();
    assert(hits_view(back@).reverse() =~= Seq::<HitView>::empty());
    assert(all + Seq::<HitView>::empty() =~= all);
    while x.len() > 0 || y.len() > 0
        invariant
            all == merged(hits_view(x@), hits_view(y@)) + hits_view(back@).reverse(),
        decreases x@.len() + y@.len(),
    {
        let ghost x0 = hits_view(x@);
        let ghost y0 = hits_view(y@);
        let ghost b0 = hits_view(back@);
        let from_first = if x.len() == 0 {
            false
        } else if y.len() == 0 {
            true
        } else {
            before(&y[y.len() - 1], &x[x.len() - 1])
        };
        let taken = if from_first {
            x.pop()
        } else {
            y.pop()
        };
        if let Some(h) = taken {
            back.push(h);
            proof {
                assert(hits_view(back@) =~= b0.push(h@));
                assert(hits_view(back@).reverse() =~= seq![h@] + b0.reverse());
                let rest = merged(hits_view(x@), hits_view(y@));
                if from_first {
                    assert(h@ == x0.last());
                    assert(hits_view(x@) =~= x0.drop_last());
                    if y0.len() == 0 {
                        assert(rest =~= x0.drop_last());
                    }
                } else {
                    assert(h@ == y0.last());
                    assert(hits_view(y@) =~= y0.drop_last());
                    if x0.len() == 0 {
                        assert(rest =~= y0.drop_last());
                    }
                }
                assert(merged(x0, y0) =~= rest.push(h@));
                assert(rest.push(h@) + b0.reverse() =~= rest + (seq![h@] + b0.reverse()));
            }
        }
    }
    assert(hits_view(x@) =~= Seq::<HitView>::empty() && hits_view(y@) =~= Seq::<HitView>::empty());
    assert(all =~= hits_view(back@).reverse());
    turned(back)
}

/// Brings hits into order.
fn sort_hits(l: Vec<GlobHit>) -> (r: Vec<GlobHit>)
    ensures
        hits_view(r@) == ordered(hits_view(l@)),
    decreases l@.len(),
{
    let ghost all = hits_view(l@);
    let n: usize = l.len();
    if n == 0 {
        assert(all =~= ordered(all));
        return l;
    }
    if n == 1 {
        proof {
            assert(ordered(all.drop_last()) =~= Seq::<HitView>::empty());
            assert(ordered(all) =~= all);
        }
        return l;
    }
    let mut front = l;
    let half: usize = n / 2;
    let back = front.split_off(half);
    proof {
        assert(all =~= hits_view(front@) + hits_view(back@));
        lemma_merged_ordered(hits_view(front@), hits_view(back@));
    }
    let x = sort_hits(front);
    let y = sort_hits(back);
    merge(x, y)
}

/// Whether two hits have the same path.
fn same_path(a: &GlobHit, b: &GlobHit) -> (r: bool)
    ensures
        r == (a@.path == b@.path),
{
    proof {
        lemma_list_total(a@.path, b@.path);
    }
    match rank_lists(&a.path, &b.path) {
        Rank::Same => true,
        _ => false,
    }
}

/// Whether the paths that are known by their digests are those of the first hits.
spec fn knows(m: Map<u64, Vec<usize>>, kept: Seq<HitView>) -> bool {
    &&& forall|i: int|
        0 <= i < kept.len() ==> m.contains_key(texts_digest((#[trigger] kept[i]).path))
            && m[texts_digest(kept[i].path)]@.contains(i as usize)
    &&& forall|d: u64, j: int| #[trigger]
        m.contains_key(d) && 0 <= j < m[d]@.len() ==> #[trigger] m[d]@[j] < kept.len()
}

proof fn lemma_distinct_paths(l: Seq<HitView>, path: Seq<Seq<char>>)
    ensures
        has_path(distinct(l), path) == has_path(l, path),
        distinct(l).len() <= l.len(),
    decreases l.len(),
{
    if l.len() > 0 {
        let front = l.drop_last();
        let kept = distinct(front);
        lemma_distinct_paths(front, path);
        if has_path(l, path) && !has_path(front, path) {
            let i = choose|i: int| 0 <= i < l.len() && (#[trigger] l[i]).path == path;
            if i < front.len() {
                assert(front[i].path == path);
            }
            assert(l.last().path == path);
            assert(distinct(l)[kept.len() as int].path == path);
        }
        if has_path(front, path) {
            let i = choose|i: int| 0 <= i < front.len() && (#[trigger] front[i]).path == path;
            assert(l[i].path == path);
            let k = choose|k: int| 0 <= k < kept.len() && (#[trigger] kept[k]).path == path;
            assert(distinct(l)[k].path == path);
        }
        if has_path(distinct(l), path) {
            let k = choose|k: int|
                0 <= k < distinct(l).len() && (#[trigger] distinct(l)[k]).path == path;
            if k < kept.len() {
                assert(kept[k].path == path);
            } else {
                assert(l[l.len() - 1].path == path);
            }
        }
    }
}

/// Keeps the first hit of each path.
fn first_of_each(l: Vec<GlobHit>) -> (r: Vec<GlobHit>)
    ensures
        hits_view(r@) == distinct(hits_view(l@)),
{
    let ghost all = hits_view(l@);
    let n: usize = l.len();
    let mut rest = turned(l);
    let mut kept: Vec<GlobHit> = Vec::new();
    let mut known: HashMap<u64, Vec<usize>> = HashMap::new();
    let mut done: usize = 0;
    assert(hits_view(kept@) =~= distinct(all.take(0)));
    assert(all.skip(0) =~= all);
    assert(hits_view(rest@).len() == rest@.len());
    while done < n
        invariant
            done <= n,
            n == all.len(),
            rest@.len() == n - done,
            hits_view(rest@) == all.skip(done as int).reverse(),
            hits_view(kept@) == distinct(all.take(done as int)),
            kept@.len() <= done,
            knows(known@, hits_view(kept@)),
        decreases n - done,
    {
        let ghost rest0 = rest@;
        if let Some(h) = rest.pop() {
            let ghost front = all.take(done as int);
            let ghost seen = hits_view(kept@);
            proof {
                assert(hits_view(rest0)[rest0.len() - 1] == h@);
                assert(all.skip(done as int).reverse()[rest0.len() - 1] == all[done as int]);
                assert(hits_view(rest@) =~= hits_view(rest0).drop_last());
                assert(all.skip(done + 1).reverse() =~= all.skip(done as int).reverse().drop_last());
                assert(all.take(done + 1).drop_last() =~= front);
                assert(all.take(done + 1).last() == h@);
                lemma_distinct_paths(front, h@.path);
            }
            let key: u64 = hash_texts(&h.path);
            let ghost map0 = known@;
            let mut places: Vec<usize> = match known.remove(&key) {
                Some(v) => v,
                None => Vec::new(),
            };
            let ghost places0 = places@;
            let mut is_new = true;
            let mut j: usize = 0;
            while j < places.len()
                invariant
                    j <= places@.len(),
                    places@ == places0,
                    seen == hits_view(kept@),
                    forall|k: int| 0 <= k < places0.len() ==> #[trigger] places0[k] < kept@.len(),
                    is_new == forall|k: int|
                        0 <= k < j ==> kept@[#[trigger] places0[k] as int]@.path != h@.path,
                decreases places@.len() - j,
            {
                if same_path(&kept[places[j]], &h) {
                    is_new = false;
                }
                j += 1;
            }
            proof {
                if !is_new {
                    let k = choose|k: int|
                        0 <= k < places0.len() && kept@[#[trigger] places0[k] as int]@.path
                            == h@.path;
                    assert(seen[places0[k] as int].path == h@.path);
                    assert(has_path(seen, h@.path));
                } else if has_path(seen, h@.path) {
                    let i = choose|i: int| 0 <= i < seen.len() && (#[trigger] seen[i]).path == h@.path;
                    assert(map0.contains_key(key) && map0[key]@.contains(i as usize));
                    let k = choose|k: int| 0 <= k < places0.len() && places0[k] == i as usize;
                    assert(kept@[places0[k] as int]@.path == h@.path);
                }
            }
            if is_new {
                let at: usize = kept.len();
                places.push(at);
                kept.push(h);
                assert(hits_view(kept@) =~= seen.push(h@));
            }
            let ghost places1 = places@;
            known.insert(key, places);
            proof {
                let now = hits_view(kept@);
                assert forall|i: int| 0 <= i < now.len() implies known@.contains_key(
                    texts_digest((#[trigger] now[i]).path),
                ) && known@[texts_digest(now[i].path)]@.contains(i as usize) by {
                    if i < seen.len() {
                        assert(seen[i] == now[i]);
                        let d = texts_digest(now[i].path);
                        if d == key {
                            let k = choose|k: int| 0 <= k < places0.len() && places0[k] == i as usize;
                            assert(places1[k] == i as usize);
                        }
                    } else {
                        assert(places1[places1.len() - 1] == i as usize);
                    }
                }
                assert forall|d: u64, j: int| #[trigger]
                    known@.contains_key(d) && 0 <= j < known@[d]@.len() implies #[trigger] known@[d]@[j]
                    < now.len() by {
                    if d == key {
                        if j < places0.len() {
                            assert(places1[j] == places0[j]);
                        }
                    } else {
                        assert(map0.contains_key(d));
                        assert(map0[d]@[j] < seen.len());
                    }
                }
            }
        }
        done += 1;
    }
    assert(all.take(n as int) =~= all);
    kept
}

/// Brings hits into order and leaves those out whose path was there before.
pub fn rank_hits(l: Vec<GlobHit>) -> (r: Vec<GlobHit>)
    ensures
        hits_view(r@) == ranked(hits_view(l@)),
{
    first_of_each(sort_hits(l))
}

// What is told

/// What is said of a hit.
pub open spec fn hit_line(workspace: &Workspace, home: Option<Seq<char>>, h: HitView) -> Seq<char> {
    let shown = shown_file(workspace, home, h.path);
    shown + (if h.is_dir && !(shown.len() > 0 && shown.last() == '/') {
        "/"@
    } else {
        Seq::empty()
    }) + "\n"@
}

/// What is said of hits.
pub open spec fn hit_lines(workspace: &Workspace, home: Option<Seq<char>>, l: Seq<HitView>) -> Seq<char>
    decreases l.len(),
{
    if l.len() == 0 {
        Seq::empty()
    } else {
        hit_lines(workspace, home, l.drop_last()) + hit_line(workspace, home, l.last())
    }
}

/// What is said where nothing was found.
pub open spec fn nothing_lines(timed_out: bool, missing: Seq<Seq<char>>) -> Seq<Seq<char>> {
    seq![
        if timed_out {
            "glob 扫描在 5.0s 内未完成，结果不完整——不代表没有匹配文件，请缩小 path 后重试"@
        } else {
            "没有找到匹配的文件"@
        },
    ] + if missing.len() > 0 {
        seq![missing_text(missing)]
    } else {
        Seq::empty()
    }
}

/// What is said behind the hits.
pub open spec fn trailer_lines(total: nat, limit: nat, timed_out: bool, missing: Seq<Seq<char>>) -> Seq<
    Seq<char>,
> {
    (if total > limit {
        seq![
            "仅显示前 "@ + dec(limit) + " 个结果（按修改时间倒序；共找到至少 "@ + dec(total)
                + " 个），缩小 pattern 或 path 可看到更相关的文件"@,
        ]
    } else {
        Seq::empty()
    }) + (if timed_out {
        seq!["glob 扫描在 5.0s 内未完成，以上结果不完整——不代表没有更多匹配文件"@]
    } else {
        Seq::empty()
    }) + (if missing.len() > 0 {
        seq![missing_text(missing)]
    } else {
        Seq::empty()
    })
}

/// What is told of hits.
pub open spec fn hits_text(
    workspace: &Workspace,
    home: Option<Seq<char>>,
    l: Seq<HitView>,
    limit: nat,
    timed_out: bool,
    missing: Seq<Seq<char>>,
) -> Seq<char> {
    if l.len() == 0 {
        joined(nothing_lines(timed_out, missing), "\n"@)
    } else {
        let shown = if l.len() <= limit {
            l
        } else {
            l.take(limit as int)
        };
        let trailer = trailer_lines(l.len(), limit, timed_out, missing);
        hit_lines(workspace, home, shown) + if trailer.len() > 0 {
            "\n"@ + joined(trailer, "\n"@)
        } else {
            Seq::empty()
        }
    }
}

/// Says what a hit is.
fn push_hit(body: &mut String, workspace: &Workspace, home: Option<&str>, h: &GlobHit)
    ensures
        final(body)@ == old(body)@ + hit_line(workspace, opt_view(home), h@),
{
    let ghost start = body@;
    let shown = show_file(workspace, home, &h.path);
    let letters = chars_of(shown.as_str());
    let closed = letters.len() > 0 && letters[letters.len() - 1] == '/';
    body.append(shown.as_str());
    if h.is_dir && !closed {
        body.append("/");
    }
    body.append("\n");
    assert(body@ =~= start + hit_line(workspace, opt_view(home), h@));
}

/// The text that is told of hits.
fn hits_body(
    hits: &Vec<GlobHit>,
    timed_out: bool,
    limit: usize,
    missing: &Vec<String>,
    workspace: &Workspace,
    home: Option<&str>,
) -> (r: String)
    ensures
        r@ == hits_text(
            workspace,
            opt_view(home),
            hits_view(hits@),
            limit as nat,
            timed_out,
            texts(missing@),
        ),
{
    let ghost all = hits_view(hits@);
    let ghost gone = texts(missing@);
    let ghost h = opt_view(home);
    let total: usize = hits.len();
    assert(all.len() == total && gone.len() == missing@.len());
    if total == 0 {
        let mut lines: Vec<String> = Vec::new();
        if timed_out {
            lines.push(
                "glob 扫描在 5.0s 内未完成，结果不完整——不代表没有匹配文件，请缩小 path 后重试".to_owned(),
            );
        } else {
            lines.push("没有找到匹配的文件".to_owned());
        }
        if missing.len() > 0 {
            lines.push(missing_note(missing));
        }
        assert(texts(lines@) =~= nothing_lines(timed_out, gone));
        return join_texts(&lines, "\n");
    }
    let shown: usize = if total <= limit {
        total
    } else {
        limit
    };
    let mut body = String::new();
    let mut i: usize = 0;
    assert(all.take(0) =~= Seq::<HitView>::empty());
    while i < shown
        invariant
            i <= shown <= total,
            total == hits@.len(),
            all == hits_view(hits@),
            h == opt_view(home),
            body@ == hit_lines(workspace, h, all.take(i as int)),
        decreases shown - i,
    {
        proof {
            assert(all.take(i + 1).drop_last() =~= all.take(i as int));
            assert(all.take(i + 1).last() == hits@[i as int]@);
        }
        push_hit(&mut body, workspace, home, &hits[i]);
        i += 1;
    }
    assert(all.take(total as int) =~= all);
    let mut trailer: Vec<String> = Vec::new();
    if total > shown {
        let mut text = "仅显示前 ".to_owned();
        push_dec(&mut text, shown as u64);
        text.append(" 个结果（按修改时间倒序；共找到至少 ");
        push_dec(&mut text, total as u64);
        text.append(" 个），缩小 pattern 或 path 可看到更相关的文件");
        trailer.push(text);
    }
    if timed_out {
        trailer.push(
            "glob 扫描在 5.0s 内未完成，以上结果不完整——不代表没有更多匹配文件".to_owned(),
        );
    }
    if missing.len() > 0 {
        trailer.push(missing_note(missing));
    }
    let ghost said = trailer_lines(all.len(), limit as nat, timed_out, gone);
    assert(texts(trailer@) =~= said);
    assert(texts(trailer@).len() == trailer@.len());
    let ghost front = body@;
    if trailer.len() > 0 {
        body.append("\n");
        let text = join_texts(&trailer, "\n");
        body.append(text.as_str());
        assert(body@ =~= front + ("\n"@ + joined(said, "\n"@)));
    } else {
        assert(front + Seq::<char>::empty() =~= front);
    }
    body
}

/// What is told of hits that are in order. It is not worth keeping where there is none.
pub fn render_hits(
    hits: &Vec<GlobHit>,
    timed_out: bool,
    effective_limit: usize,
    missing: &Vec<String>,
    workspace: &Workspace,
    home: Option<&str>,
    pattern: &str,
) -> (r: ToolOutput)
    ensures
        r.text@ == cleaned(
            hits_text(
                workspace,
                opt_view(home),
                hits_view(hits@),
                effective_limit as nat,
                timed_out,
                texts(missing@),
            ),
        ),
        r.title@ == "glob "@ + pattern@,
        r.useless == (hits@.len() == 0),
{
    let body = hits_body(hits, timed_out, effective_limit, missing, workspace, home);
    let mut title = "glob ".to_owned();
    title.append(pattern);
    let out = finish(body, title);
    if hits.len() == 0 {
        out.mark_useless()
    } else {
        out
    }
}

/// What comes of a walk: where the user wanted it to end, that; else what was found, newest first.
pub fn report(
    walk: WalkOutcome,
    cancelled: bool,
    args: &GlobArgs,
    missing: &Vec<String>,
    workspace: &Workspace,
    home: Option<&str>,
) -> (r: Result<ToolOutput, ToolError>)
    ensures
        match r {
            Ok(out) => {
                let hits = ranked(hits_view(walk.hits@));
                &&& !cancelled
                &&& out.text@ == cleaned(
                    hits_text(
                        workspace,
                        opt_view(home),
                        hits,
                        args.effective_limit as nat,
                        walk.timed_out,
                        texts(missing@),
                    ),
                )
                &&& out.title@ == "glob "@ + args.pattern@
                &&& out.useless == (hits.len() == 0)
            },
            Err(e) => cancelled && e is Cancelled,
        },
{
    if cancelled {
        return Err(ToolError::Cancelled);
    }
    let hits = rank_hits(walk.hits);
    assert(hits_view(hits@).len() == hits@.len());
    Ok(
        render_hits(
            &hits,
            walk.timed_out,
            args.effective_limit,
            missing,
            workspace,
            home,
            args.pattern.as_str(),
        ),
    )
}

// Laws

/// Whether no hit comes before one that stands in front of it.
pub open spec fn is_ordered(l: Seq<HitView>) -> bool {
    forall|i: int, j: int|
        0 <= i < j < l.len() ==> !comes_before(#[trigger] l[j], #[trigger] l[i])
}

proof fn lemma_placed_ordered(l: Seq<HitView>, h: HitView)
    requires
        is_ordered(l),
    ensures
        is_ordered(placed(l, h)),
        placed(l, h).to_multiset() == l.to_multiset().insert(h),
        forall|i: int|
            0 <= i < placed(l, h).len() ==> placed(l, h)[i] == h || l.contains(
                #[trigger] placed(l, h)[i],
            ),
    decreases l.len(),
{
    broadcast use vstd::seq_lib::group_to_multiset_ensures;

    let r = placed(l, h);
    if l.len() == 0 {
        assert(r =~= l.push(h));
    } else if comes_before(h, l.last()) {
        let m = l.drop_last();
        let q = placed(m, h);
        assert forall|i: int, j: int| 0 <= i < j < m.len() implies !comes_before(
            #[trigger] m[j],
            #[trigger] m[i],
        ) by {
            assert(l[j] == m[j] && l[i] == m[i]);
        }
        lemma_placed_ordered(m, h);
        assert(l =~= m.push(l.last()));
        assert(r.to_multiset() =~= l.to_multiset().insert(h));
        assert forall|i: int, j: int| 0 <= i < j < r.len() implies !comes_before(
            #[trigger] r[j],
            #[trigger] r[i],
        ) by {
            if j == r.len() - 1 {
                if q[i] == h {
                    lemma_list_total(h.path, l.last().path);
                } else {
                    assert(m.contains(q[i]));
                    let k = choose|k: int| 0 <= k < m.len() && m[k] == q[i];
                    assert(l[k] == q[i]);
                    assert(!comes_before(l[l.len() - 1], l[k]));
                }
            } else {
                assert(q[j] == r[j] && q[i] == r[i]);
            }
        }
        assert forall|i: int| 0 <= i < r.len() implies r[i] == h || l.contains(#[trigger] r[i]) by {
            if i < q.len() {
                assert(q[i] == r[i]);
                if q[i] != h {
                    let k = choose|k: int| 0 <= k < m.len() && m[k] == q[i];
                    assert(l[k] == r[i]);
                }
            } else {
                assert(l[l.len() - 1] == r[i]);
            }
        }
    } else {
        assert forall|i: int, j: int| 0 <= i < j < r.len() implies !comes_before(
            #[trigger] r[j],
            #[trigger] r[i],
        ) by {
            if j == r.len() - 1 {
                if i < l.len() - 1 {
                    assert(!comes_before(l[l.len() - 1], l[i]));
                    lemma_between(h, l[l.len() - 1], l[i]);
                }
            } else {
                assert(r[j] == l[j] && r[i] == l[i]);
            }
        }
    }
}

/// To bring hits into order changes nothing but their order.
pub proof fn lemma_ordered(l: Seq<HitView>)
    ensures
        is_ordered(ordered(l)),
        ordered(l).to_multiset() == l.to_multiset(),
    decreases l.len(),
{
    broadcast use vstd::seq_lib::group_to_multiset_ensures;

    if l.len() > 0 {
        lemma_ordered(l.drop_last());
        lemma_placed_ordered(ordered(l.drop_last()), l.last());
        assert(l =~= l.drop_last().push(l.last()));
    }
}

proof fn lemma_distinct(l: Seq<HitView>)
    requires
        is_ordered(l),
    ensures
        is_ordered(distinct(l)),
        forall|i: int, j: int|
            0 <= i < j < distinct(l).len() ==> (#[trigger] distinct(l)[i]).path != (
            #[trigger] distinct(l)[j]).path,
        forall|i: int| 0 <= i < distinct(l).len() ==> l.contains(#[trigger] distinct(l)[i]),
    decreases l.len(),
{
    if l.len() > 0 {
        let front = l.drop_last();
        let kept = distinct(front);
        let r = distinct(l);
        assert forall|i: int, j: int| 0 <= i < j < front.len() implies !comes_before(
            #[trigger] front[j],
            #[trigger] front[i],
        ) by {
            assert(l[j] == front[j] && l[i] == front[i]);
        }
        lemma_distinct(front);
        lemma_distinct_paths(front, l.last().path);
        assert forall|i: int| 0 <= i < r.len() implies l.contains(#[trigger] r[i]) by {
            if i < kept.len() {
                let k = choose|k: int| 0 <= k < front.len() && front[k] == kept[i];
                assert(l[k] == r[i]);
            } else {
                assert(l[l.len() - 1] == r[i]);
            }
        }
        if !has_path(front, l.last().path) {
            assert forall|i: int, j: int| 0 <= i < j < r.len() implies !comes_before(
                #[trigger] r[j],
                #[trigger] r[i],
            ) && r[i].path != r[j].path by {
                if j == kept.len() {
                    let k = choose|k: int| 0 <= k < front.len() && front[k] == kept[i];
                    assert(!comes_before(l[l.len() - 1], l[k]));
                    assert(!has_path(kept, l.last().path));
                    assert(kept[i].path != l.last().path);
                } else {
                    assert(kept[i] == r[i] && kept[j] == r[j]);
                }
            }
        }
    }
}

/// What is told of a walk has each path that was found once and no other, newest first.
pub proof fn lemma_ranked(l: Seq<HitView>)
    ensures
        is_ordered(ranked(l)),
        forall|i: int, j: int|
            0 <= i < j < ranked(l).len() ==> (#[trigger] ranked(l)[i]).path != (
            #[trigger] ranked(l)[j]).path,
        forall|path: Seq<Seq<char>>| #[trigger] has_path(ranked(l), path) == has_path(l, path),
{
    broadcast use vstd::seq_lib::group_to_multiset_ensures;

    let o = ordered(l);
    lemma_ordered(l);
    lemma_distinct(o);
    assert forall|path: Seq<Seq<char>>| #[trigger]
        has_path(ranked(l), path) == has_path(l, path) by {
        lemma_distinct_paths(o, path);
        if has_path(l, path) {
            let i = choose|i: int| 0 <= i < l.len() && (#[trigger] l[i]).path == path;
            assert(l.contains(l[i]));
            assert(l.to_multiset().contains(l[i]));
            assert(o.contains(l[i]));
            let k = choose|k: int| 0 <= k < o.len() && o[k] == l[i];
            assert(o[k].path == path);
        }
        if has_path(o, path) {
            let i = choose|i: int| 0 <= i < o.len() && (#[trigger] o[i]).path == path;
            assert(o.contains(o[i]));
            assert(o.to_multiset().contains(o[i]));
            assert(l.contains(o[i]));
            let k = choose|k: int| 0 <= k < l.len() && l[k] == o[i];
            assert(l[k].path == path);
        }
    }
}

} // verus!
