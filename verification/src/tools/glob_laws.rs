//! What a list of found paths tells.

use vstd::prelude::*;

use crate::order::{lemma_list_total, list_before};
use crate::strings::{
    dec, holds, joined, lemma_holds, lemma_holds_within, lemma_joined_holds, lemma_split_none,
    split_on,
};
use crate::tools::glob::{
    clamped, comes_before, distinct, glob_path, has_path, hit_line, hit_lines, hits_text, lemma_ordered,
    lemma_ranked, nothing_lines, ordered, ranked, trailer_lines, HitView,
};
use crate::tools::grep::{missing_text, shown_file};
use crate::workspace::{led, normal, parts_of, piece_parts, PartView, Workspace};
use crate::workspace_laws::lemma_detours_lead_nowhere;

verus! {

broadcast use vstd::seq::group_seq_axioms;

/// At most two hundred results are shown, and no fewer than one: a number between these is obeyed.
pub proof fn lemma_limit_is_obeyed(requested: Option<nat>)
    ensures
        1 <= clamped(requested) <= 200,
        requested is None ==> clamped(requested) == 200,
        requested matches Some(n) ==> {
            &&& 1 <= n <= 200 ==> clamped(requested) == n
            &&& n < 1 ==> clamped(requested) == 1
            &&& n > 200 ==> clamped(requested) == 200
        },
{
}

proof fn lemma_newest_kept(l: Seq<HitView>, i: int) -> (k: int)
    requires
        crate::tools::glob::is_ordered(l),
        0 <= i < l.len(),
    ensures
        0 <= k < distinct(l).len(),
        distinct(l)[k].path == l[i].path,
        distinct(l)[k].mtime >= l[i].mtime,
    decreases l.len(),
{
    let front = l.drop_last();
    let kept = distinct(front);
    assert forall|a: int, b: int| 0 <= a < b < front.len() implies !comes_before(
        #[trigger] front[b],
        #[trigger] front[a],
    ) by {
        assert(l[a] == front[a] && l[b] == front[b]);
    }
    if i < front.len() {
        let k = lemma_newest_kept(front, i);
        assert(distinct(l)[k] == kept[k]);
        k
    } else if has_path(front, l.last().path) {
        let j = choose|j: int| 0 <= j < front.len() && (#[trigger] front[j]).path == l.last().path;
        let k = lemma_newest_kept(front, j);
        assert(!comes_before(l[i], l[j]));
        assert(distinct(l)[k] == kept[k]);
        k
    } else {
        kept.len() as int
    }
}

/// What was found is told newest first, and what is of one time in the order of the paths; of a path
/// that was found more than once the newest find counts.
pub proof fn lemma_newest_first(l: Seq<HitView>)
    ensures
        forall|i: int, j: int|
            0 <= i < j < ranked(l).len() ==> (#[trigger] ranked(l)[i]).mtime > (#[trigger] ranked(
                l,
            )[j]).mtime || ranked(l)[i].mtime == ranked(l)[j].mtime && list_before(
                ranked(l)[i].path,
                ranked(l)[j].path,
            ),
        forall|i: int|
            0 <= i < l.len() ==> exists|k: int|
                0 <= k < ranked(l).len() && (#[trigger] ranked(l)[k]).path == (#[trigger] l[i]).path
                    && ranked(l)[k].mtime >= l[i].mtime,
{
    broadcast use vstd::seq_lib::group_to_multiset_ensures;

    let r = ranked(l);
    let o = ordered(l);
    lemma_ranked(l);
    lemma_ordered(l);
    assert forall|i: int, j: int| 0 <= i < j < r.len() implies (#[trigger] r[i]).mtime > (
    #[trigger] r[j]).mtime || r[i].mtime == r[j].mtime && list_before(r[i].path, r[j].path) by {
        assert(!comes_before(r[j], r[i]));
        assert(r[i].path != r[j].path);
        lemma_list_total(r[i].path, r[j].path);
    }
    assert forall|i: int| 0 <= i < l.len() implies exists|k: int|
        0 <= k < r.len() && (#[trigger] r[k]).path == (#[trigger] l[i]).path && r[k].mtime
            >= l[i].mtime by {
        assert(l.to_multiset().contains(l[i]));
        assert(o.contains(l[i]));
        let j = choose|j: int| 0 <= j < o.len() && o[j] == l[i];
        let k = lemma_newest_kept(o, j);
        assert(r[k].path == l[i].path);
    }
}

/// A hit as it is shown: its name, and a slash behind that of a directory.
pub open spec fn hit_shown(workspace: &Workspace, home: Option<Seq<char>>, h: HitView) -> Seq<char> {
    let name = shown_file(workspace, home, h.path);
    if h.is_dir && (name.len() == 0 || name.last() != '/') {
        name + "/"@ + "\n"@
    } else {
        name + "\n"@
    }
}

proof fn lemma_hit_lines(workspace: &Workspace, home: Option<Seq<char>>, l: Seq<HitView>)
    ensures
        hit_lines(workspace, home, l) == joined(
            Seq::new(l.len(), |i: int| hit_shown(workspace, home, l[i])),
            Seq::empty(),
        ),
    decreases l.len(),
{
    let parts = Seq::new(l.len(), |i: int| hit_shown(workspace, home, l[i]));
    if l.len() > 0 {
        let front = l.drop_last();
        lemma_hit_lines(workspace, home, front);
        assert(parts.drop_last() =~= Seq::new(
            front.len(),
            |i: int| hit_shown(workspace, home, front[i]),
        ));
        assert(hit_line(workspace, home, l.last()) =~= hit_shown(workspace, home, l.last()));
        assert(parts.last() == hit_shown(workspace, home, l.last()));
        assert(joined(parts, Seq::empty()) =~= joined(parts.drop_last(), Seq::empty()) + parts.last());
    }
}

/// The first hits, as many as may be, are shown line by line, in their order; behind them an empty line
/// and what else there is to say.
pub proof fn lemma_hits_are_shown(
    workspace: &Workspace,
    home: Option<Seq<char>>,
    l: Seq<HitView>,
    limit: nat,
    timed_out: bool,
    missing: Seq<Seq<char>>,
)
    requires
        l.len() > 0,
    ensures
        ({
            let n = if l.len() <= limit {
                l.len()
            } else {
                limit
            };
            let body = joined(Seq::new(n, |i: int| hit_shown(workspace, home, l[i])), Seq::empty());
            let whole = hits_text(workspace, home, l, limit, timed_out, missing);
            &&& whole.len() >= body.len()
            &&& whole.take(body.len() as int) == body
            &&& l.len() <= limit && !timed_out && missing.len() == 0 ==> whole == body
        }),
{
    let shown = if l.len() <= limit {
        l
    } else {
        l.take(limit as int)
    };
    lemma_hit_lines(workspace, home, shown);
    assert(Seq::new(shown.len(), |i: int| hit_shown(workspace, home, shown[i])) =~= Seq::new(
        shown.len(),
        |i: int| hit_shown(workspace, home, l[i]),
    ));
    let body = hit_lines(workspace, home, shown);
    let whole = hits_text(workspace, home, l, limit, timed_out, missing);
    assert(whole.take(body.len() as int) =~= body);
    assert(l.len() <= limit && !timed_out && missing.len() == 0 ==> whole =~= body);
}

/// Where hits are left out it is told how many are shown of how many; where time ran out, and where
/// targets were missing, that is told, hits or none.
pub proof fn lemma_what_is_lacking_is_told(
    workspace: &Workspace,
    home: Option<Seq<char>>,
    l: Seq<HitView>,
    limit: nat,
    timed_out: bool,
    missing: Seq<Seq<char>>,
)
    ensures
        l.len() > limit && l.len() > 0 ==> holds(
            hits_text(workspace, home, l, limit, timed_out, missing),
            "仅显示前 "@ + dec(limit) + " 个结果（按修改时间倒序；共找到至少 "@ + dec(l.len()),
        ),
        timed_out && l.len() > 0 ==> holds(
            hits_text(workspace, home, l, limit, timed_out, missing),
            "glob 扫描在 5.0s 内未完成，以上结果不完整——不代表没有更多匹配文件"@,
        ),
        timed_out && l.len() == 0 ==> holds(
            hits_text(workspace, home, l, limit, timed_out, missing),
            "glob 扫描在 5.0s 内未完成，结果不完整——不代表没有匹配文件，请缩小 path 后重试"@,
        ),
        !timed_out && l.len() == 0 ==> holds(
            hits_text(workspace, home, l, limit, timed_out, missing),
            "没有找到匹配的文件"@,
        ),
        missing.len() > 0 ==> holds(
            hits_text(workspace, home, l, limit, timed_out, missing),
            joined(missing, ", "@),
        ),
{
    let none = Seq::<char>::empty();
    let whole = hits_text(workspace, home, l, limit, timed_out, missing);
    let lack = joined(missing, ", "@);
    assert(missing_text(missing) =~= "已跳过不存在的路径："@ + lack + none);
    lemma_holds("已跳过不存在的路径："@, lack, none);
    if l.len() == 0 {
        let lines = nothing_lines(timed_out, missing);
        assert(lines[0] =~= none + lines[0] + none);
        lemma_holds(none, lines[0], none);
        lemma_joined_holds(lines, "\n"@, 0, lines[0]);
        if missing.len() > 0 {
            assert(lines[1] == missing_text(missing));
            lemma_joined_holds(lines, "\n"@, 1, lack);
        }
    } else {
        let lines = trailer_lines(l.len(), limit, timed_out, missing);
        let tail = joined(lines, "\n"@);
        let a = if l.len() > limit {
            1int
        } else {
            0
        };
        let b = if timed_out {
            a + 1
        } else {
            a
        };
        let front = whole.take(whole.len() - tail.len());
        if lines.len() > 0 {
            assert(whole =~= front + tail + none);
        }
        if l.len() > limit {
            let part = "仅显示前 "@ + dec(limit) + " 个结果（按修改时间倒序；共找到至少 "@ + dec(l.len());
            let back = " 个），缩小 pattern 或 path 可看到更相关的文件"@;
            assert(lines[0] =~= none + part + back);
            lemma_holds(none, part, back);
            lemma_joined_holds(lines, "\n"@, 0, part);
            lemma_holds_within(front, tail, none, part);
        }
        if timed_out {
            let part = "glob 扫描在 5.0s 内未完成，以上结果不完整——不代表没有更多匹配文件"@;
            assert(lines[a] =~= none + part + none);
            lemma_holds(none, part, none);
            lemma_joined_holds(lines, "\n"@, a, part);
            lemma_holds_within(front, tail, none, part);
        }
        if missing.len() > 0 {
            assert(lines[b] == missing_text(missing));
            lemma_joined_holds(lines, "\n"@, b, lack);
            lemma_holds_within(front, tail, none, lack);
        }
    }
}

/// A path of nothing but slashes is the workspace itself; any other one is what it is for every tool.
pub proof fn lemma_slashes_mean_the_workspace(workspace: &Workspace, raw: Seq<char>)
    requires
        raw.len() > 0,
    ensures
        (forall|i: int| 0 <= i < raw.len() ==> #[trigger] raw[i] == '/') ==> glob_path(workspace, raw)
            == normal(workspace.home()),
        (exists|i: int| 0 <= i < raw.len() && #[trigger] raw[i] != '/') ==> glob_path(workspace, raw)
            == normal(led(workspace.home(), raw)),
{
    if forall|i: int| 0 <= i < raw.len() ==> #[trigger] raw[i] == '/' {
        let home = workspace.home();
        reveal_strlit(".");
        assert("."@ =~= seq!['.']);
        lemma_split_none("."@, '/');
        let pieces = split_on("."@, '/');
        assert(piece_parts(pieces, 0) =~= Seq::<PartView>::empty());
        assert(piece_parts(pieces, 1) =~= seq![PartView::Here]);
        assert(parts_of("."@) =~= seq![PartView::Here]);
        lemma_detours_lead_nowhere(home, Seq::empty(), Seq::empty());
        assert(home + seq![PartView::Here] + Seq::empty() =~= home + seq![PartView::Here]);
        assert(home + Seq::<PartView>::empty() =~= home);
    }
}

} // verus!
