//! Where to search: the files and directories that a tool's `path` names.

use vstd::prelude::*;

use crate::strings::{
    chars_of, join_texts, joined, opt_view, runs, split_chars, split_on, string_of, texts, trim, trimmed,
};
use crate::tools::output::{cleaned, error, ToolError};
use crate::tools::selector::LineRange;
use crate::workspace::{displayed, parts_view, path_text, to_text, Part, PartView, PathError, Workspace};

verus! {

broadcast use vstd::seq::group_seq_axioms;

/// The pieces that are more than white space, without the white space at their ends.
pub open spec fn kept_pieces(pieces: Seq<Seq<char>>) -> Seq<Seq<char>>
    decreases pieces.len(),
{
    if pieces.len() == 0 {
        Seq::empty()
    } else {
        let front = kept_pieces(pieces.drop_last());
        let last = trim(pieces.last());
        if last.len() == 0 {
            front
        } else {
            front.push(last)
        }
    }
}

/// The targets that a `path` names: they are separated by semicolons, and where there is none it is
/// the workspace.
pub open spec fn targets(raw: Seq<char>) -> Seq<Seq<char>> {
    let kept = kept_pieces(split_on(raw, ';'));
    if kept.len() == 0 {
        seq!["."@]
    } else {
        kept
    }
}

/// The targets that a `path` names.
pub fn split_targets(raw: &str) -> (r: Vec<String>)
    ensures
        texts(r@) == targets(raw@),
        r@.len() > 0,
{
    let v = chars_of(raw);
    let pieces = split_chars(v.as_slice(), ';');
    let ghost all = runs(pieces@);
    let mut r: Vec<String> = Vec::new();
    let n: usize = pieces.len();
    let mut i: usize = 0;
    assert(all.take(0) =~= Seq::<Seq<char>>::empty());
    assert(texts(r@) =~= Seq::<Seq<char>>::empty());
    while i < n
        invariant
            i <= n,
            n == pieces@.len(),
            all == runs(pieces@),
            texts(r@) == kept_pieces(all.take(i as int)),
        decreases n - i,
    {
        let piece = trimmed(pieces[i].as_slice());
        proof {
            assert(all.take(i + 1).drop_last() =~= all.take(i as int));
            assert(all.take(i + 1).last() == pieces@[i as int]@);
        }
        let ghost before = texts(r@);
        if piece.len() > 0 {
            r.push(string_of(piece));
            assert(texts(r@) =~= before.push(piece@));
        }
        i += 1;
    }
    assert(all.take(n as int) =~= all);
    assert(texts(r@).len() == r@.len());
    if r.len() == 0 {
        r.push(".".to_owned());
        assert(texts(r@) =~= seq!["."@]);
    }
    r
}

/// Why a path leads nowhere, in words.
pub open spec fn path_error_text(err: PathError, raw: Seq<char>) -> Seq<char> {
    match err {
        PathError::Empty => "路径不能为空"@,
        PathError::NotUtf8 => "路径 `"@ + raw + "` 归一化后不是合法 UTF-8"@,
    }
}

/// Why a path leads nowhere, in words.
pub fn describe_path_error(err: &PathError, raw: &str) -> (r: String)
    ensures
        r@ == path_error_text(*err, raw@),
{
    match err {
        PathError::Empty => "路径不能为空".to_owned(),
        PathError::NotUtf8 => {
            let mut r = "路径 `".to_owned();
            r.append(raw);
            r.append("` 归一化后不是合法 UTF-8");
            r
        },
    }
}

/// Something to search.
#[derive(Debug)]
pub struct Target {
    /// As it was written.
    pub raw: String,
    /// Where it leads.
    pub path: Vec<Part>,
    /// The lines that count, where not all of them do.
    pub ranges: Option<Vec<LineRange>>,
}

/// What a [`Target`] is.
#[verifier::ext_equal]
pub struct TargetView {
    pub raw: Seq<char>,
    pub path: Seq<PartView>,
    pub ranges: Option<Seq<LineRange>>,
}

impl View for Target {
    type V = TargetView;

    open spec fn view(&self) -> TargetView {
        TargetView {
            raw: self.raw@,
            path: parts_view(self.path@),
            ranges: match self.ranges {
                Some(l) => Some(l@),
                None => None,
            },
        }
    }
}

/// What targets are.
pub open spec fn targets_view(l: Seq<Target>) -> Seq<TargetView> {
    Seq::new(l.len(), |i: int| l[i]@)
}

/// The targets that exist.
pub open spec fn existing(l: Seq<TargetView>, exists_at: Seq<bool>) -> Seq<TargetView>
    decreases l.len(),
{
    if l.len() == 0 {
        Seq::empty()
    } else {
        let front = existing(l.drop_last(), exists_at);
        if exists_at[l.len() - 1] {
            front.push(l.last())
        } else {
            front
        }
    }
}

/// The targets that do not exist, as they were written.
pub open spec fn lacking(l: Seq<TargetView>, exists_at: Seq<bool>) -> Seq<Seq<char>>
    decreases l.len(),
{
    if l.len() == 0 {
        Seq::empty()
    } else {
        let front = lacking(l.drop_last(), exists_at);
        if exists_at[l.len() - 1] {
            front
        } else {
            front.push(l.last().raw)
        }
    }
}

/// What is searched, and what is left out because it is not there.
#[derive(Debug)]
pub struct SearchRoots {
    pub found: Vec<Target>,
    pub missing: Vec<String>,
}

/// What is said where there is nothing to search: one target is told by where it leads, several as
/// they were written.
pub open spec fn absent_text(
    l: Seq<TargetView>,
    workspace: &Workspace,
    home: Option<Seq<char>>,
    exists_at: Seq<bool>,
) -> Seq<char> {
    "路径不存在："@ + if l.len() == 1 {
        displayed(workspace.home(), workspace.naming(), l[0].path, path_text(l[0].path), home)
    } else {
        joined(lacking(l, exists_at), ", "@)
    }
}

/// Sorts targets by whether they exist. Where none does there is nothing to search, which is an
/// error.
pub fn search_roots(
    all: Vec<Target>,
    exists_at: &Vec<bool>,
    workspace: &Workspace,
    home: Option<&str>,
) -> (r: Result<SearchRoots, ToolError>)
    requires
        all@.len() == exists_at@.len(),
        all@.len() > 0,
    ensures
        ({
            let l = targets_view(all@);
            match r {
                Ok(roots) => {
                    &&& existing(l, exists_at@).len() > 0
                    &&& targets_view(roots.found@) == existing(l, exists_at@)
                    &&& texts(roots.missing@) == lacking(l, exists_at@)
                },
                Err(e) => {
                    &&& existing(l, exists_at@).len() == 0
                    &&& e matches ToolError::Failed(text) && text@ == cleaned(
                        absent_text(l, workspace, opt_view(home), exists_at@),
                    )
                },
            }
        }),
{
    let ghost l = targets_view(all@);
    let n: usize = all.len();
    if n == 1 && !exists_at[0] {
        let path_shown = to_text(&all[0].path);
        let shown = workspace.display(&all[0].path, path_shown.as_str(), home);
        let mut text = "路径不存在：".to_owned();
        text.append(shown.as_str());
        proof {
            assert(l[0] == all@[0]@);
            assert(l.drop_last().len() == 0);
            assert(existing(l, exists_at@) =~= existing(l.drop_last(), exists_at@));
            assert(text@ =~= absent_text(l, workspace, opt_view(home), exists_at@));
        }
        return Err(error(text.as_str()));
    }
    let mut rest = all;
    let mut queue: Vec<Target> = Vec::new();
    // The last target first, so that each can be taken from the end.
    while rest.len() > 0
        invariant
            rest@.len() <= l.len(),
            targets_view(rest@) == l.take(rest@.len() as int),
            targets_view(queue@) == l.skip(rest@.len() as int).reverse(),
        decreases rest@.len(),
    {
        let ghost k = rest@.len() as int;
        let ghost before = targets_view(queue@);
        let ghost rest0 = rest@;
        if let Some(t) = rest.pop() {
            assert(targets_view(rest0)[k - 1] == t@);
            queue.push(t);
            assert(targets_view(rest@) =~= l.take(k - 1));
            assert(targets_view(queue@) =~= before.push(t@));
            assert(l.skip(k - 1) =~= seq![t@] + l.skip(k));
            assert(l.skip(k - 1).reverse() =~= l.skip(k).reverse().push(t@));
        }
    }
    assert(l.skip(0) =~= l);
    let mut found: Vec<Target> = Vec::new();
    let mut missing: Vec<String> = Vec::new();
    let mut done: usize = 0;
    assert(targets_view(found@) =~= existing(l.take(0), exists_at@));
    assert(texts(missing@) =~= lacking(l.take(0), exists_at@));
    while done < n
        invariant
            done <= n,
            n == l.len() == exists_at@.len(),
            queue@.len() == n - done,
            targets_view(queue@) == l.skip(done as int).reverse(),
            targets_view(found@) == existing(l.take(done as int), exists_at@),
            texts(missing@) == lacking(l.take(done as int), exists_at@),
        decreases n - done,
    {
        let ghost queue0 = queue@;
        if let Some(t) = queue.pop() {
            let ghost found0 = targets_view(found@);
            let ghost missing0 = texts(missing@);
            proof {
                assert(targets_view(queue0)[queue0.len() - 1] == t@);
                assert(l.skip(done as int).reverse()[queue0.len() - 1] == l[done as int]);
                assert(targets_view(queue@) =~= targets_view(queue0).drop_last());
                assert(l.skip(done + 1).reverse() =~= l.skip(done as int).reverse().drop_last());
                assert(l.take(done + 1).drop_last() =~= l.take(done as int));
                assert(l.take(done + 1).last() == t@);
            }
            if exists_at[done] {
                found.push(t);
                assert(targets_view(found@) =~= found0.push(l[done as int]));
            } else {
                missing.push(t.raw);
                assert(texts(missing@) =~= missing0.push(l[done as int].raw));
            }
        }
        done += 1;
    }
    assert(l.take(n as int) =~= l);
    assert(targets_view(found@).len() == found@.len());
    if found.len() == 0 {
        let mut text = "路径不存在：".to_owned();
        let list = join_texts(&missing, ", ");
        text.append(list.as_str());
        proof {
            if l.len() == 1 {
                assert(existing(l, exists_at@) =~= existing(l.drop_last(), exists_at@).push(l[0]));
            }
            assert(text@ =~= absent_text(l, workspace, opt_view(home), exists_at@));
        }
        return Err(error(text.as_str()));
    }
    Ok(SearchRoots { found, missing })
}

/// Each target is searched where it exists and told as missing where it does not, and nothing else
/// is searched or told.
pub proof fn lemma_each_target_counts(l: Seq<TargetView>, exists_at: Seq<bool>)
    requires
        l.len() <= exists_at.len(),
    ensures
        existing(l, exists_at).len() + lacking(l, exists_at).len() == l.len(),
        forall|i: int|
            0 <= i < l.len() && exists_at[i] ==> existing(l, exists_at).contains(#[trigger] l[i]),
        forall|i: int|
            0 <= i < l.len() && !exists_at[i] ==> lacking(l, exists_at).contains(
                (#[trigger] l[i]).raw,
            ),
    decreases l.len(),
{
    if l.len() > 0 {
        let front = l.drop_last();
        lemma_each_target_counts(front, exists_at);
        let found = existing(front, exists_at);
        let missing = lacking(front, exists_at);
        assert forall|i: int| 0 <= i < l.len() && exists_at[i] implies existing(
            l,
            exists_at,
        ).contains(#[trigger] l[i]) by {
            if i < front.len() {
                assert(front[i] == l[i]);
                let k = choose|k: int| 0 <= k < found.len() && found[k] == l[i];
                assert(existing(l, exists_at)[k] == l[i]);
            } else {
                assert(existing(l, exists_at)[found.len() as int] == l[i]);
            }
        }
        assert forall|i: int| 0 <= i < l.len() && !exists_at[i] implies lacking(
            l,
            exists_at,
        ).contains((#[trigger] l[i]).raw) by {
            if i < front.len() {
                assert(front[i] == l[i]);
                let k = choose|k: int| 0 <= k < missing.len() && missing[k] == l[i].raw;
                assert(lacking(l, exists_at)[k] == l[i].raw);
            } else {
                assert(lacking(l, exists_at)[missing.len() as int] == l[i].raw);
            }
        }
    }
}

} // verus!
